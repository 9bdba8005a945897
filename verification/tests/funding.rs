use manifest_perps::error::MarketError;
use manifest_perps::funding::{
    compute_funding_payment, compute_funding_rate, compute_oracle_reference_quote, fund_seat,
    CrankFundingParams, FundingCrank,
};
use manifest_perps::price::Price;
use manifest_perps::state::{ClaimedSeat, Market, OrderType};

fn key(tag: u8) -> [u8; 32] {
    let mut bytes = [0u8; 32];
    bytes[0] = tag;
    bytes[31] = tag;
    bytes
}

fn record(exponent: i32, price: i64, status: u32) -> Vec<u8> {
    let mut data = vec![0u8; 240];
    data[0..4].copy_from_slice(&0xa1b2c3d4u32.to_le_bytes());
    data[20..24].copy_from_slice(&exponent.to_le_bytes());
    data[208..216].copy_from_slice(&price.to_le_bytes());
    data[216..224].copy_from_slice(&17u64.to_le_bytes());
    data[224..228].copy_from_slice(&status.to_le_bytes());
    data
}

fn seat_with(margin: u64, position: i64) -> ClaimedSeat {
    ClaimedSeat {
        trader: key(1),
        base_withdrawable_balance: 3,
        quote_withdrawable_balance: margin,
        position_size: position,
        quote_cost_basis: 4,
    }
}

#[test]
fn crank_funding_params_take_nothing() {
    let _params: CrankFundingParams = CrankFundingParams::new();
}

#[test]
fn funding_rate_is_the_scaled_gap_for_the_time_passed() {
    // mark one percent above the oracle, for a whole period
    assert_eq!(compute_funding_rate(101_000_000, 100_000_000, 3_600), Ok(10_000_000));
    // one percent below, for half a period
    assert_eq!(compute_funding_rate(99_000_000, 100_000_000, 1_800), Ok(-5_000_000));
    assert_eq!(compute_funding_rate(100_000_000, 100_000_000, 3_600), Ok(0));
}

#[test]
fn funding_rate_rounds_toward_zero() {
    assert_eq!(compute_funding_rate(100_000_001, 100_000_000, 1), Ok(0));
    assert_eq!(compute_funding_rate(99_999_999, 100_000_000, 1), Ok(0));
    assert_eq!(compute_funding_rate(4, 3, 7), Ok(648_148));
    assert_eq!(compute_funding_rate(2, 3, 7), Ok(-648_148));
}

#[test]
fn funding_rate_stays_within_64_bits() {
    assert_eq!(compute_funding_rate(u64::MAX, 1, 1), Ok(i64::MAX));
    assert_eq!(compute_funding_rate(0, 1_000, 40_000_000_000_000), Ok(i64::MIN));
    assert_eq!(compute_funding_rate(0, 1_000, 33_000_000_000_000), Ok(-9_166_666_666_666_666_666));
}

#[test]
fn funding_rate_reports_values_that_do_not_fit() {
    assert_eq!(compute_funding_rate(u64::MAX, 1, i64::MAX), Err(MarketError::Overflow));
    assert_eq!(compute_funding_rate(0, i128::MAX, 1), Err(MarketError::Overflow));
    assert_eq!(compute_funding_rate(0, i128::MAX / 3_600 + 1, 1), Err(MarketError::Overflow));
}

#[test]
fn funding_payment_is_signed_and_rounds_toward_zero() {
    assert_eq!(compute_funding_payment(1_000_000, 10_000_000), 10_000);
    assert_eq!(compute_funding_payment(-500_000, 10_000_000), -5_000);
    assert_eq!(compute_funding_payment(1_000_000, -10_000_000), -10_000);
    assert_eq!(compute_funding_payment(-500_000, -10_000_000), 5_000);
    assert_eq!(compute_funding_payment(199, 10_000_000), 1);
    assert_eq!(compute_funding_payment(-199, 10_000_000), -1);
    assert_eq!(compute_funding_payment(99, 10_000_000), 0);
    assert_eq!(compute_funding_payment(i64::MIN, i64::MIN), (1i128 << 126) / 1_000_000_000);
    assert_eq!(compute_funding_payment(i64::MIN, i64::MAX), -(((1i128 << 126) - (1i128 << 63)) / 1_000_000_000));
}

#[test]
fn funding_moves_the_margin_within_its_range() {
    assert_eq!(fund_seat(seat_with(20_000, 1_000_000), 10_000_000).quote_withdrawable_balance, 10_000);
    assert_eq!(fund_seat(seat_with(20_000, -500_000), 10_000_000).quote_withdrawable_balance, 25_000);
    assert_eq!(fund_seat(seat_with(9_999, 1_000_000), 10_000_000).quote_withdrawable_balance, 0);
    assert_eq!(
        fund_seat(seat_with(u64::MAX - 4_999, -500_000), 10_000_000).quote_withdrawable_balance,
        u64::MAX
    );
    assert_eq!(fund_seat(seat_with(20_000, 0), i64::MAX), seat_with(20_000, 0));
    let funded = fund_seat(seat_with(20_000, 7), 1_000_000_000);
    assert_eq!(funded, ClaimedSeat { quote_withdrawable_balance: 19_993, ..seat_with(20_000, 7) });
}

#[test]
fn oracle_reference_quote_scales_the_price() {
    assert_eq!(compute_oracle_reference_quote(123, 0), Ok(123));
    assert_eq!(compute_oracle_reference_quote(123, 4), Ok(1_230_000));
    assert_eq!(compute_oracle_reference_quote(123_456, -2), Ok(1_234));
    assert_eq!(compute_oracle_reference_quote(123_456, -6), Ok(0));
    assert_eq!(compute_oracle_reference_quote(123_456, i64::MIN + 1), Ok(0));
    assert_eq!(compute_oracle_reference_quote(0, i64::MAX), Ok(0));
    assert_eq!(compute_oracle_reference_quote(1, 38), Ok(100_000_000_000_000_000_000_000_000_000_000_000_000));
    assert_eq!(compute_oracle_reference_quote(1, 39), Err(MarketError::Overflow));
    assert_eq!(compute_oracle_reference_quote(2, 38), Err(MarketError::Overflow));
    assert_eq!(compute_oracle_reference_quote(u64::MAX, i64::MAX), Err(MarketError::Overflow));
}

fn market_with_positions() -> (Market, u32, u32, u32) {
    let mut market = Market::new(key(200), key(201), 0, 0, 500);
    assert_eq!(market.expand(8), 8);
    let long = market.claim_seat(key(1)).unwrap();
    let short = market.claim_seat(key(2)).unwrap();
    let flat = market.claim_seat(key(3)).unwrap();
    for seat in [long, short, flat] {
        market.deposit(seat, false, 1_000_000).unwrap();
    }
    market.set_position(long, 1_000_000_000_000, 5).unwrap();
    market.set_position(short, -500_000_000_000, 6).unwrap();
    (market, long, short, flat)
}

#[test]
fn first_crank_starts_the_clock() {
    let (mut market, long, _, _) = market_with_positions();
    assert_eq!(market.process_crank_funding(&record(-2, 123_456_789_012, 1), 1_700_000_000), Ok(None));
    let header = market.header();
    assert_eq!(header.oracle_price_mantissa, 123_456_789_012);
    assert_eq!(header.oracle_price_expo, -2);
    assert_eq!(header.last_funding_timestamp, 1_700_000_000);
    assert_eq!(header.cumulative_funding, 0);
    assert_eq!(market.seat(long).unwrap().quote_withdrawable_balance, 1_000_000);
}

#[test]
fn crank_charges_the_longs_and_credits_the_shorts() {
    let (mut market, long, short, flat) = market_with_positions();
    market.set_last_funding_timestamp(1_700_000_000);
    market.set_cumulative_funding(-3);
    // the oracle price loses two digits on its way to a book price, which
    // puts the mark a little below the oracle
    let record = record(-2, 123_456_789_012, 1);
    let charged = market.process_crank_funding(&record, 1_700_000_000 + 3_600_000).unwrap();
    assert_eq!(
        charged,
        Some(FundingCrank {
            oracle_price: 123_456_789_012,
            funding_rate: -97,
            timestamp: 1_703_600_000,
        })
    );
    assert_eq!(market.seat(long).unwrap().quote_withdrawable_balance, 1_000_000 + 97_000);
    assert_eq!(market.seat(short).unwrap().quote_withdrawable_balance, 1_000_000 - 48_500);
    assert_eq!(market.seat(flat).unwrap().quote_withdrawable_balance, 1_000_000);
    assert_eq!(market.seat(long).unwrap().position_size, 1_000_000_000_000);
    assert_eq!(market.seat(long).unwrap().quote_cost_basis, 5);
    let header = market.header();
    assert_eq!(header.cumulative_funding, -100);
    assert_eq!(header.last_funding_timestamp, 1_703_600_000);
    assert_eq!(header.oracle_price_mantissa, 123_456_789_012);
    assert_eq!(header.total_long_base_atoms, 1_000_000_000_000);
    assert_eq!(header.total_short_base_atoms, 500_000_000_000);
}

#[test]
fn second_crank_at_the_same_time_changes_nothing() {
    let (mut market, long, short, _) = market_with_positions();
    market.set_last_funding_timestamp(1_700_000_000);
    let record = record(-2, 123_456_789_012, 1);
    assert!(market.process_crank_funding(&record, 1_703_600_000).unwrap().is_some());
    let header = market.header();
    let long_margin = market.seat(long).unwrap().quote_withdrawable_balance;
    let short_margin = market.seat(short).unwrap().quote_withdrawable_balance;
    assert_eq!(market.process_crank_funding(&record, 1_703_600_000), Ok(None));
    let again = market.header();
    assert_eq!(again.cumulative_funding, header.cumulative_funding);
    assert_eq!(again.last_funding_timestamp, header.last_funding_timestamp);
    assert_eq!(again.oracle_price_mantissa, header.oracle_price_mantissa);
    assert_eq!(again.oracle_price_expo, header.oracle_price_expo);
    assert_eq!(market.seat(long).unwrap().quote_withdrawable_balance, long_margin);
    assert_eq!(market.seat(short).unwrap().quote_withdrawable_balance, short_margin);
    // nor does a crank whose time lies before the last one
    assert_eq!(market.process_crank_funding(&record, 1_703_599_999), Ok(None));
    assert_eq!(market.header().last_funding_timestamp, 1_703_600_000);
}

#[test]
fn crank_without_a_mark_price_resets_the_clock() {
    let (mut market, long, _, _) = market_with_positions();
    market.set_last_funding_timestamp(50);
    // the oracle price is beyond a book price and the books are empty
    assert_eq!(market.process_crank_funding(&record(127, 5_000_000_000, 1), 100), Ok(None));
    assert_eq!(market.header().last_funding_timestamp, 100);
    assert_eq!(market.header().oracle_price_mantissa, 5_000_000_000);
    assert_eq!(market.header().oracle_price_expo, 127);
    assert_eq!(market.seat(long).unwrap().quote_withdrawable_balance, 1_000_000);
}

#[test]
fn crank_with_a_worthless_oracle_resets_the_clock() {
    let (mut market, long, _, _) = market_with_positions();
    market.set_last_funding_timestamp(50);
    assert_eq!(market.process_crank_funding(&record(-10, 5, 1), 100), Ok(None));
    assert_eq!(market.header().last_funding_timestamp, 100);
    assert_eq!(market.header().cumulative_funding, 0);
    assert_eq!(market.seat(long).unwrap().quote_withdrawable_balance, 1_000_000);
}

#[test]
fn crank_reports_an_oracle_that_does_not_fit() {
    let (mut market, _, _, flat) = market_with_positions();
    market.deposit(flat, true, 10).unwrap();
    market.post_order(flat, false, 1, Price::new(7, 0), OrderType::Limit, 0, 0, 0).unwrap();
    market.set_last_funding_timestamp(1);
    // the books give a mark of 7, but the oracle is beyond measure
    let huge = record(127, 5_000_000_000, 1);
    assert_eq!(market.process_crank_funding(&huge, 3_601), Err(MarketError::Overflow));
    assert_eq!(market.header().oracle_price_mantissa, 0);
    assert_eq!(market.header().last_funding_timestamp, 1);
}

#[test]
fn crank_reports_a_mark_that_does_not_fit() {
    let (mut market, long, _, _) = market_with_positions();
    market.set_last_funding_timestamp(1);
    market.set_oracle_price(9, 9);
    assert_eq!(market.process_crank_funding(&record(11, 4_000_000_000, 1), 2), Err(MarketError::Overflow));
    let header = market.header();
    assert_eq!(header.oracle_price_mantissa, 9);
    assert_eq!(header.oracle_price_expo, 9);
    assert_eq!(header.last_funding_timestamp, 1);
    assert_eq!(market.seat(long).unwrap().quote_withdrawable_balance, 1_000_000);
}

#[test]
fn crank_refuses_an_unusable_oracle() {
    let (mut market, _, _, _) = market_with_positions();
    market.set_last_funding_timestamp(1);
    assert_eq!(market.process_crank_funding(&record(-2, 100, 0), 5_000), Err(MarketError::InvalidOracle));
    assert_eq!(market.process_crank_funding(&record(-2, 0, 1), 5_000), Err(MarketError::InvalidOracle));
    assert_eq!(market.process_crank_funding(&[1, 2, 3], 5_000), Err(MarketError::InvalidOracle));
    assert_eq!(market.process_crank_funding(&record(128, 100, 1), 5_000), Err(MarketError::InvalidOracle));
    assert_eq!(market.process_crank_funding(&record(-129, 100, 1), 5_000), Err(MarketError::InvalidOracle));
    assert_eq!(market.process_crank_funding(&record(i32::MAX, 100, 1), 5_000), Err(MarketError::InvalidOracle));
    assert_eq!(market.header().oracle_price_mantissa, 0);
    assert_eq!(market.header().last_funding_timestamp, 1);
}

#[test]
fn elapsed_time_saturates() {
    let (mut market, long, _, _) = market_with_positions();
    market.set_last_funding_timestamp(-5);
    let record = record(-2, 123_456_789_012, 1);
    // the gap is 120000000 of 1234567890120000000, times 10^9, for
    // 2^63 - 1 seconds
    let charged = market.process_crank_funding(&record, i64::MAX).unwrap().unwrap();
    assert_eq!(charged.funding_rate, -249_031_047_237_055);
    assert_eq!(market.seat(long).unwrap().quote_withdrawable_balance, 249_031_047_238_055_000);
}
