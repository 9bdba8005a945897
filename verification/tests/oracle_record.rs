use manifest_perps::error::MarketError;
use manifest_perps::oracle::read_pyth_price;

fn record(magic: u32, exponent: i32, price: i64, confidence: u64, status: u32) -> Vec<u8> {
    let mut data = vec![0xEEu8; 240];
    data[0..4].copy_from_slice(&magic.to_le_bytes());
    data[20..24].copy_from_slice(&exponent.to_le_bytes());
    data[208..216].copy_from_slice(&price.to_le_bytes());
    data[216..224].copy_from_slice(&confidence.to_le_bytes());
    data[224..228].copy_from_slice(&status.to_le_bytes());
    data
}

#[test]
fn reads_price_exponent_and_confidence() {
    let data = record(0xa1b2c3d4, -8, 6_512_345_678_901, 4_200, 1);
    assert_eq!(read_pyth_price(&data), Ok((6_512_345_678_901, -8, 4_200)));
}

#[test]
fn reads_extreme_values() {
    let data = record(0xa1b2c3d4, -128, i64::MAX, u64::MAX, 1);
    assert_eq!(read_pyth_price(&data), Ok((i64::MAX, -128, u64::MAX)));
    let data = record(0xa1b2c3d4, 127, 1, 0, 1);
    assert_eq!(read_pyth_price(&data), Ok((1, 127, 0)));
}

#[test]
fn refuses_an_exponent_that_no_price_can_carry() {
    for exponent in [128, -129, 255, -256, 0x0100_0000 - 8, i32::MAX, i32::MIN] {
        assert_eq!(
            read_pyth_price(&record(0xa1b2c3d4, exponent, 100, 7, 1)),
            Err(MarketError::InvalidOracle)
        );
    }
}

#[test]
fn accepts_a_longer_record() {
    let mut data = record(0xa1b2c3d4, 3, 77, 1, 1);
    data.extend_from_slice(&[9u8; 100]);
    assert_eq!(read_pyth_price(&data), Ok((77, 3, 1)));
}

#[test]
fn refuses_a_short_record() {
    let data = record(0xa1b2c3d4, -8, 100, 1, 1);
    assert_eq!(read_pyth_price(&data[..239]), Err(MarketError::InvalidOracle));
    assert_eq!(read_pyth_price(&[]), Err(MarketError::InvalidOracle));
}

#[test]
fn refuses_a_wrong_magic() {
    let data = record(0xa1b2c3d5, -8, 100, 1, 1);
    assert_eq!(read_pyth_price(&data), Err(MarketError::InvalidOracle));
}

#[test]
fn refuses_a_feed_that_is_not_trading() {
    assert_eq!(read_pyth_price(&record(0xa1b2c3d4, -8, 100, 1, 0)), Err(MarketError::InvalidOracle));
    assert_eq!(read_pyth_price(&record(0xa1b2c3d4, -8, 100, 1, 2)), Err(MarketError::InvalidOracle));
    assert_eq!(
        read_pyth_price(&record(0xa1b2c3d4, -8, 100, 1, 0x0100_0001)),
        Err(MarketError::InvalidOracle)
    );
}

#[test]
fn refuses_a_price_that_is_not_positive() {
    assert_eq!(read_pyth_price(&record(0xa1b2c3d4, -8, 0, 1, 1)), Err(MarketError::InvalidOracle));
    assert_eq!(read_pyth_price(&record(0xa1b2c3d4, -8, -1, 1, 1)), Err(MarketError::InvalidOracle));
    assert_eq!(
        read_pyth_price(&record(0xa1b2c3d4, -8, i64::MIN, 1, 1)),
        Err(MarketError::InvalidOracle)
    );
}
