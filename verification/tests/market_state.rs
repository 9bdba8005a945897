use manifest_perps::book::PostedOrder;
use manifest_perps::error::MarketError;
use manifest_perps::price::Price;
use manifest_perps::state::{Market, OrderType, NIL};

fn key(tag: u8) -> [u8; 32] {
    let mut bytes = [0u8; 32];
    bytes[0] = tag;
    bytes[31] = tag;
    bytes
}

fn market_with_blocks(blocks: u32) -> Market {
    let mut market = Market::new(key(200), key(201), 0, 0, 500);
    assert_eq!(market.expand(blocks), blocks);
    market
}

#[test]
fn new_market_is_empty() {
    let market = Market::new(key(1), key(2), 9, 6, 500);
    assert_eq!(market.total_blocks(), 0);
    assert_eq!(market.used_blocks(), 0);
    assert_eq!(market.free_blocks(), 0);
    assert_eq!(market.get_bids_best_index(), NIL);
    assert_eq!(market.get_asks_best_index(), NIL);
    let header = market.header();
    assert_eq!(header.base_mint, key(1));
    assert_eq!(header.quote_mint, key(2));
    assert_eq!(header.base_mint_decimals, 9);
    assert_eq!(header.quote_mint_decimals, 6);
    assert_eq!(header.maintenance_margin_bps, 500);
    assert_eq!(header.free_list_head, NIL);
    assert_eq!(header.next_sequence_number, 0);
    assert_eq!(header.total_long_base_atoms, 0);
    assert_eq!(header.total_short_base_atoms, 0);
    assert_eq!(header.oracle_price_mantissa, 0);
    assert_eq!(header.last_funding_timestamp, 0);
    assert_eq!(header.cumulative_funding, 0);
}

#[test]
fn expand_puts_each_new_block_at_the_head_of_the_free_list() {
    let mut market = Market::new(key(1), key(2), 0, 0, 0);
    assert_eq!(market.expand(3), 3);
    assert_eq!(market.total_blocks(), 3);
    assert_eq!(market.free_blocks(), 3);
    assert_eq!(market.header().free_list_head, 2);
    assert_eq!(market.expand(0), 0);
    assert_eq!(market.total_blocks(), 3);
    assert_eq!(market.expand(2), 2);
    assert_eq!(market.header().free_list_head, 4);
    assert_eq!(market.free_blocks(), 5);
}

#[test]
fn free_and_used_blocks_add_up_to_the_pool() {
    let mut market = market_with_blocks(6);
    let alice = market.claim_seat(key(1)).unwrap();
    let bob = market.claim_seat(key(2)).unwrap();
    market.deposit(alice, false, 1_000).unwrap();
    market.deposit(bob, true, 1_000).unwrap();
    let bid = market
        .post_order(alice, true, 10, Price::new(5, 0), OrderType::Limit, 0, 0, 0)
        .unwrap();
    market.post_order(bob, false, 10, Price::new(6, 0), OrderType::Limit, 0, 0, 0).unwrap();
    assert_eq!(market.used_blocks(), 4);
    assert_eq!(market.free_blocks(), 2);
    assert_eq!(market.used_blocks() + market.free_blocks(), market.total_blocks());
    market.cancel_order_by_index(bid.index).unwrap();
    assert_eq!(market.used_blocks(), 3);
    assert_eq!(market.free_blocks(), 3);
    assert_eq!(market.total_blocks(), 6);
}

#[test]
fn claim_seat_takes_the_head_of_the_free_list() {
    let mut market = market_with_blocks(3);
    assert_eq!(market.claim_seat(key(7)), Ok(2));
    assert_eq!(market.claim_seat(key(8)), Ok(1));
    assert_eq!(market.seat_indices(), vec![2, 1]);
    let seat = market.seat(2).unwrap();
    assert_eq!(seat.trader, key(7));
    assert_eq!(seat.base_withdrawable_balance, 0);
    assert_eq!(seat.quote_withdrawable_balance, 0);
    assert_eq!(seat.position_size, 0);
    assert_eq!(seat.quote_cost_basis, 0);
    assert!(market.seat(0).is_none());
    assert!(market.seat(3).is_none());
    assert!(market.seat(NIL).is_none());
}

#[test]
fn seats_are_listed_in_the_order_of_their_traders() {
    let mut market = market_with_blocks(6);
    let nine = market.claim_seat(key(9)).unwrap();
    let three = market.claim_seat(key(3)).unwrap();
    let five = market.claim_seat(key(5)).unwrap();
    let mut late = key(5);
    late[31] = 6;
    let five_and_a_bit = market.claim_seat(late).unwrap();
    let zero = market.claim_seat([0; 32]).unwrap();
    let most = market.claim_seat([255; 32]).unwrap();
    assert_eq!([nine, three, five, five_and_a_bit, zero, most], [5, 4, 3, 2, 1, 0]);
    assert_eq!(market.seat_indices(), vec![zero, three, five, five_and_a_bit, nine, most]);
    for (tag, index) in [(9, nine), (3, three), (5, five)] {
        assert_eq!(market.get_trader_index(&key(tag)), index);
    }
    assert_eq!(market.get_trader_index(&late), five_and_a_bit);
    assert_eq!(market.get_trader_index(&[0; 32]), zero);
    assert_eq!(market.get_trader_index(&[255; 32]), most);
    assert_eq!(market.get_trader_index(&key(4)), NIL);
    assert_eq!(market.get_trader_index(&[1; 32]), NIL);
}

#[test]
fn claim_seat_refuses_a_second_seat_for_one_trader() {
    let mut market = market_with_blocks(3);
    market.claim_seat(key(7)).unwrap();
    assert_eq!(market.claim_seat(key(7)), Err(MarketError::InvalidArgument));
    assert_eq!(market.used_blocks(), 1);
}

#[test]
fn claim_seat_needs_a_free_block() {
    let mut market = market_with_blocks(1);
    market.claim_seat(key(7)).unwrap();
    assert_eq!(market.claim_seat(key(8)), Err(MarketError::Capacity));
    assert_eq!(market.expand(1), 1);
    assert_eq!(market.claim_seat(key(8)), Ok(1));
}

#[test]
fn get_trader_index_finds_seats_by_identity() {
    let mut market = market_with_blocks(3);
    let first = market.claim_seat(key(7)).unwrap();
    let second = market.claim_seat(key(8)).unwrap();
    assert_eq!(market.get_trader_index(&key(7)), first);
    assert_eq!(market.get_trader_index(&key(8)), second);
    assert_eq!(market.get_trader_index(&key(9)), NIL);
    let mut near = key(7);
    near[15] = 1;
    assert_eq!(market.get_trader_index(&near), NIL);
}

#[test]
fn deposit_then_withdraw_restores_the_balance() {
    let mut market = market_with_blocks(2);
    let seat = market.claim_seat(key(1)).unwrap();
    market.deposit(seat, true, 40).unwrap();
    market.deposit(seat, false, 70).unwrap();
    let before = market.seat(seat).unwrap();
    market.deposit(seat, true, 123).unwrap();
    assert_eq!(market.seat(seat).unwrap().base_withdrawable_balance, 163);
    market.withdraw(seat, true, 123).unwrap();
    market.deposit(seat, false, 9).unwrap();
    assert_eq!(market.seat(seat).unwrap().quote_withdrawable_balance, 79);
    market.withdraw(seat, false, 9).unwrap();
    let after = market.seat(seat).unwrap();
    assert_eq!(after.base_withdrawable_balance, before.base_withdrawable_balance);
    assert_eq!(after.quote_withdrawable_balance, before.quote_withdrawable_balance);
}

#[test]
fn deposit_and_withdraw_report_their_failures() {
    let mut market = market_with_blocks(2);
    let seat = market.claim_seat(key(1)).unwrap();
    assert_eq!(market.deposit(0, true, 1), Err(MarketError::NotFound));
    assert_eq!(market.deposit(NIL, true, 1), Err(MarketError::NotFound));
    assert_eq!(market.withdraw(0, false, 1), Err(MarketError::NotFound));
    market.deposit(seat, true, u64::MAX).unwrap();
    assert_eq!(market.deposit(seat, true, 1), Err(MarketError::Overflow));
    assert_eq!(market.withdraw(seat, false, 1), Err(MarketError::InsufficientFunds));
    market.deposit(seat, false, 5).unwrap();
    assert_eq!(market.withdraw(seat, false, 6), Err(MarketError::InsufficientFunds));
    assert_eq!(market.withdraw(seat, false, 5), Ok(()));
    assert_eq!(market.seat(seat).unwrap().base_withdrawable_balance, u64::MAX);
}

#[test]
fn funds_held_by_an_order_cannot_be_withdrawn() {
    let mut market = market_with_blocks(3);
    let seat = market.claim_seat(key(1)).unwrap();
    market.deposit(seat, false, 100).unwrap();
    market.post_order(seat, true, 10, Price::new(7, 0), OrderType::Limit, 0, 0, 0).unwrap();
    assert_eq!(market.seat(seat).unwrap().quote_withdrawable_balance, 30);
    assert_eq!(market.withdraw(seat, false, 31), Err(MarketError::InsufficientFunds));
    assert_eq!(market.withdraw(seat, false, 30), Ok(()));
}

#[test]
fn set_position_keeps_the_totals_in_step() {
    let mut market = market_with_blocks(3);
    let long = market.claim_seat(key(1)).unwrap();
    let short = market.claim_seat(key(2)).unwrap();
    market.set_position(long, 100, 1_000).unwrap();
    market.set_position(short, -40, 300).unwrap();
    assert_eq!(market.header().total_long_base_atoms, 100);
    assert_eq!(market.header().total_short_base_atoms, 40);
    market.set_position(long, -25, 10).unwrap();
    assert_eq!(market.header().total_long_base_atoms, 0);
    assert_eq!(market.header().total_short_base_atoms, 65);
    let seats = market.seat_indices();
    let mut net: i128 = 0;
    for index in seats {
        net += market.seat(index).unwrap().position_size as i128;
    }
    let header = market.header();
    assert_eq!(net, header.total_long_base_atoms as i128 - header.total_short_base_atoms as i128);
    assert_eq!(market.seat(long).unwrap().quote_cost_basis, 10);
    assert_eq!(market.set_position(0, 1, 1), Err(MarketError::NotFound));
}

#[test]
fn set_position_reports_totals_that_do_not_fit() {
    let mut market = market_with_blocks(3);
    let first = market.claim_seat(key(1)).unwrap();
    let second = market.claim_seat(key(2)).unwrap();
    let third = market.claim_seat(key(3)).unwrap();
    market.set_position(first, i64::MAX, 0).unwrap();
    market.set_position(second, i64::MAX, 0).unwrap();
    assert_eq!(market.set_position(third, 2, 0), Err(MarketError::Overflow));
    assert_eq!(market.set_position(third, 1, 0), Ok(()));
    assert_eq!(market.header().total_long_base_atoms, u64::MAX);
    market.set_position(first, i64::MIN, 0).unwrap();
    assert_eq!(market.header().total_short_base_atoms, 1 << 63);
}

#[test]
fn orders_rest_best_first_and_first_come_first_within_a_price() {
    let mut market = market_with_blocks(10);
    let seat = market.claim_seat(key(1)).unwrap();
    market.deposit(seat, false, 10_000).unwrap();
    market.deposit(seat, true, 10_000).unwrap();
    let post = |market: &mut Market, is_bid: bool, price: Price| -> PostedOrder {
        market.post_order(seat, is_bid, 1, price, OrderType::Limit, 0, 0, 0).unwrap()
    };
    let b0 = post(&mut market, true, Price::new(10, 0));
    let b1 = post(&mut market, true, Price::new(12, 0));
    let b2 = post(&mut market, true, Price::new(1, 1));
    let b3 = post(&mut market, true, Price::new(11, 0));
    assert_eq!(market.bid_indices(), vec![b1.index, b3.index, b0.index, b2.index]);
    assert_eq!(market.get_bids_best_index(), b1.index);
    let a0 = post(&mut market, false, Price::new(20, 0));
    let a1 = post(&mut market, false, Price::new(15, 0));
    let a2 = post(&mut market, false, Price::new(2, 1));
    let a3 = post(&mut market, false, Price::new(150, -1));
    assert_eq!(market.ask_indices(), vec![a1.index, a3.index, a0.index, a2.index]);
    assert_eq!(market.get_asks_best_index(), a1.index);
    assert_eq!(
        [b0, b1, b2, b3, a0, a1, a2, a3].map(|posted| posted.sequence_number),
        [0, 1, 2, 3, 4, 5, 6, 7]
    );
    assert_eq!(market.header().next_sequence_number, 8);
}

#[test]
fn sequence_numbers_only_grow() {
    let mut market = market_with_blocks(4);
    let seat = market.claim_seat(key(1)).unwrap();
    market.deposit(seat, true, 100).unwrap();
    let first = market.post_order(seat, false, 1, Price::new(9, 0), OrderType::Limit, 0, 0, 0).unwrap();
    market.cancel_order_by_index(first.index).unwrap();
    assert_eq!(market.header().next_sequence_number, 1);
    let second = market.post_order(seat, false, 1, Price::new(9, 0), OrderType::Limit, 0, 0, 0).unwrap();
    assert_eq!(second.index, first.index);
    assert!(second.sequence_number > first.sequence_number);
    market.deposit(seat, true, 1).unwrap();
    market.withdraw(seat, true, 1).unwrap();
    market.set_position(seat, 5, 5).unwrap();
    assert_eq!(market.header().next_sequence_number, 2);
}

#[test]
fn post_order_holds_back_what_the_order_needs() {
    let mut market = market_with_blocks(4);
    let seat = market.claim_seat(key(1)).unwrap();
    market.deposit(seat, false, 100).unwrap();
    market.deposit(seat, true, 50).unwrap();
    // 4 base at 5.00000001 cost 20.00000004, held back as 21
    let bid = market
        .post_order(seat, true, 4, Price::new(500_000_001, -8), OrderType::Limit, 0, 0, 0)
        .unwrap();
    assert_eq!(market.seat(seat).unwrap().quote_withdrawable_balance, 79);
    assert_eq!(market.seat(seat).unwrap().base_withdrawable_balance, 50);
    let ask = market.post_order(seat, false, 30, Price::new(6, 0), OrderType::Limit, 9, 0, 9).unwrap();
    assert_eq!(market.seat(seat).unwrap().base_withdrawable_balance, 20);
    let resting = market.order(bid.index).unwrap();
    assert_eq!(resting.trader_index, seat);
    assert_eq!(resting.num_base_atoms, 4);
    assert_eq!(resting.price, Price::new(500_000_001, -8));
    assert!(resting.is_bid);
    assert_eq!(resting.order_type, OrderType::Limit);
    assert_eq!(resting.sequence_number, 0);
    assert_eq!(market.order(ask.index).unwrap().last_valid_slot, 9);
    assert!(market.order(seat).is_none());
}

#[test]
fn place_then_cancel_returns_all_funds() {
    let mut market = market_with_blocks(4);
    let seat = market.claim_seat(key(1)).unwrap();
    market.deposit(seat, false, 1_000).unwrap();
    market.deposit(seat, true, 1_000).unwrap();
    let bid = market
        .post_order(seat, true, 333, Price::new(1_000_000_001, -9), OrderType::Limit, 0, 0, 0)
        .unwrap();
    assert_eq!(market.seat(seat).unwrap().quote_withdrawable_balance, 1_000 - 334);
    market.cancel_order_by_index(bid.index).unwrap();
    let ask = market.post_order(seat, false, 999, Price::new(7, 3), OrderType::Reverse, 0, 10, 0).unwrap();
    assert_eq!(market.seat(seat).unwrap().base_withdrawable_balance, 1);
    market.cancel_order_by_index(ask.index).unwrap();
    let after = market.seat(seat).unwrap();
    assert_eq!(after.quote_withdrawable_balance, 1_000);
    assert_eq!(after.base_withdrawable_balance, 1_000);
    assert!(market.bid_indices().is_empty());
    assert!(market.ask_indices().is_empty());
    assert_eq!(market.free_blocks(), 3);
}

#[test]
fn global_orders_hold_nothing_back() {
    let mut market = market_with_blocks(4);
    let seat = market.claim_seat(key(1)).unwrap();
    let bid = market.post_order(seat, true, 50, Price::new(3, 0), OrderType::Global, 0, 0, 0).unwrap();
    let ask = market.post_order(seat, false, 50, Price::new(4, 0), OrderType::Global, 0, 0, 0).unwrap();
    assert_eq!(market.seat(seat).unwrap().quote_withdrawable_balance, 0);
    market.cancel_order_by_index(bid.index).unwrap();
    market.cancel_order_by_index(ask.index).unwrap();
    assert_eq!(market.seat(seat).unwrap().quote_withdrawable_balance, 0);
    assert_eq!(market.seat(seat).unwrap().base_withdrawable_balance, 0);
}

#[test]
fn post_order_reports_its_failures() {
    let mut market = market_with_blocks(3);
    let seat = market.claim_seat(key(1)).unwrap();
    market.deposit(seat, false, 100).unwrap();
    market.deposit(seat, true, 100).unwrap();
    let limit = OrderType::Limit;
    let five = Price::new(5, 0);
    assert_eq!(market.post_order(0, true, 1, five, limit, 0, 0, 0), Err(MarketError::NotFound));
    assert_eq!(market.post_order(seat, true, 0, five, limit, 0, 0, 0), Err(MarketError::InvalidArgument));
    assert_eq!(
        market.post_order(seat, true, 1, five, OrderType::ImmediateOrCancel, 0, 0, 0),
        Err(MarketError::InvalidArgument)
    );
    assert_eq!(market.post_order(seat, true, 1, five, limit, 4, 0, 5), Err(MarketError::Expired));
    assert_eq!(
        market.post_order(seat, true, u64::MAX, Price::new(2, 0), limit, 0, 0, 0),
        Err(MarketError::Overflow)
    );
    assert_eq!(market.post_order(seat, true, 21, five, limit, 0, 0, 0), Err(MarketError::InsufficientFunds));
    assert_eq!(market.post_order(seat, false, 101, five, limit, 0, 0, 0), Err(MarketError::InsufficientFunds));
    let ask = market.post_order(seat, false, 1, five, limit, 5, 0, 5).unwrap();
    assert_eq!(market.post_order(seat, true, 1, five, limit, 0, 0, 0), Err(MarketError::InvalidArgument));
    assert_eq!(
        market.post_order(seat, true, 1, Price::new(6, 0), limit, 0, 0, 0),
        Err(MarketError::InvalidArgument)
    );
    market.post_order(seat, true, 1, Price::new(4, 0), limit, 0, 0, 0).unwrap();
    assert_eq!(
        market.post_order(seat, false, 1, Price::new(4, 0), limit, 0, 0, 0),
        Err(MarketError::InvalidArgument)
    );
    assert_eq!(
        market.post_order(seat, false, 1, Price::new(9, 0), limit, 0, 0, 0),
        Err(MarketError::Capacity)
    );
    let unchanged = market.seat(seat).unwrap();
    assert_eq!(unchanged.quote_withdrawable_balance, 96);
    assert_eq!(unchanged.base_withdrawable_balance, 99);
    assert_eq!(market.ask_indices(), vec![ask.index]);
    assert_eq!(market.header().next_sequence_number, 2);
}

#[test]
fn cancel_order_by_index_reports_its_failures() {
    let mut market = market_with_blocks(3);
    let seat = market.claim_seat(key(1)).unwrap();
    assert_eq!(market.cancel_order_by_index(seat), Err(MarketError::NotFound));
    assert_eq!(market.cancel_order_by_index(0), Err(MarketError::NotFound));
    assert_eq!(market.cancel_order_by_index(NIL), Err(MarketError::NotFound));
    market.deposit(seat, true, 10).unwrap();
    let ask = market.post_order(seat, false, 10, Price::new(5, 0), OrderType::Limit, 0, 0, 0).unwrap();
    market.deposit(seat, true, u64::MAX).unwrap();
    assert_eq!(market.cancel_order_by_index(ask.index), Err(MarketError::Overflow));
    assert_eq!(market.ask_indices(), vec![ask.index]);
    market.withdraw(seat, true, 10).unwrap();
    assert_eq!(market.cancel_order_by_index(ask.index), Ok(()));
    assert_eq!(market.seat(seat).unwrap().base_withdrawable_balance, u64::MAX);
}

#[test]
fn mark_price_prefers_the_oracle() {
    let mut market = Market::new(key(1), key(2), 9, 6, 500);
    assert_eq!(market.expand(4), 4);
    assert_eq!(market.compute_mark_price(), Err(MarketError::InvalidOracle));
    let seat = market.claim_seat(key(1)).unwrap();
    market.deposit(seat, false, 1_000).unwrap();
    market.deposit(seat, true, 1_000).unwrap();
    market.post_order(seat, true, 1, Price::new(4, 0), OrderType::Limit, 0, 0, 0).unwrap();
    assert_eq!(market.compute_mark_price(), Ok(Price::new(4, 0)));
    market.post_order(seat, false, 1, Price::new(6, 0), OrderType::Limit, 0, 0, 0).unwrap();
    assert_eq!(market.compute_mark_price(), Ok(Price::new(4, 0)));
    // 65123.45678901 per unit, brought to atoms by 6 - 9 decimals
    market.set_oracle_price(6_512_345_678_901, -8);
    assert_eq!(market.compute_mark_price(), Ok(Price::new(651_234_567, -7)));
    market.set_oracle_price(4_294_967_295, 0);
    assert_eq!(market.compute_mark_price(), Ok(Price::new(4_294_967_295, -3)));
    market.set_oracle_price(4_294_967_296, 0);
    assert_eq!(market.compute_mark_price(), Ok(Price::new(429_496_729, -2)));
    market.set_oracle_price(0, -8);
    assert_eq!(market.compute_mark_price(), Ok(Price::new(4, 0)));
}

#[test]
fn mark_price_falls_back_to_the_book_when_the_oracle_does_not_fit() {
    let mut market = Market::new(key(1), key(2), 0, 0, 500);
    assert_eq!(market.expand(4), 4);
    let seat = market.claim_seat(key(1)).unwrap();
    market.deposit(seat, true, 1_000).unwrap();
    market.post_order(seat, false, 1, Price::new(6, 0), OrderType::Limit, 0, 0, 0).unwrap();
    market.set_oracle_price(5, 127);
    assert_eq!(market.compute_mark_price(), Ok(Price::new(5, 127)));
    market.set_oracle_price(5, 128);
    assert_eq!(market.compute_mark_price(), Ok(Price::new(6, 0)));
    market.set_oracle_price(5, -128);
    assert_eq!(market.compute_mark_price(), Ok(Price::new(5, -128)));
    market.set_oracle_price(5, -129);
    assert_eq!(market.compute_mark_price(), Ok(Price::new(6, 0)));
    // ten digits too many for the mantissa, and only nine steps of room
    market.set_oracle_price(u64::MAX, 118);
    assert_eq!(market.compute_mark_price(), Ok(Price::new(6, 0)));
    market.set_oracle_price(u64::MAX, 117);
    assert_eq!(market.compute_mark_price(), Ok(Price::new(1_844_674_407, 127)));
}
