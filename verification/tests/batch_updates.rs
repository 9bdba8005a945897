use manifest_perps::batch::{CancelOrderParams, PlaceOrderParams};
use manifest_perps::error::MarketError;
use manifest_perps::global::GlobalAccounts;
use manifest_perps::price::Price;
use manifest_perps::state::{Market, OrderType, NIL};

fn key(tag: u8) -> [u8; 32] {
    let mut bytes = [0u8; 32];
    bytes[0] = tag;
    bytes[31] = tag;
    bytes
}

fn funded_market() -> (Market, u32, u32) {
    let mut market = Market::new(key(200), key(201), 0, 0, 500);
    assert_eq!(market.expand(10), 10);
    let alice = market.claim_seat(key(1)).unwrap();
    let bob = market.claim_seat(key(2)).unwrap();
    for seat in [alice, bob] {
        market.deposit(seat, true, 1_000).unwrap();
        market.deposit(seat, false, 1_000).unwrap();
    }
    (market, alice, bob)
}

#[test]
fn find_order_knows_owner_and_number() {
    let (mut market, alice, bob) = funded_market();
    let bid = market.post_order(alice, true, 1, Price::new(5, 0), OrderType::Limit, 0, 0, 0).unwrap();
    let ask = market.post_order(bob, false, 1, Price::new(6, 0), OrderType::Limit, 0, 0, 0).unwrap();
    assert_eq!(market.find_order(alice, bid.sequence_number), bid.index);
    assert_eq!(market.find_order(bob, ask.sequence_number), ask.index);
    assert_eq!(market.find_order(bob, bid.sequence_number), NIL);
    assert_eq!(market.find_order(alice, ask.sequence_number), NIL);
    assert_eq!(market.find_order(alice, 7), NIL);
}

#[test]
fn place_then_cancel_by_number_returns_all_funds() {
    let (mut market, alice, _) = funded_market();
    let bid = market
        .post_order(alice, true, 333, Price::new(1_000_000_001, -9), OrderType::Limit, 0, 0, 0)
        .unwrap();
    assert_eq!(market.seat(alice).unwrap().quote_withdrawable_balance, 1_000 - 334);
    assert_eq!(market.cancel_order(alice, bid.sequence_number), Ok(()));
    assert_eq!(market.seat(alice).unwrap().quote_withdrawable_balance, 1_000);
    assert_eq!(market.seat(alice).unwrap().base_withdrawable_balance, 1_000);
    assert!(market.bid_indices().is_empty());
    assert_eq!(market.header().free_list_head, bid.index);
    assert_eq!(market.header().next_sequence_number, 1);
}

#[test]
fn only_the_owner_cancels_an_order() {
    let (mut market, alice, bob) = funded_market();
    let bid = market.post_order(alice, true, 1, Price::new(5, 0), OrderType::Limit, 0, 0, 0).unwrap();
    assert_eq!(market.cancel_order(bob, bid.sequence_number), Err(MarketError::NotFound));
    assert_eq!(market.cancel_order(alice, bid.sequence_number + 1), Err(MarketError::NotFound));
    assert_eq!(market.bid_indices(), vec![bid.index]);
    assert_eq!(market.cancel_order(alice, bid.sequence_number), Ok(()));
    assert_eq!(market.cancel_order(alice, bid.sequence_number), Err(MarketError::NotFound));
}

#[test]
fn batch_update_cancels_then_places() {
    let (mut market, alice, bob) = funded_market();
    let old_bid = market.post_order(alice, true, 10, Price::new(5, 0), OrderType::Limit, 0, 0, 0).unwrap();
    let old_ask = market.post_order(alice, false, 10, Price::new(9, 0), OrderType::Limit, 0, 0, 0).unwrap();
    market.post_order(bob, false, 4, Price::new(7, 0), OrderType::Limit, 0, 0, 0).unwrap();
    let cancels = vec![
        CancelOrderParams::new(old_ask.sequence_number),
        CancelOrderParams::new(old_bid.sequence_number),
    ];
    let places = vec![
        PlaceOrderParams::new(true, 6, Price::new(7, 0), OrderType::Limit, 0, 0),
        PlaceOrderParams::new(false, 3, Price::new(8, 0), OrderType::PostOnly, 0, 0),
    ];
    let mut fills = Vec::new();
    let mut globals = GlobalAccounts::none();
    let outcomes = market.batch_update(alice, &cancels, &places, &mut globals, 0, &mut fills).unwrap();
    assert_eq!(outcomes.len(), 2);
    assert_eq!(outcomes[0].base_atoms_traded, 4);
    assert_eq!(outcomes[0].quote_atoms_traded, 28);
    assert_eq!(outcomes[0].resting.unwrap().sequence_number, 3);
    assert_eq!(outcomes[1].base_atoms_traded, 0);
    assert_eq!(outcomes[1].resting.unwrap().sequence_number, 4);
    assert_eq!(fills.len(), 1);
    assert_eq!(fills[0].base_atoms, 4);
    assert_eq!(market.bid_indices().len(), 1);
    assert_eq!(market.ask_indices().len(), 1);
    let seat = market.seat(alice).unwrap();
    assert_eq!(seat.base_withdrawable_balance, 1_000 + 4 - 3);
    assert_eq!(seat.quote_withdrawable_balance, 1_000 - 28 - 14);
    assert_eq!(market.seat(bob).unwrap().quote_withdrawable_balance, 1_028);
}

#[test]
fn a_failed_batch_changes_nothing() {
    let (mut market, alice, bob) = funded_market();
    let old_bid = market.post_order(alice, true, 10, Price::new(5, 0), OrderType::Limit, 0, 0, 0).unwrap();
    let ask = market.post_order(bob, false, 4, Price::new(7, 0), OrderType::Limit, 0, 0, 0).unwrap();
    let cancels = vec![CancelOrderParams::new(old_bid.sequence_number)];
    let places = vec![
        PlaceOrderParams::new(true, 4, Price::new(7, 0), OrderType::Limit, 0, 0),
        PlaceOrderParams::new(false, 5_000, Price::new(8, 0), OrderType::Limit, 0, 0),
    ];
    let mut fills = Vec::new();
    let mut globals = GlobalAccounts::none();
    assert_eq!(
        market.batch_update(alice, &cancels, &places, &mut globals, 0, &mut fills),
        Err(MarketError::InsufficientFunds)
    );
    assert!(fills.is_empty());
    assert_eq!(market.bid_indices(), vec![old_bid.index]);
    assert_eq!(market.ask_indices(), vec![ask.index]);
    assert_eq!(market.order(ask.index).unwrap().num_base_atoms, 4);
    assert_eq!(market.seat(alice).unwrap().quote_withdrawable_balance, 950);
    assert_eq!(market.seat(bob).unwrap().quote_withdrawable_balance, 1_000);
    assert_eq!(market.header().next_sequence_number, 2);
    // a cancellation that finds nothing fails the batch as well
    let cancels = vec![CancelOrderParams::new(old_bid.sequence_number), CancelOrderParams::new(99)];
    assert_eq!(
        market.batch_update(alice, &cancels, &Vec::new(), &mut globals, 0, &mut fills),
        Err(MarketError::NotFound)
    );
    assert_eq!(market.bid_indices(), vec![old_bid.index]);
    // and an empty batch does nothing
    assert_eq!(market.batch_update(alice, &Vec::new(), &Vec::new(), &mut globals, 0, &mut fills), Ok(Vec::new()));
}

#[test]
fn a_batch_appends_its_fills_to_what_the_list_holds() {
    let (mut market, alice, bob) = funded_market();
    let ask = market.post_order(bob, false, 4, Price::new(7, 0), OrderType::Limit, 0, 0, 0).unwrap();
    let bid = market.post_order(bob, true, 4, Price::new(5, 0), OrderType::Limit, 0, 0, 0).unwrap();
    let mut globals = GlobalAccounts::none();
    let mut fills = Vec::new();
    market
        .place_order(alice, true, 1, Price::new(7, 0), OrderType::ImmediateOrCancel, 0, 0, &mut globals, 0, &mut fills)
        .unwrap();
    assert_eq!(fills.len(), 1);
    let earlier = fills[0];
    let places = vec![
        PlaceOrderParams::new(true, 2, Price::new(7, 0), OrderType::ImmediateOrCancel, 0, 0),
        PlaceOrderParams::new(false, 3, Price::new(5, 0), OrderType::ImmediateOrCancel, 0, 0),
    ];
    let outcomes = market.batch_update(alice, &Vec::new(), &places, &mut globals, 0, &mut fills).unwrap();
    assert_eq!(outcomes.len(), 2);
    assert_eq!(fills.len(), 3);
    assert_eq!(fills[0], earlier);
    assert_eq!((fills[1].maker_index, fills[1].base_atoms, fills[1].quote_atoms), (ask.index, 2, 14));
    assert_eq!((fills[2].maker_index, fills[2].base_atoms, fills[2].quote_atoms), (bid.index, 3, 15));
    // a batch that fails part of the way leaves the list as it was
    let places = vec![
        PlaceOrderParams::new(true, 1, Price::new(7, 0), OrderType::ImmediateOrCancel, 0, 0),
        PlaceOrderParams::new(false, 9, Price::new(5, 0), OrderType::FillOrKill, 0, 0),
    ];
    assert_eq!(
        market.batch_update(alice, &Vec::new(), &places, &mut globals, 0, &mut fills),
        Err(MarketError::Slippage)
    );
    assert_eq!(fills.len(), 3);
    assert_eq!(market.order(ask.index).unwrap().num_base_atoms, 1);
}

#[test]
fn a_run_of_orders_returns_all_that_it_held_back() {
    let (mut market, alice, bob) = funded_market();
    let other = market.post_order(bob, true, 7, Price::new(1, 0), OrderType::Limit, 0, 0, 0).unwrap();
    let posted = vec![
        market.post_order(alice, true, 333, Price::new(1_000_000_001, -9), OrderType::Limit, 0, 0, 0).unwrap(),
        market.post_order(alice, false, 10, Price::new(9, 0), OrderType::Limit, 0, 0, 0).unwrap(),
        market.post_order(alice, true, 7, Price::new(333_333_333, -10), OrderType::Limit, 0, 0, 0).unwrap(),
        market.post_order(alice, false, 990, Price::new(77, 1), OrderType::Reverse, 0, 50, 0).unwrap(),
        market.post_order(alice, true, 1, Price::new(1, -3), OrderType::Limit, 40, 0, 0).unwrap(),
    ];
    let seat = market.seat(alice).unwrap();
    // the bids hold back 334, 1 and 1 quote atoms, the asks 1000 base atoms
    assert_eq!(seat.quote_withdrawable_balance, 1_000 - 334 - 1 - 1);
    assert_eq!(seat.base_withdrawable_balance, 0);
    let cancels: Vec<CancelOrderParams> =
        posted.iter().rev().map(|order| CancelOrderParams::new(order.sequence_number)).collect();
    let mut globals = GlobalAccounts::none();
    let mut fills = Vec::new();
    assert_eq!(market.batch_update(alice, &cancels, &Vec::new(), &mut globals, 0, &mut fills), Ok(Vec::new()));
    let seat = market.seat(alice).unwrap();
    assert_eq!(seat.quote_withdrawable_balance, 1_000);
    assert_eq!(seat.base_withdrawable_balance, 1_000);
    assert_eq!(market.bid_indices(), vec![other.index]);
    assert!(market.ask_indices().is_empty());
    assert_eq!(market.order(other.index).unwrap().num_base_atoms, 7);
    assert_eq!(market.seat(bob).unwrap().quote_withdrawable_balance, 993);
    assert_eq!(market.free_blocks(), 10 - 3);
}
