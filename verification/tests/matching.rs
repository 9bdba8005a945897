use manifest_perps::error::MarketError;
use manifest_perps::global::{GlobalAccount, GlobalAccounts, GlobalDeposit};
use manifest_perps::matching::{mirror_price, Fill};
use manifest_perps::orders::{PlaceOutcome, SwapOutcome};
use manifest_perps::price::Price;
use manifest_perps::state::{Market, OrderType, NIL};

fn key(tag: u8) -> [u8; 32] {
    let mut bytes = [0u8; 32];
    bytes[0] = tag;
    bytes[31] = tag;
    bytes
}

/// A market with `blocks` blocks and a maker seat that holds `base` and
/// `quote` atoms.
fn market_with_maker(blocks: u32, base: u64, quote: u64) -> (Market, u32) {
    let mut market = Market::new(key(200), key(201), 0, 0, 500);
    assert_eq!(market.expand(blocks), blocks);
    let maker = market.claim_seat(key(1)).unwrap();
    market.deposit(maker, true, base).unwrap();
    market.deposit(maker, false, quote).unwrap();
    (market, maker)
}

fn post(market: &mut Market, seat: u32, is_bid: bool, base: u64, price: Price, kind: OrderType) -> u32 {
    market.post_order(seat, is_bid, base, price, kind, 0, 0, 0).unwrap().index
}

fn no_globals() -> GlobalAccounts {
    GlobalAccounts::none()
}

fn total_held(market: &Market, is_base: bool) -> u128 {
    let mut total: u128 = 0;
    for seat in market.seat_indices() {
        let seat = market.seat(seat).unwrap();
        total += if is_base { seat.base_withdrawable_balance } else { seat.quote_withdrawable_balance } as u128;
    }
    for index in market.bid_indices().into_iter().chain(market.ask_indices()) {
        let order = market.order(index).unwrap();
        if order.order_type == OrderType::Global {
            continue;
        }
        if is_base && !order.is_bid {
            total += order.num_base_atoms as u128;
        }
        if !is_base && order.is_bid {
            total += order.price.checked_quote_for_base(order.num_base_atoms, true).unwrap() as u128;
        }
    }
    total
}

#[test]
fn exact_in_sell_across_two_levels() {
    let (mut market, maker) = market_with_maker(8, 0, 40);
    // use up sequence number 0, so that the two bids are number 1 and 2
    let first = market.post_order(maker, true, 1, Price::new(1, 0), OrderType::Limit, 0, 0, 0).unwrap();
    market.cancel_order_by_index(first.index).unwrap();
    let high = market.post_order(maker, true, 1, Price::new(10, 0), OrderType::Limit, 0, 0, 0).unwrap();
    let low = market
        .post_order(maker, true, 4, Price::new(500_000_001, -8), OrderType::Limit, 0, 0, 0)
        .unwrap();
    assert_eq!((high.sequence_number, low.sequence_number), (1, 2));
    assert_eq!(market.seat(maker).unwrap().quote_withdrawable_balance, 9);
    let mut fills = Vec::new();
    let outcome = market.swap(3, 0, true, true, &mut no_globals(), 0, &mut fills).unwrap();
    assert_eq!(outcome, SwapOutcome { atoms_in: 3, atoms_out: 21, out_of_blocks: false });
    assert_eq!(
        fills,
        vec![
            Fill { maker_index: high.index, maker_sequence_number: 1, base_atoms: 1, quote_atoms: 10 },
            Fill { maker_index: low.index, maker_sequence_number: 2, base_atoms: 2, quote_atoms: 11 },
        ]
    );
    assert_eq!(market.bid_indices(), vec![low.index]);
    let resting = market.order(low.index).unwrap();
    assert_eq!(resting.num_base_atoms, 2);
    assert_eq!(resting.price, Price::new(500_000_001, -8));
    assert!(market.order(high.index).is_none());
    let seat = market.seat(maker).unwrap();
    assert_eq!(seat.base_withdrawable_balance, 3);
    assert_eq!(seat.quote_withdrawable_balance, 8);
    assert_eq!(total_held(&market, false), 40 - 21);
}

#[test]
fn a_bid_without_spare_funds_pays_what_its_order_releases() {
    let (mut market, maker) = market_with_maker(8, 0, 21);
    let bid = post(&mut market, maker, true, 4, Price::new(500_000_001, -8), OrderType::Limit);
    assert_eq!(market.seat(maker).unwrap().quote_withdrawable_balance, 0);
    let mut fills = Vec::new();
    let outcome = market.swap(2, 0, true, true, &mut no_globals(), 0, &mut fills).unwrap();
    assert_eq!(outcome.atoms_out, 10);
    assert_eq!(market.order(bid).unwrap().num_base_atoms, 2);
    assert_eq!(market.seat(maker).unwrap().quote_withdrawable_balance, 0);
    assert_eq!(total_held(&market, false), 11);
    // the rest of the order releases all it holds
    let mut fills = Vec::new();
    let outcome = market.swap(2, 11, true, true, &mut no_globals(), 0, &mut fills).unwrap();
    assert_eq!(outcome.atoms_out, 11);
    assert_eq!(total_held(&market, false), 0);
}

#[test]
fn exact_out_buy_that_exhausts_the_book_fails() {
    let (mut market, maker) = market_with_maker(8, 5, 0);
    let ask = post(&mut market, maker, false, 5, Price::new(10, 0), OrderType::Limit);
    let mut fills = Vec::new();
    let mut globals = no_globals();
    assert_eq!(
        market.swap(1_000, 10, false, false, &mut globals, 0, &mut fills),
        Err(MarketError::Slippage)
    );
    assert!(fills.is_empty());
    assert_eq!(market.ask_indices(), vec![ask]);
    assert_eq!(market.order(ask).unwrap().num_base_atoms, 5);
    let seat = market.seat(maker).unwrap();
    assert_eq!((seat.base_withdrawable_balance, seat.quote_withdrawable_balance), (0, 0));
    // half of it can be had
    let outcome = market.swap(1_000, 5, false, false, &mut globals, 0, &mut fills).unwrap();
    assert_eq!(outcome, SwapOutcome { atoms_in: 50, atoms_out: 5, out_of_blocks: false });
    assert_eq!(market.seat(maker).unwrap().quote_withdrawable_balance, 50);
}

#[test]
fn exact_out_buy_fails_when_it_costs_too_much() {
    let (mut market, maker) = market_with_maker(8, 5, 0);
    post(&mut market, maker, false, 5, Price::new(10, 0), OrderType::Limit);
    let mut fills = Vec::new();
    assert_eq!(
        market.swap(49, 5, false, false, &mut no_globals(), 0, &mut fills),
        Err(MarketError::Slippage)
    );
    assert_eq!(market.seat(maker).unwrap().quote_withdrawable_balance, 0);
    assert_eq!(market.free_blocks(), 6);
}

#[test]
fn expired_maker_is_skipped_and_refunded() {
    let (mut market, maker) = market_with_maker(8, 0, 19);
    let expiring = market.post_order(maker, true, 1, Price::new(10, 0), OrderType::Limit, 5, 0, 1).unwrap();
    let open = market.post_order(maker, true, 1, Price::new(9, 0), OrderType::Limit, 0, 0, 1).unwrap();
    assert_eq!(market.seat(maker).unwrap().quote_withdrawable_balance, 0);
    let mut fills = Vec::new();
    let outcome = market.swap(1, 0, true, true, &mut no_globals(), 10, &mut fills).unwrap();
    assert_eq!(outcome, SwapOutcome { atoms_in: 1, atoms_out: 9, out_of_blocks: false });
    assert_eq!(
        fills,
        vec![Fill { maker_index: open.index, maker_sequence_number: 1, base_atoms: 1, quote_atoms: 9 }]
    );
    assert!(market.order(expiring.index).is_none());
    assert!(market.bid_indices().is_empty());
    let seat = market.seat(maker).unwrap();
    assert_eq!(seat.quote_withdrawable_balance, 10);
    assert_eq!(seat.base_withdrawable_balance, 1);
}

#[test]
fn a_maker_in_its_last_valid_slot_still_trades() {
    let (mut market, maker) = market_with_maker(8, 0, 10);
    let bid = market.post_order(maker, true, 1, Price::new(10, 0), OrderType::Limit, 5, 0, 1).unwrap();
    let mut fills = Vec::new();
    let outcome = market.swap(1, 0, true, true, &mut no_globals(), 5, &mut fills).unwrap();
    assert_eq!(outcome.atoms_out, 10);
    assert_eq!(fills[0].maker_index, bid.index);
}

#[test]
fn reverse_orders_flip_back_and_forth() {
    let (mut market, maker) = market_with_maker(8, 5, 50);
    let bid = market.post_order(maker, true, 5, Price::new(10, 0), OrderType::Reverse, 0, 10_000, 0).unwrap();
    let ask = market.post_order(maker, false, 5, Price::new(12, 0), OrderType::Reverse, 0, 10_000, 0).unwrap();
    let mut fills = Vec::new();
    let mut globals = no_globals();
    let sold = market.swap(5, 0, true, true, &mut globals, 0, &mut fills).unwrap();
    assert_eq!(sold, SwapOutcome { atoms_in: 5, atoms_out: 50, out_of_blocks: false });
    assert!(market.bid_indices().is_empty());
    let asks = market.ask_indices();
    assert_eq!(asks.len(), 2);
    assert_eq!(asks[1], ask.index);
    let flipped = market.order(asks[0]).unwrap();
    assert_eq!(asks[0], bid.index);
    assert_eq!(flipped.num_base_atoms, 5);
    assert!(!flipped.is_bid);
    assert_eq!(flipped.price, Price::new(1_100_000, -5));
    assert!(flipped.price.value_le(&Price::new(11, 0)) && Price::new(11, 0).value_le(&flipped.price));
    assert_eq!(flipped.order_type, OrderType::Reverse);
    assert_eq!(flipped.reverse_spread, 10_000);
    assert_eq!(flipped.sequence_number, 2);
    assert_eq!(flipped.trader_index, maker);
    let mut fills = Vec::new();
    let bought = market.swap(1_000, 5, false, false, &mut globals, 0, &mut fills).unwrap();
    assert_eq!(bought, SwapOutcome { atoms_in: 55, atoms_out: 5, out_of_blocks: false });
    assert_eq!(fills, vec![Fill { maker_index: asks[0], maker_sequence_number: 2, base_atoms: 5, quote_atoms: 55 }]);
    assert_eq!(market.ask_indices(), vec![ask.index]);
    let bids = market.bid_indices();
    assert_eq!(bids.len(), 1);
    let back = market.order(bids[0]).unwrap();
    assert!(back.is_bid);
    assert_eq!(back.num_base_atoms, 5);
    assert_eq!(back.price, Price::new(990_000_000, -8));
    assert_eq!(back.sequence_number, 3);
    // 55 received, 50 held back for 5 base at 9.9
    let seat = market.seat(maker).unwrap();
    assert_eq!(seat.quote_withdrawable_balance, 5);
    assert_eq!(seat.base_withdrawable_balance, 0);
    assert_eq!(total_held(&market, true), 5);
    assert_eq!(total_held(&market, false), 55);
}

#[test]
fn mirrored_prices_keep_what_fits_a_mantissa() {
    assert_eq!(mirror_price(Price::new(10, 0), 10_000, true), Some(Price::new(1_100_000, -5)));
    assert_eq!(mirror_price(Price::new(1_100_000, -5), 10_000, false), Some(Price::new(990_000_000, -8)));
    assert_eq!(mirror_price(Price::new(7, 3), 0, true), Some(Price::new(700_000, -2)));
    assert_eq!(mirror_price(Price::new(7, 3), 0, false), Some(Price::new(700_000, -2)));
    assert_eq!(mirror_price(Price::new(7, 3), 100_000, false), Some(Price::new(0, -2)));
    assert_eq!(mirror_price(Price::new(7, 3), 100_001, false), Some(Price::new(0, -2)));
    assert_eq!(mirror_price(Price::new(u32::MAX, 0), 1, true), Some(Price::new(429_501_024, 1)));
    assert_eq!(mirror_price(Price::new(u32::MAX, 127), u32::MAX, true), None);
    assert_eq!(mirror_price(Price::new(u32::MAX, 122), u32::MAX, true), Some(Price::new(1_844_717_356, 127)));
    assert_eq!(mirror_price(Price::new(5, -124), 1, true), None);
    assert_eq!(mirror_price(Price::new(5, -123), 1, true), Some(Price::new(500_005, -128)));
}

#[test]
fn exact_match_consumes_maker_and_taker() {
    let (mut market, maker) = market_with_maker(8, 7, 0);
    let taker = market.claim_seat(key(2)).unwrap();
    market.deposit(taker, false, 70).unwrap();
    let ask = post(&mut market, maker, false, 7, Price::new(10, 0), OrderType::Limit);
    let free = market.free_blocks();
    let mut fills = Vec::new();
    let outcome = market
        .place_order(taker, true, 7, Price::new(10, 0), OrderType::Limit, 0, 0, &mut no_globals(), 0, &mut fills)
        .unwrap();
    assert_eq!(
        outcome,
        PlaceOutcome { base_atoms_traded: 7, quote_atoms_traded: 70, resting: None, out_of_blocks: false }
    );
    assert_eq!(fills, vec![Fill { maker_index: ask, maker_sequence_number: 0, base_atoms: 7, quote_atoms: 70 }]);
    assert!(market.order(ask).is_none());
    assert!(market.ask_indices().is_empty());
    assert!(market.bid_indices().is_empty());
    assert_eq!(market.free_blocks(), free + 1);
    assert_eq!(market.header().free_list_head, ask);
    let taker_seat = market.seat(taker).unwrap();
    assert_eq!((taker_seat.base_withdrawable_balance, taker_seat.quote_withdrawable_balance), (7, 0));
    let maker_seat = market.seat(maker).unwrap();
    assert_eq!((maker_seat.base_withdrawable_balance, maker_seat.quote_withdrawable_balance), (0, 70));
    assert_eq!(market.header().next_sequence_number, 1);
}

#[test]
fn reverse_flip_without_a_free_block_ends_the_walk() {
    let (mut market, maker) = market_with_maker(4, 7, 0);
    let taker = market.claim_seat(key(2)).unwrap();
    market.deposit(taker, false, 1_000).unwrap();
    let near = market.post_order(maker, false, 2, Price::new(10, 0), OrderType::Reverse, 0, 10_000, 0).unwrap();
    let far = market.post_order(maker, false, 5, Price::new(11, 0), OrderType::Reverse, 0, 10_000, 0).unwrap();
    assert_eq!(market.free_blocks(), 0);
    let mut fills = Vec::new();
    let mut globals = no_globals();
    let outcome = market
        .place_order(
            taker,
            true,
            4,
            Price::new(20, 0),
            OrderType::ImmediateOrCancel,
            0,
            0,
            &mut globals,
            0,
            &mut fills,
        )
        .unwrap();
    assert_eq!(
        outcome,
        PlaceOutcome { base_atoms_traded: 2, quote_atoms_traded: 20, resting: None, out_of_blocks: true }
    );
    assert_eq!(fills, vec![Fill { maker_index: near.index, maker_sequence_number: 0, base_atoms: 2, quote_atoms: 20 }]);
    // the near ask was filled in full and came back as a bid at 9 in its own block
    assert_eq!(market.bid_indices(), vec![near.index]);
    let flipped = market.order(near.index).unwrap();
    assert!(flipped.is_bid);
    assert_eq!(flipped.price, Price::new(900_000, -5));
    assert_eq!(flipped.num_base_atoms, 2);
    assert_eq!(market.order(far.index).unwrap().num_base_atoms, 5);
    assert_eq!(market.free_blocks(), 0);
    assert_eq!(market.seat(taker).unwrap().base_withdrawable_balance, 2);
    assert_eq!(market.seat(taker).unwrap().quote_withdrawable_balance, 980);
    // a limit order does not rest what is left either
    let mut fills = Vec::new();
    let outcome = market
        .place_order(taker, true, 4, Price::new(20, 0), OrderType::Limit, 0, 0, &mut globals, 0, &mut fills)
        .unwrap();
    assert_eq!(
        outcome,
        PlaceOutcome { base_atoms_traded: 0, quote_atoms_traded: 0, resting: None, out_of_blocks: true }
    );
    // with one more block the walk goes on
    assert_eq!(market.expand(1), 1);
    let mut fills = Vec::new();
    let outcome = market
        .place_order(
            taker,
            true,
            4,
            Price::new(20, 0),
            OrderType::ImmediateOrCancel,
            0,
            0,
            &mut globals,
            0,
            &mut fills,
        )
        .unwrap();
    assert_eq!(outcome.base_atoms_traded, 4);
    assert_eq!(outcome.quote_atoms_traded, 44);
    assert!(!outcome.out_of_blocks);
    assert_eq!(market.order(far.index).unwrap().num_base_atoms, 1);
    assert_eq!(market.bid_indices().len(), 2);
}

#[test]
fn limit_order_rests_what_is_left() {
    let (mut market, maker) = market_with_maker(8, 10, 0);
    let taker = market.claim_seat(key(2)).unwrap();
    market.deposit(taker, false, 1_000).unwrap();
    let cheap = post(&mut market, maker, false, 3, Price::new(10, 0), OrderType::Limit);
    let dear = post(&mut market, maker, false, 3, Price::new(15, 0), OrderType::Limit);
    let mut fills = Vec::new();
    let outcome = market
        .place_order(taker, true, 5, Price::new(12, 0), OrderType::Limit, 0, 0, &mut no_globals(), 0, &mut fills)
        .unwrap();
    assert_eq!(outcome.base_atoms_traded, 3);
    assert_eq!(outcome.quote_atoms_traded, 30);
    let resting = outcome.resting.unwrap();
    assert_eq!(resting.index, cheap);
    assert_eq!(resting.sequence_number, 2);
    assert_eq!(market.bid_indices(), vec![resting.index]);
    assert_eq!(market.ask_indices(), vec![dear]);
    let order = market.order(resting.index).unwrap();
    assert_eq!(order.num_base_atoms, 2);
    assert_eq!(order.price, Price::new(12, 0));
    assert_eq!(order.trader_index, taker);
    let seat = market.seat(taker).unwrap();
    assert_eq!(seat.base_withdrawable_balance, 3);
    assert_eq!(seat.quote_withdrawable_balance, 1_000 - 30 - 24);
    assert_eq!(total_held(&market, false), 1_000);
    assert_eq!(total_held(&market, true), 10);
}

#[test]
fn immediate_or_cancel_drops_what_is_left() {
    let (mut market, maker) = market_with_maker(8, 10, 0);
    let taker = market.claim_seat(key(2)).unwrap();
    market.deposit(taker, false, 1_000).unwrap();
    post(&mut market, maker, false, 3, Price::new(10, 0), OrderType::Limit);
    let mut fills = Vec::new();
    let outcome = market
        .place_order(
            taker,
            true,
            5,
            Price::new(12, 0),
            OrderType::ImmediateOrCancel,
            0,
            0,
            &mut no_globals(),
            0,
            &mut fills,
        )
        .unwrap();
    assert_eq!(
        outcome,
        PlaceOutcome { base_atoms_traded: 3, quote_atoms_traded: 30, resting: None, out_of_blocks: false }
    );
    assert!(market.bid_indices().is_empty());
    assert_eq!(market.seat(taker).unwrap().quote_withdrawable_balance, 970);
}

#[test]
fn fill_or_kill_trades_in_full_or_not_at_all() {
    let (mut market, maker) = market_with_maker(8, 10, 0);
    let taker = market.claim_seat(key(2)).unwrap();
    market.deposit(taker, false, 1_000).unwrap();
    let ask = post(&mut market, maker, false, 3, Price::new(10, 0), OrderType::Limit);
    let mut fills = Vec::new();
    let mut globals = no_globals();
    assert_eq!(
        market.place_order(taker, true, 5, Price::new(12, 0), OrderType::FillOrKill, 0, 0, &mut globals, 0, &mut fills),
        Err(MarketError::Slippage)
    );
    assert!(fills.is_empty());
    assert_eq!(market.order(ask).unwrap().num_base_atoms, 3);
    assert_eq!(market.seat(taker).unwrap().quote_withdrawable_balance, 1_000);
    assert_eq!(market.seat(maker).unwrap().quote_withdrawable_balance, 0);
    let outcome = market
        .place_order(taker, true, 3, Price::new(12, 0), OrderType::FillOrKill, 0, 0, &mut globals, 0, &mut fills)
        .unwrap();
    assert_eq!(outcome.base_atoms_traded, 3);
    assert_eq!(outcome.resting, None);
}

#[test]
fn post_only_rests_or_fails() {
    let (mut market, maker) = market_with_maker(8, 10, 0);
    let taker = market.claim_seat(key(2)).unwrap();
    market.deposit(taker, false, 1_000).unwrap();
    post(&mut market, maker, false, 3, Price::new(10, 0), OrderType::Limit);
    let mut fills = Vec::new();
    let mut globals = no_globals();
    assert_eq!(
        market.place_order(taker, true, 5, Price::new(10, 0), OrderType::PostOnly, 0, 0, &mut globals, 0, &mut fills),
        Err(MarketError::InvalidArgument)
    );
    let outcome = market
        .place_order(taker, true, 5, Price::new(9, 0), OrderType::PostOnly, 0, 0, &mut globals, 0, &mut fills)
        .unwrap();
    assert_eq!(outcome.base_atoms_traded, 0);
    assert_eq!(outcome.resting.unwrap().sequence_number, 1);
    assert_eq!(market.seat(taker).unwrap().quote_withdrawable_balance, 955);
    assert!(fills.is_empty());
}

#[test]
fn the_limit_price_ends_the_walk() {
    let (mut market, maker) = market_with_maker(8, 0, 1_000);
    let taker = market.claim_seat(key(2)).unwrap();
    market.deposit(taker, true, 100).unwrap();
    let best = post(&mut market, maker, true, 2, Price::new(10, 0), OrderType::Limit);
    let next = post(&mut market, maker, true, 2, Price::new(9, 0), OrderType::Limit);
    let last = post(&mut market, maker, true, 2, Price::new(8, 0), OrderType::Limit);
    let mut fills = Vec::new();
    let outcome = market
        .place_order(
            taker,
            false,
            10,
            Price::new(9, 0),
            OrderType::ImmediateOrCancel,
            0,
            0,
            &mut no_globals(),
            0,
            &mut fills,
        )
        .unwrap();
    assert_eq!(outcome.base_atoms_traded, 4);
    assert_eq!(outcome.quote_atoms_traded, 38);
    assert_eq!(fills.iter().map(|fill| fill.maker_index).collect::<Vec<u32>>(), vec![best, next]);
    assert_eq!(market.bid_indices(), vec![last]);
    let seat = market.seat(taker).unwrap();
    assert_eq!((seat.base_withdrawable_balance, seat.quote_withdrawable_balance), (96, 38));
}

#[test]
fn makers_at_one_price_trade_first_come_first_served() {
    let (mut market, maker) = market_with_maker(8, 30, 0);
    let first = post(&mut market, maker, false, 3, Price::new(10, 0), OrderType::Limit);
    let second = post(&mut market, maker, false, 3, Price::new(1, 1), OrderType::Limit);
    let third = post(&mut market, maker, false, 3, Price::new(100, -1), OrderType::Limit);
    let mut fills = Vec::new();
    let outcome = market.swap(1_000, 7, false, false, &mut no_globals(), 0, &mut fills).unwrap();
    assert_eq!(outcome.atoms_in, 70);
    assert_eq!(
        fills.iter().map(|fill| (fill.maker_index, fill.base_atoms)).collect::<Vec<(u32, u64)>>(),
        vec![(first, 3), (second, 3), (third, 1)]
    );
    assert_eq!(market.ask_indices(), vec![third]);
}

#[test]
fn an_order_that_takes_bears_the_rounding() {
    let (mut market, maker) = market_with_maker(8, 10, 100);
    let taker = market.claim_seat(key(2)).unwrap();
    market.deposit(taker, false, 100).unwrap();
    market.deposit(taker, true, 100).unwrap();
    // 3 base at 1.5 are worth 4.5
    post(&mut market, maker, false, 10, Price::new(15, -1), OrderType::Limit);
    post(&mut market, maker, true, 10, Price::new(5, -1), OrderType::Limit);
    let mut fills = Vec::new();
    let mut globals = no_globals();
    let bought = market
        .place_order(taker, true, 3, Price::new(2, 0), OrderType::ImmediateOrCancel, 0, 0, &mut globals, 0, &mut fills)
        .unwrap();
    assert_eq!(bought.quote_atoms_traded, 5);
    // and 3 base at 0.5 are worth 1.5
    let mut fills = Vec::new();
    let sold = market
        .place_order(taker, false, 3, Price::new(1, -1), OrderType::ImmediateOrCancel, 0, 0, &mut globals, 0, &mut fills)
        .unwrap();
    assert_eq!(sold.quote_atoms_traded, 1);
    // a swap is rounded the other way
    let mut fills = Vec::new();
    let swapped = market.swap(1_000, 3, false, false, &mut globals, 0, &mut fills).unwrap();
    assert_eq!(swapped.atoms_in, 4);
    let mut fills = Vec::new();
    let swapped = market.swap(3, 0, true, true, &mut globals, 0, &mut fills).unwrap();
    assert_eq!(swapped.atoms_out, 2);
    // the swaps brought 4 quote and 3 base in and took 2 quote and 3 base out
    assert_eq!(total_held(&market, false), 200 + 4 - 2);
    assert_eq!(total_held(&market, true), 110 + 3 - 3);
}

#[test]
fn nothing_trades_for_nothing() {
    let (mut market, maker) = market_with_maker(8, 10, 100);
    // one base atom at 0.5 is worth less than one quote atom
    let ask = post(&mut market, maker, false, 1, Price::new(5, -1), OrderType::Limit);
    let mut fills = Vec::new();
    let mut globals = no_globals();
    let outcome = market.swap(1_000, 0, false, true, &mut globals, 0, &mut fills).unwrap();
    assert_eq!(outcome, SwapOutcome { atoms_in: 0, atoms_out: 0, out_of_blocks: false });
    assert!(fills.is_empty());
    assert_eq!(market.ask_indices(), vec![ask]);
    let outcome = market.swap(0, 0, true, true, &mut globals, 0, &mut fills).unwrap();
    assert_eq!(outcome, SwapOutcome { atoms_in: 0, atoms_out: 0, out_of_blocks: false });
    let outcome = market.swap(5, 0, true, true, &mut globals, 0, &mut fills).unwrap();
    assert_eq!(outcome, SwapOutcome { atoms_in: 0, atoms_out: 0, out_of_blocks: false });
}

#[test]
fn exact_in_swap_returns_what_the_book_cannot_take() {
    let (mut market, maker) = market_with_maker(8, 0, 3_000);
    post(&mut market, maker, true, 1_000, Price::new(1, 0), OrderType::Limit);
    post(&mut market, maker, true, 2_000, Price::new(5, -1), OrderType::Limit);
    let mut fills = Vec::new();
    let outcome = market.swap(4_000, 2_000, true, true, &mut no_globals(), 0, &mut fills).unwrap();
    assert_eq!(outcome, SwapOutcome { atoms_in: 3_000, atoms_out: 2_000, out_of_blocks: false });
    assert!(market.bid_indices().is_empty());
}

#[test]
fn exact_in_swap_fails_below_the_least_amount_out() {
    let (mut market, maker) = market_with_maker(8, 0, 3_000);
    let bid = post(&mut market, maker, true, 1_000, Price::new(1, 0), OrderType::Limit);
    let mut fills = Vec::new();
    assert_eq!(
        market.swap(1_000, 1_001, true, true, &mut no_globals(), 0, &mut fills),
        Err(MarketError::Slippage)
    );
    assert_eq!(market.order(bid).unwrap().num_base_atoms, 1_000);
    assert_eq!(market.seat(maker).unwrap().base_withdrawable_balance, 0);
}

#[test]
fn swaps_on_a_quote_budget_buy_what_the_quote_reaches() {
    let (mut market, maker) = market_with_maker(8, 100, 1_000);
    let cheap = post(&mut market, maker, false, 4, Price::new(3, 0), OrderType::Limit);
    let dear = post(&mut market, maker, false, 10, Price::new(7, 0), OrderType::Limit);
    let mut fills = Vec::new();
    let mut globals = no_globals();
    // 40 quote buy 4 base at 3 and 4 base at 7
    let bought = market.swap(40, 8, false, true, &mut globals, 0, &mut fills).unwrap();
    assert_eq!(bought, SwapOutcome { atoms_in: 40, atoms_out: 8, out_of_blocks: false });
    assert_eq!(
        fills,
        vec![
            Fill { maker_index: cheap, maker_sequence_number: 0, base_atoms: 4, quote_atoms: 12 },
            Fill { maker_index: dear, maker_sequence_number: 1, base_atoms: 4, quote_atoms: 28 },
        ]
    );
    // 20 quote reach for 2 base at 7 and leave 6 unspent
    let mut fills = Vec::new();
    let bought = market.swap(20, 0, false, true, &mut globals, 0, &mut fills).unwrap();
    assert_eq!(bought, SwapOutcome { atoms_in: 14, atoms_out: 2, out_of_blocks: false });
    // selling for 35 quote takes 5 base at 7 from a bid
    let bid = post(&mut market, maker, true, 10, Price::new(6, 0), OrderType::Limit);
    let mut fills = Vec::new();
    let sold = market.swap(100, 30, true, false, &mut globals, 0, &mut fills).unwrap();
    assert_eq!(sold, SwapOutcome { atoms_in: 5, atoms_out: 30, out_of_blocks: false });
    assert_eq!(market.order(bid).unwrap().num_base_atoms, 5);
    let mut fills = Vec::new();
    assert_eq!(market.swap(100, 31, true, false, &mut globals, 0, &mut fills), Err(MarketError::Slippage));
}

#[test]
fn a_taker_must_cover_what_it_trades() {
    let (mut market, maker) = market_with_maker(8, 10, 0);
    let taker = market.claim_seat(key(2)).unwrap();
    market.deposit(taker, false, 29).unwrap();
    let ask = post(&mut market, maker, false, 3, Price::new(10, 0), OrderType::Limit);
    let mut fills = Vec::new();
    let mut globals = no_globals();
    assert_eq!(
        market.place_order(taker, true, 3, Price::new(10, 0), OrderType::Limit, 0, 0, &mut globals, 0, &mut fills),
        Err(MarketError::InsufficientFunds)
    );
    assert!(fills.is_empty());
    assert_eq!(market.order(ask).unwrap().num_base_atoms, 3);
    assert_eq!(market.seat(maker).unwrap().quote_withdrawable_balance, 0);
    assert_eq!(market.seat(taker).unwrap().quote_withdrawable_balance, 29);
    // nor can it rest what it cannot cover
    assert_eq!(
        market.place_order(taker, true, 3, Price::new(9, 0), OrderType::Limit, 0, 0, &mut globals, 0, &mut fills),
        Ok(PlaceOutcome {
            base_atoms_traded: 0,
            quote_atoms_traded: 0,
            resting: Some(manifest_perps::book::PostedOrder { index: 4, sequence_number: 1 }),
            out_of_blocks: false
        })
    );
    assert_eq!(
        market.place_order(taker, true, 1, Price::new(9, 0), OrderType::Limit, 0, 0, &mut globals, 0, &mut fills),
        Err(MarketError::InsufficientFunds)
    );
}

#[test]
fn place_order_reports_its_failures() {
    let (mut market, maker) = market_with_maker(3, 10, 100);
    let mut fills = Vec::new();
    let mut globals = no_globals();
    let limit = OrderType::Limit;
    let five = Price::new(5, 0);
    assert_eq!(
        market.place_order(0, true, 1, five, limit, 0, 0, &mut globals, 0, &mut fills),
        Err(MarketError::NotFound)
    );
    assert_eq!(
        market.place_order(NIL, true, 1, five, limit, 0, 0, &mut globals, 0, &mut fills),
        Err(MarketError::NotFound)
    );
    assert_eq!(
        market.place_order(maker, true, 0, five, limit, 0, 0, &mut globals, 0, &mut fills),
        Err(MarketError::InvalidArgument)
    );
    assert_eq!(
        market.place_order(maker, true, 1, five, limit, 7, 0, &mut globals, 8, &mut fills),
        Err(MarketError::Expired)
    );
    market.place_order(maker, true, 1, five, limit, 8, 0, &mut globals, 8, &mut fills).unwrap();
    market.place_order(maker, false, 1, Price::new(6, 0), limit, 0, 0, &mut globals, 8, &mut fills).unwrap();
    assert_eq!(
        market.place_order(maker, false, 1, Price::new(7, 0), limit, 0, 0, &mut globals, 8, &mut fills),
        Err(MarketError::Capacity)
    );
    assert_eq!(market.header().next_sequence_number, 2);
    assert_eq!(market.seat(maker).unwrap().base_withdrawable_balance, 9);
}

#[test]
fn a_trader_can_take_its_own_order() {
    let (mut market, maker) = market_with_maker(8, 10, 100);
    let ask = post(&mut market, maker, false, 4, Price::new(10, 0), OrderType::Limit);
    let mut fills = Vec::new();
    let outcome = market
        .place_order(maker, true, 4, Price::new(10, 0), OrderType::Limit, 0, 0, &mut no_globals(), 0, &mut fills)
        .unwrap();
    assert_eq!(outcome.base_atoms_traded, 4);
    assert!(market.order(ask).is_none());
    let seat = market.seat(maker).unwrap();
    assert_eq!((seat.base_withdrawable_balance, seat.quote_withdrawable_balance), (10, 100));
}

fn globals_with(base: &[(u8, u64)], quote: &[(u8, u64)]) -> GlobalAccounts {
    let account = |deposits: &[(u8, u64)]| GlobalAccount {
        deposits: deposits.iter().map(|(tag, atoms)| GlobalDeposit { trader: key(*tag), atoms: *atoms }).collect(),
    };
    GlobalAccounts { base: Some(account(base)), quote: Some(account(quote)) }
}

#[test]
fn a_backed_global_maker_trades_out_of_its_reservation() {
    let (mut market, maker) = market_with_maker(8, 0, 0);
    let ask = post(&mut market, maker, false, 5, Price::new(10, 0), OrderType::Global);
    let bid = post(&mut market, maker, true, 5, Price::new(8, 0), OrderType::Global);
    let mut globals = globals_with(&[(9, 100), (1, 5), (1, 50)], &[(1, 16)]);
    let mut fills = Vec::new();
    let bought = market.swap(1_000, 3, false, false, &mut globals, 0, &mut fills).unwrap();
    assert_eq!(bought, SwapOutcome { atoms_in: 30, atoms_out: 3, out_of_blocks: false });
    assert_eq!(market.order(ask).unwrap().num_base_atoms, 2);
    assert_eq!(globals, globals_with(&[(9, 100), (1, 2), (1, 50)], &[(1, 16)]));
    let seat = market.seat(maker).unwrap();
    assert_eq!((seat.base_withdrawable_balance, seat.quote_withdrawable_balance), (0, 30));
    let mut fills = Vec::new();
    let sold = market.swap(2, 16, true, true, &mut globals, 0, &mut fills).unwrap();
    assert_eq!(sold, SwapOutcome { atoms_in: 2, atoms_out: 16, out_of_blocks: false });
    assert_eq!(market.order(bid).unwrap().num_base_atoms, 3);
    assert_eq!(globals, globals_with(&[(9, 100), (1, 2), (1, 50)], &[(1, 0)]));
    assert_eq!(market.seat(maker).unwrap().base_withdrawable_balance, 2);
}

#[test]
fn a_global_maker_that_is_not_backed_leaves_the_book() {
    let (mut market, maker) = market_with_maker(8, 10, 0);
    let global = post(&mut market, maker, false, 5, Price::new(10, 0), OrderType::Global);
    let own = post(&mut market, maker, false, 5, Price::new(11, 0), OrderType::Limit);
    let mut globals = globals_with(&[(1, 2)], &[]);
    let mut fills = Vec::new();
    let bought = market.swap(1_000, 3, false, false, &mut globals, 0, &mut fills).unwrap();
    assert_eq!(bought, SwapOutcome { atoms_in: 33, atoms_out: 3, out_of_blocks: false });
    assert_eq!(fills, vec![Fill { maker_index: own, maker_sequence_number: 1, base_atoms: 3, quote_atoms: 33 }]);
    assert!(market.order(global).is_none());
    assert_eq!(market.ask_indices(), vec![own]);
    assert_eq!(globals, globals_with(&[(1, 2)], &[]));
    // without the accounts no global maker is backed
    let global = post(&mut market, maker, false, 1, Price::new(10, 0), OrderType::Global);
    let mut fills = Vec::new();
    let bought = market.swap(1_000, 1, false, false, &mut no_globals(), 0, &mut fills).unwrap();
    assert_eq!(bought.atoms_in, 11);
    assert!(market.order(global).is_none());
}

#[test]
fn a_failed_swap_restores_the_global_accounts() {
    let (mut market, maker) = market_with_maker(8, 0, 0);
    let ask = post(&mut market, maker, false, 5, Price::new(10, 0), OrderType::Global);
    let mut globals = globals_with(&[(1, 5)], &[]);
    let mut fills = Vec::new();
    assert_eq!(market.swap(1_000, 6, false, false, &mut globals, 0, &mut fills), Err(MarketError::Slippage));
    assert_eq!(globals, globals_with(&[(1, 5)], &[]));
    assert_eq!(market.order(ask).unwrap().num_base_atoms, 5);
    assert!(fills.is_empty());
}

#[test]
fn fills_never_move_nothing_and_books_never_cross() {
    let (mut market, maker) = market_with_maker(32, 10_000, 10_000);
    let taker = market.claim_seat(key(2)).unwrap();
    market.deposit(taker, false, 10_000).unwrap();
    market.deposit(taker, true, 10_000).unwrap();
    let mut globals = no_globals();
    let prices = [Price::new(37, -1), Price::new(4, 0), Price::new(41, -1), Price::new(5, 0)];
    for round in 0..40u64 {
        let price = prices[(round % 4) as usize];
        let seat = if round % 3 == 0 { maker } else { taker };
        let is_bid = round % 2 == 0;
        let kind = if round % 5 == 0 { OrderType::Reverse } else { OrderType::Limit };
        let mut fills = Vec::new();
        let placed = market.place_order(seat, is_bid, 1 + round % 7, price, kind, 0, 300, &mut globals, 0, &mut fills);
        if placed.is_err() {
            assert_eq!(market.expand(4), 4);
            continue;
        }
        for fill in fills {
            assert!(fill.base_atoms > 0 && fill.quote_atoms > 0);
        }
        let bids = market.bid_indices();
        let asks = market.ask_indices();
        if let (Some(bid), Some(ask)) = (bids.first(), asks.first()) {
            let bid = market.order(*bid).unwrap().price;
            let ask = market.order(*ask).unwrap().price;
            assert!(bid.value_le(&ask));
        }
        assert_eq!(market.free_blocks() + market.used_blocks(), market.total_blocks());
        assert_eq!(total_held(&market, true), 20_000);
        assert_eq!(total_held(&market, false), 20_000);
    }
    assert!(market.header().next_sequence_number > 10);
}

#[test]
fn cancelling_what_rests_leaves_what_an_immediate_order_leaves() {
    let build = || {
        let (mut market, maker) = market_with_maker(8, 10, 0);
        let taker = market.claim_seat(key(2)).unwrap();
        market.deposit(taker, false, 1_000).unwrap();
        post(&mut market, maker, false, 3, Price::new(100_000_001, -7), OrderType::Limit);
        (market, taker)
    };
    let (mut rested, taker) = build();
    let mut fills = Vec::new();
    let outcome = rested
        .place_order(taker, true, 5, Price::new(12, 0), OrderType::Limit, 0, 0, &mut no_globals(), 0, &mut fills)
        .unwrap();
    rested.cancel_order(taker, outcome.resting.unwrap().sequence_number).unwrap();
    let (mut at_once, taker) = build();
    let mut other_fills = Vec::new();
    at_once
        .place_order(
            taker,
            true,
            5,
            Price::new(12, 0),
            OrderType::ImmediateOrCancel,
            0,
            0,
            &mut no_globals(),
            0,
            &mut other_fills,
        )
        .unwrap();
    assert_eq!(fills, other_fills);
    assert_eq!(rested.seat(taker), at_once.seat(taker));
    assert_eq!(rested.seat(taker).unwrap().quote_withdrawable_balance, 1_000 - 31);
    assert_eq!(rested.bid_indices(), at_once.bid_indices());
    assert_eq!(rested.free_blocks(), at_once.free_blocks());
    assert_eq!(rested.header().free_list_head, at_once.header().free_list_head);
    assert_eq!(rested.header().next_sequence_number, at_once.header().next_sequence_number + 1);
}

#[test]
fn fills_are_appended_to_what_the_list_holds() {
    let (mut market, maker) = market_with_maker(8, 10, 100);
    let taker = market.claim_seat(key(2)).unwrap();
    market.deposit(taker, true, 10).unwrap();
    market.deposit(taker, false, 100).unwrap();
    let ask = market.post_order(maker, false, 2, Price::new(7, 0), OrderType::Limit, 0, 0, 0).unwrap();
    let bid = market.post_order(maker, true, 3, Price::new(5, 0), OrderType::Limit, 0, 0, 0).unwrap();
    let earlier = Fill { maker_index: 77, maker_sequence_number: 99, base_atoms: 1, quote_atoms: 1 };
    let mut fills = vec![earlier];
    let mut globals = no_globals();
    assert_eq!(
        market.place_order(taker, true, 2, Price::new(7, 0), OrderType::FillOrKill, 0, 0, &mut globals, 0, &mut fills)
            .map(|outcome| outcome.base_atoms_traded),
        Ok(2)
    );
    let first = Fill { maker_index: ask.index, maker_sequence_number: ask.sequence_number, base_atoms: 2, quote_atoms: 14 };
    assert_eq!(fills, vec![earlier, first]);
    // an order that fails leaves the list as it was
    assert_eq!(
        market.place_order(taker, false, 5, Price::new(5, 0), OrderType::FillOrKill, 0, 0, &mut globals, 0, &mut fills),
        Err(MarketError::Slippage)
    );
    assert_eq!(fills, vec![earlier, first]);
    assert_eq!(market.order(bid.index).unwrap().num_base_atoms, 3);
    // a swap adds to the same list
    let outcome = market.swap(1, 5, true, true, &mut globals, 0, &mut fills).unwrap();
    assert_eq!(outcome, SwapOutcome { atoms_in: 1, atoms_out: 5, out_of_blocks: false });
    let second = Fill { maker_index: bid.index, maker_sequence_number: bid.sequence_number, base_atoms: 1, quote_atoms: 5 };
    assert_eq!(fills, vec![earlier, first, second]);
    assert_eq!(market.swap(1, 6, true, true, &mut globals, 0, &mut fills), Err(MarketError::Slippage));
    assert_eq!(fills, vec![earlier, first, second]);
    // an order that rests without trading adds nothing
    market
        .place_order(taker, true, 1, Price::new(4, 0), OrderType::PostOnly, 0, 0, &mut globals, 0, &mut fills)
        .unwrap();
    assert_eq!(fills, vec![earlier, first, second]);
}

#[test]
fn fills_before_a_blocked_reverse_maker_stand() {
    let (mut market, maker) = market_with_maker(3, 0, 65);
    let first = market.post_order(maker, true, 2, Price::new(10, 0), OrderType::Reverse, 0, 10_000, 0).unwrap();
    let second = market.post_order(maker, true, 5, Price::new(9, 0), OrderType::Reverse, 0, 10_000, 0).unwrap();
    assert_eq!(market.free_blocks(), 0);
    let mut fills = Vec::new();
    let mut globals = no_globals();
    // the first bid is filled in full and comes back as an ask in its own
    // block; the second would be filled in part and has no block to come
    // back in
    let outcome = market.swap(4, 0, true, true, &mut globals, 0, &mut fills).unwrap();
    assert_eq!(outcome, SwapOutcome { atoms_in: 2, atoms_out: 20, out_of_blocks: true });
    assert_eq!(
        fills,
        vec![Fill { maker_index: first.index, maker_sequence_number: 0, base_atoms: 2, quote_atoms: 20 }]
    );
    assert_eq!(market.bid_indices(), vec![second.index]);
    let blocked = market.order(second.index).unwrap();
    assert_eq!(blocked.num_base_atoms, 5);
    assert_eq!(blocked.price, Price::new(9, 0));
    assert_eq!(blocked.sequence_number, 1);
    assert_eq!(market.ask_indices(), vec![first.index]);
    let flipped = market.order(first.index).unwrap();
    assert!(!flipped.is_bid);
    assert_eq!(flipped.num_base_atoms, 2);
    assert_eq!(market.free_blocks(), 0);
    let seat = market.seat(maker).unwrap();
    assert_eq!((seat.base_withdrawable_balance, seat.quote_withdrawable_balance), (0, 0));
    assert_eq!(total_held(&market, false), 45);
    assert_eq!(total_held(&market, true), 2);
    // the mark is the lower of the two best prices, and the blocked bid's
    // own once it is alone
    assert_eq!(market.compute_mark_price(), Ok(Price::new(9, 0)));
    market.cancel_order_by_index(first.index).unwrap();
    assert_eq!(market.compute_mark_price(), Ok(Price::new(9, 0)));
    assert_eq!(market.bid_indices(), vec![second.index]);
    // the same walk from the blocked maker changes nothing
    market.post_order(maker, false, 2, Price::new(11, 0), OrderType::Limit, 0, 0, 0).unwrap();
    let mut fills = Vec::new();
    let outcome = market.swap(4, 0, true, true, &mut globals, 0, &mut fills).unwrap();
    assert_eq!(outcome, SwapOutcome { atoms_in: 0, atoms_out: 0, out_of_blocks: true });
    assert!(fills.is_empty());
    assert_eq!(market.order(second.index).unwrap().num_base_atoms, 5);
}

#[test]
fn an_order_that_meets_no_match_is_placed_by_posting_it() {
    let (mut placed, maker) = market_with_maker(8, 50, 500);
    post(&mut placed, maker, false, 5, Price::new(12, 0), OrderType::Limit);
    post(&mut placed, maker, true, 5, Price::new(8, 0), OrderType::Limit);
    let mut posted = placed.duplicate();
    let mut fills = Vec::new();
    let mut globals = no_globals();
    for (is_bid, base, price, kind) in [
        (true, 3, Price::new(11, 0), OrderType::Limit),
        (false, 4, Price::new(115, -1), OrderType::Reverse),
        (true, 2, Price::new(1_000_000_001, -8), OrderType::Limit),
    ] {
        let outcome = placed.place_order(maker, is_bid, base, price, kind, 0, 10, &mut globals, 0, &mut fills).unwrap();
        let resting = posted.post_order(maker, is_bid, base, price, kind, 0, 10, 0).unwrap();
        assert_eq!(
            outcome,
            PlaceOutcome { base_atoms_traded: 0, quote_atoms_traded: 0, resting: Some(resting), out_of_blocks: false }
        );
        assert_eq!(placed.to_bytes(), posted.to_bytes());
    }
    assert!(fills.is_empty());
    assert_eq!(placed.bid_indices().len(), 3);
    assert_eq!(placed.ask_indices().len(), 2);
    // both fail alike
    assert_eq!(
        placed.place_order(maker, true, 1_000, Price::new(11, 0), OrderType::Limit, 0, 0, &mut globals, 0, &mut fills),
        Err(MarketError::InsufficientFunds)
    );
    assert_eq!(
        posted.post_order(maker, true, 1_000, Price::new(11, 0), OrderType::Limit, 0, 0, 0),
        Err(MarketError::InsufficientFunds)
    );
}
