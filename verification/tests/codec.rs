use manifest_perps::codec::{BLOCK_LEN, HEADER_LEN, MARKET_DISCRIMINANT};
use manifest_perps::error::MarketError;
use manifest_perps::global::GlobalAccounts;
use manifest_perps::price::Price;
use manifest_perps::state::{Market, OrderType, NIL};

fn key(tag: u8) -> [u8; 32] {
    let mut bytes = [0u8; 32];
    bytes[0] = tag;
    bytes[31] = tag;
    bytes
}

fn busy_market() -> Market {
    let mut market = Market::new(key(200), key(201), 9, 6, 500);
    assert_eq!(market.expand(12), 12);
    let alice = market.claim_seat(key(1)).unwrap();
    let bob = market.claim_seat(key(2)).unwrap();
    for seat in [alice, bob] {
        market.deposit(seat, true, 1_000).unwrap();
        market.deposit(seat, false, 1_000).unwrap();
    }
    market.set_position(alice, 75, 300).unwrap();
    market.set_position(bob, -40, 9).unwrap();
    market.set_oracle_price(6_512_345_678_901, -8);
    market.set_last_funding_timestamp(-17);
    market.set_cumulative_funding(i64::MIN);
    market.post_order(alice, true, 5, Price::new(41, -1), OrderType::Limit, 0, 0, 0).unwrap();
    market.post_order(bob, true, 6, Price::new(42, -1), OrderType::Global, 9, 0, 3).unwrap();
    let gone = market.post_order(bob, true, 7, Price::new(40, -1), OrderType::Limit, 0, 0, 0).unwrap();
    market.post_order(alice, false, 8, Price::new(5, 0), OrderType::Reverse, 0, 77, 0).unwrap();
    market.post_order(bob, false, 9, Price::new(6, i8::MIN + 120), OrderType::PostOnly, 0, 0, 0).unwrap_err();
    market.post_order(bob, false, 9, Price::new(6, 0), OrderType::PostOnly, 0, 0, 0).unwrap();
    market.cancel_order_by_index(gone.index).unwrap();
    market
}

fn same_market(one: &Market, other: &Market) {
    assert_eq!(one.header(), other.header());
    assert_eq!(one.total_blocks(), other.total_blocks());
    assert_eq!(one.seat_indices(), other.seat_indices());
    assert_eq!(one.bid_indices(), other.bid_indices());
    assert_eq!(one.ask_indices(), other.ask_indices());
    assert_eq!(one.free_blocks(), other.free_blocks());
    for index in 0..one.total_blocks() {
        assert_eq!(one.seat(index), other.seat(index));
        assert_eq!(one.order(index), other.order(index));
    }
}

#[test]
fn a_market_survives_the_trip_through_bytes() {
    let market = busy_market();
    let bytes = market.to_bytes().unwrap();
    assert_eq!(bytes.len(), HEADER_LEN + 12 * BLOCK_LEN);
    let back = Market::from_bytes(&bytes).unwrap();
    same_market(&market, &back);
    assert_eq!(back.to_bytes().unwrap(), bytes);
}

#[test]
fn a_market_goes_on_after_the_trip_as_before() {
    let mut market = busy_market();
    let mut back = Market::from_bytes(&market.to_bytes().unwrap()).unwrap();
    let mut outcomes = Vec::new();
    for copy in [&mut market, &mut back] {
        let carol = copy.claim_seat(key(3)).unwrap();
        copy.deposit(carol, true, 50).unwrap();
        let mut fills = Vec::new();
        let placed = copy
            .place_order(carol, false, 8, Price::new(41, -1), OrderType::Limit, 0, 0, &mut GlobalAccounts::none(), 4, &mut fills)
            .unwrap();
        let liquidated = copy.liquidate(&key(2), &key(3)).unwrap();
        outcomes.push((carol, placed, fills, liquidated));
    }
    assert_eq!(outcomes[0], outcomes[1]);
    assert_eq!(outcomes[0].3.position_size, -40);
    same_market(&market, &back);
    assert_eq!(market.to_bytes().unwrap(), back.to_bytes().unwrap());
}

#[test]
fn an_empty_market_is_a_header() {
    let market = Market::new(key(7), key(8), 1, 2, 3);
    let bytes = market.to_bytes().unwrap();
    assert_eq!(bytes.len(), HEADER_LEN);
    assert_eq!(bytes[0..8], MARKET_DISCRIMINANT.to_le_bytes());
    assert_eq!(bytes[8], 1);
    assert_eq!(bytes[9], 2);
    assert_eq!(bytes[16..48], key(7));
    assert_eq!(bytes[48..80], key(8));
    assert_eq!(bytes[80..96], [0xFF; 16]);
    assert_eq!(bytes[104..108], [0; 4]);
    assert_eq!(bytes[128..136], 3u64.to_le_bytes());
    let back = Market::from_bytes(&bytes).unwrap();
    same_market(&market, &back);
}

#[test]
fn the_layout_is_as_documented() {
    let mut market = Market::new(key(7), key(8), 0, 0, 0);
    assert_eq!(market.expand(3), 3);
    let seat = market.claim_seat(key(5)).unwrap();
    market.deposit(seat, true, 0x0102_0304_0506_0708).unwrap();
    market.deposit(seat, false, 9).unwrap();
    market.set_position(seat, -2, 11).unwrap();
    let ask = market
        .post_order(seat, false, 0x77, Price::new(0x0A0B_0C0D, -3), OrderType::Reverse, 0x55, 0x66, 1)
        .unwrap();
    let bytes = market.to_bytes().unwrap();
    assert_eq!((seat, ask.index), (2, 1));
    assert_eq!(bytes[80..84], NIL.to_le_bytes());
    assert_eq!(bytes[84..88], 1u32.to_le_bytes());
    assert_eq!(bytes[88..92], 2u32.to_le_bytes());
    assert_eq!(bytes[92..96], 0u32.to_le_bytes());
    assert_eq!(bytes[96..104], 1u64.to_le_bytes());
    assert_eq!(bytes[104..108], 3u32.to_le_bytes());
    assert_eq!(bytes[120..128], 2u64.to_le_bytes());
    let free = &bytes[HEADER_LEN..HEADER_LEN + BLOCK_LEN];
    assert_eq!(free[0], 0);
    assert_eq!(free[4..8], NIL.to_le_bytes());
    let order = &bytes[HEADER_LEN + BLOCK_LEN..HEADER_LEN + 2 * BLOCK_LEN];
    assert_eq!(order[0], 2);
    assert_eq!(order[4..8], NIL.to_le_bytes());
    assert_eq!(order[8..12], 2u32.to_le_bytes());
    assert_eq!(order[12..16], 0x55u32.to_le_bytes());
    assert_eq!(order[16..24], 0u64.to_le_bytes());
    assert_eq!(order[24..28], [0x0D, 0x0C, 0x0B, 0x0A]);
    assert_eq!(order[28], 0xFD);
    assert_eq!(order[29], 0);
    assert_eq!(order[30], 5);
    assert_eq!(order[32..40], 0x77u64.to_le_bytes());
    assert_eq!(order[40..44], 0x66u32.to_le_bytes());
    let held = &bytes[HEADER_LEN + 2 * BLOCK_LEN..];
    assert_eq!(held[0], 1);
    assert_eq!(held[4..8], NIL.to_le_bytes());
    assert_eq!(held[8..40], key(5));
    assert_eq!(held[40..48], (0x0102_0304_0506_0708u64 - 0x77).to_le_bytes());
    assert_eq!(held[48..56], 9u64.to_le_bytes());
    assert_eq!(held[56..64], (-2i64).to_le_bytes());
    assert_eq!(held[64..72], 11u64.to_le_bytes());
}

#[test]
fn bytes_that_hold_no_market_are_refused() {
    let market = busy_market();
    let bytes = market.to_bytes().unwrap();
    let refused = |change: &dyn Fn(&mut Vec<u8>)| {
        let mut changed = bytes.clone();
        change(&mut changed);
        assert_eq!(Market::from_bytes(&changed).err(), Some(MarketError::InvalidArgument));
    };
    assert_eq!(Market::from_bytes(&[]).err(), Some(MarketError::InvalidArgument));
    // length and header
    refused(&|b| b.truncate(HEADER_LEN - 1));
    refused(&|b| b.push(0));
    refused(&|b| b.truncate(b.len() - BLOCK_LEN));
    refused(&|b| b.extend_from_slice(&[0; BLOCK_LEN]));
    refused(&|b| b[0] ^= 1);
    refused(&|b| b[104] += 1);
    // totals, sequence counter and free list head
    refused(&|b| b[112] += 1);
    refused(&|b| b[120] += 1);
    refused(&|b| b[96..104].copy_from_slice(&3u64.to_le_bytes()));
    refused(&|b| b[92] ^= 1);
    // list roots
    refused(&|b| b[80..84].copy_from_slice(&NIL.to_le_bytes()));
    refused(&|b| b[84] ^= 1);
    refused(&|b| b[88..92].copy_from_slice(&500u32.to_le_bytes()));
    // a role that does not exist, a side that does not, a type that does not
    let first_order = market.bid_indices()[0] as usize;
    let order_at = HEADER_LEN + first_order * BLOCK_LEN;
    refused(&|b| b[order_at] = 3);
    refused(&|b| b[order_at + 29] = 2);
    refused(&|b| b[order_at + 30] = 6);
    // an order without base atoms, or of a seat that is none, or out of order
    refused(&|b| b[order_at + 32..order_at + 40].copy_from_slice(&[0; 8]));
    refused(&|b| b[order_at + 8..order_at + 12].copy_from_slice(&first_order.to_le_bytes()[..4]));
    refused(&|b| b[order_at + 24] = 1);
    // a bid that says it is an ask, and a list that runs in a circle
    refused(&|b| b[order_at + 29] = 0);
    refused(&|b| b[order_at + 4..order_at + 8].copy_from_slice(&(first_order as u32).to_le_bytes()));
    // two seats of one trader
    let seats = market.seat_indices();
    let one = HEADER_LEN + seats[0] as usize * BLOCK_LEN;
    let other = HEADER_LEN + seats[1] as usize * BLOCK_LEN;
    refused(&|b| {
        let trader: Vec<u8> = b[one + 8..one + 40].to_vec();
        b[other + 8..other + 40].copy_from_slice(&trader);
    });
    // seats out of the order of their traders
    refused(&|b| {
        let trader: Vec<u8> = b[one + 8..one + 40].to_vec();
        let twin: Vec<u8> = b[other + 8..other + 40].to_vec();
        b[other + 8..other + 40].copy_from_slice(&trader);
        b[one + 8..one + 40].copy_from_slice(&twin);
    });
    // crossed books
    let first_ask = HEADER_LEN + market.ask_indices()[0] as usize * BLOCK_LEN;
    refused(&|b| b[first_ask + 24..first_ask + 28].copy_from_slice(&1u32.to_le_bytes()));
}

#[test]
fn bytes_that_the_layout_does_not_name_are_ignored() {
    let market = busy_market();
    let mut bytes = market.to_bytes().unwrap();
    bytes[10] = 0xEE;
    bytes[200] = 0xEE;
    let free = HEADER_LEN + market.header().free_list_head as usize * BLOCK_LEN;
    bytes[free + 1] = 0xEE;
    bytes[free + 8..free + BLOCK_LEN].copy_from_slice(&[0xEE; 72]);
    let seat = HEADER_LEN + market.seat_indices()[0] as usize * BLOCK_LEN;
    bytes[seat + 79] = 0xEE;
    let back = Market::from_bytes(&bytes).unwrap();
    same_market(&market, &back);
}

/// A small deterministic generator of numbers.
struct Dice(u64);

impl Dice {
    fn roll(&mut self, sides: u64) -> u64 {
        self.0 = self.0.wrapping_mul(6_364_136_223_846_793_005).wrapping_add(1_442_695_040_888_963_407);
        (self.0 >> 33) % sides
    }
}

#[test]
fn every_state_of_a_busy_market_survives_the_trip() {
    let mut dice = Dice(7);
    let mut market = Market::new(key(200), key(201), 2, 3, 750);
    assert_eq!(market.expand(8), 8);
    let mut seats = Vec::new();
    for tag in [9u8, 3, 5, 1] {
        let seat = market.claim_seat(key(tag)).unwrap();
        market.deposit(seat, true, 100_000).unwrap();
        market.deposit(seat, false, 100_000).unwrap();
        seats.push(seat);
    }
    let kinds = [
        OrderType::Limit,
        OrderType::ImmediateOrCancel,
        OrderType::PostOnly,
        OrderType::Reverse,
        OrderType::FillOrKill,
        OrderType::Limit,
    ];
    let mut globals = GlobalAccounts::none();
    let mut placed = 0;
    for round in 0..300u32 {
        let seat = seats[dice.roll(4) as usize];
        match dice.roll(8) {
            0 => {
                let _ = market.expand(dice.roll(3) as u32);
            }
            1 => {
                let _ = market.deposit(seat, dice.roll(2) == 0, dice.roll(1_000));
            }
            2 => {
                let _ = market.withdraw(seat, dice.roll(2) == 0, dice.roll(1_000));
            }
            3 => {
                let book = if dice.roll(2) == 0 { market.bid_indices() } else { market.ask_indices() };
                if !book.is_empty() {
                    let index = book[dice.roll(book.len() as u64) as usize];
                    market.cancel_order_by_index(index).unwrap();
                }
            }
            4 => {
                let mut fills = Vec::new();
                let _ = market.swap(
                    dice.roll(500),
                    0,
                    dice.roll(2) == 0,
                    true,
                    &mut globals,
                    round,
                    &mut fills,
                );
            }
            _ => {
                let price = Price::new(90 + dice.roll(21) as u32, -1 - dice.roll(2) as i8);
                let mut fills = Vec::new();
                let outcome = market.place_order(
                    seat,
                    dice.roll(2) == 0,
                    1 + dice.roll(50),
                    price,
                    kinds[dice.roll(6) as usize],
                    if dice.roll(4) == 0 { round + dice.roll(20) as u32 } else { 0 },
                    dice.roll(5_000) as u32,
                    &mut globals,
                    round,
                    &mut fills,
                );
                if outcome.is_ok() {
                    placed += 1;
                }
            }
        }
        let bytes = market.to_bytes().unwrap();
        let back = Market::from_bytes(&bytes).unwrap();
        same_market(&market, &back);
        assert_eq!(market.free_blocks() + market.used_blocks(), market.total_blocks());
    }
    assert!(placed > 50);
    assert!(market.header().next_sequence_number > 20);
}
