//! The market state: a header and a pool of blocks.
//!
//! Every block of the pool plays exactly one role. It is the seat of one
//! trader, one resting order, or a link of the free list. Seats and orders
//! are reached through ordered indices that name their blocks; the free list
//! threads through the free blocks themselves, starting at the header.
//!
//! A block is named by its number in the pool, a `hypertree::DataIndex`, and
//! "no block" is that crate's `NIL`.

use vstd::prelude::*;
use hypertree::DataIndex;
use crate::price::Price;

verus! {

/// Block index that stands for "no block".
pub const NIL: DataIndex = 0xFFFF_FFFF;

/// `hypertree::NIL`, the index that the tree crate reads as "no node": the
/// largest index there is.
#[verifier::external_body]
pub(crate) fn tree_nil() -> (nil: DataIndex)
    ensures
        nil == NIL,
{
    hypertree::NIL
}

/// Identity of a trader or a mint: a 32-byte public key.
pub type Identity = [u8; 32];

/// One trader's account on the market.
#[derive(Clone, Copy, Debug, PartialEq, Eq)]
pub struct ClaimedSeat {
    /// Who owns the seat; no two seats share an owner.
    pub trader: Identity,
    /// Base atoms the trader may withdraw.
    pub base_withdrawable_balance: u64,
    /// Quote atoms the trader may withdraw; it also serves as margin.
    pub quote_withdrawable_balance: u64,
    /// Open position in base atoms; positive is long.
    pub position_size: i64,
    /// Quote atoms paid to open the position.
    pub quote_cost_basis: u64,
}

/// How an order behaves once it meets the book.
#[derive(Clone, Copy, Debug, PartialEq, Eq, Structural)]
pub enum OrderType {
    /// Matches what crosses, then rests.
    Limit,
    /// Matches what crosses and drops the rest.
    ImmediateOrCancel,
    /// Matches in full or not at all.
    FillOrKill,
    /// Rests, and is refused if it would match.
    PostOnly,
    /// Rests with funds held in a reservation outside the market.
    Global,
    /// Rests, and re-posts on the other side whatever is filled.
    Reverse,
}

/// An order waiting in one of the two books.
#[derive(Clone, Copy, Debug, PartialEq, Eq, Structural)]
pub struct RestingOrder {
    /// Block of the seat that owns the order.
    pub trader_index: DataIndex,
    /// Position in the market-wide order of insertion.
    pub sequence_number: u64,
    pub price: Price,
    /// Base atoms not yet filled.
    pub num_base_atoms: u64,
    pub is_bid: bool,
    pub order_type: OrderType,
    /// Last slot in which the order may match; zero means it never expires.
    pub last_valid_slot: u32,
    /// Spread of a reverse order, in units of 1/100,000.
    pub reverse_spread: u32,
}

/// One block of the pool.
#[derive(Clone, Copy, Debug, PartialEq, Eq)]
pub enum Block {
    /// A free block, which names the next one of the free list.
    Free { next: DataIndex },
    Seat(ClaimedSeat),
    Order(RestingOrder),
}

/// The fixed part of the market.
#[derive(Clone, Copy, Debug, PartialEq, Eq)]
pub struct MarketHeader {
    pub base_mint: Identity,
    pub quote_mint: Identity,
    pub base_mint_decimals: u8,
    pub quote_mint_decimals: u8,
    /// First block of the free list, or `NIL`.
    pub free_list_head: DataIndex,
    /// Sequence number that the next inserted order receives.
    pub next_sequence_number: u64,
    /// Sum of all long positions, in base atoms.
    pub total_long_base_atoms: u64,
    /// Sum of the sizes of all short positions, in base atoms.
    pub total_short_base_atoms: u64,
    pub maintenance_margin_bps: u64,
    /// Cached oracle price; zero while no oracle has been read.
    pub oracle_price_mantissa: u64,
    pub oracle_price_expo: i32,
    /// Time of the last funding crank; zero before the first one.
    pub last_funding_timestamp: i64,
    pub cumulative_funding: i64,
}

/// Long base atoms that a block contributes: the position of a long seat.
pub open spec fn long_of(block: Block) -> nat {
    match block {
        Block::Seat(seat) => if seat.position_size > 0 {
            seat.position_size as nat
        } else {
            0
        },
        _ => 0,
    }
}

/// Short base atoms that a block contributes: the size of a short seat's position.
pub open spec fn short_of(block: Block) -> nat {
    match block {
        Block::Seat(seat) => if seat.position_size < 0 {
            (-seat.position_size) as nat
        } else {
            0
        },
        _ => 0,
    }
}

/// Sum of the long positions held in `blocks`.
pub open spec fn total_long(blocks: Seq<Block>) -> nat
    decreases blocks.len(),
{
    if blocks.len() == 0 {
        0
    } else {
        total_long(blocks.drop_last()) + long_of(blocks.last())
    }
}

/// Sum of the sizes of the short positions held in `blocks`.
pub open spec fn total_short(blocks: Seq<Block>) -> nat
    decreases blocks.len(),
{
    if blocks.len() == 0 {
        0
    } else {
        total_short(blocks.drop_last()) + short_of(blocks.last())
    }
}

/// Sum of the signed positions held in `blocks`.
pub open spec fn net_position(blocks: Seq<Block>) -> int
    decreases blocks.len(),
{
    if blocks.len() == 0 {
        0
    } else {
        net_position(blocks.drop_last()) + match blocks.last() {
            Block::Seat(seat) => seat.position_size as int,
            _ => 0,
        }
    }
}

/// Whether the bytes of `a` come before those of `b`, reading both from
/// position `from` on: the first byte in which they differ decides.
pub open spec fn comes_before_from(a: Seq<u8>, b: Seq<u8>, from: int) -> bool
    decreases a.len() - from,
{
    if from < 0 || from >= a.len() || from >= b.len() {
        false
    } else if a[from] != b[from] {
        a[from] < b[from]
    } else {
        comes_before_from(a, b, from + 1)
    }
}

/// Whether identity `a` comes before identity `b`, byte by byte.
pub open spec fn comes_before(a: Seq<u8>, b: Seq<u8>) -> bool {
    comes_before_from(a, b, 0)
}

/// Whether bid `a` is matched before bid `b`: the higher price first, the
/// earlier order first among equal prices.
pub open spec fn bid_before(a: RestingOrder, b: RestingOrder) -> bool {
    a.price.scaled() > b.price.scaled() || (a.price.scaled() == b.price.scaled()
        && a.sequence_number < b.sequence_number)
}

/// Whether ask `a` is matched before ask `b`: the lower price first, the
/// earlier order first among equal prices.
pub open spec fn ask_before(a: RestingOrder, b: RestingOrder) -> bool {
    a.price.scaled() < b.price.scaled() || (a.price.scaled() == b.price.scaled()
        && a.sequence_number < b.sequence_number)
}

/// Whether `a` is matched before `b` in the book of the given side.
pub open spec fn order_before(is_bid: bool, a: RestingOrder, b: RestingOrder) -> bool {
    if is_bid {
        bid_before(a, b)
    } else {
        ask_before(a, b)
    }
}

/// The market as a mathematical value.
pub struct MarketView {
    pub header: MarketHeader,
    /// The block pool.
    pub blocks: Seq<Block>,
    /// Blocks of the claimed seats, in the order of their traders.
    pub seats: Seq<DataIndex>,
    /// Blocks of the resting bids, best first.
    pub bids: Seq<DataIndex>,
    /// Blocks of the resting asks, best first.
    pub asks: Seq<DataIndex>,
    /// Blocks of the free list, head first.
    pub free: Seq<DataIndex>,
}

impl MarketView {
    /// Whether block `index` holds a seat.
    pub open spec fn is_seat(self, index: DataIndex) -> bool {
        index < self.blocks.len() && self.blocks[index as int] is Seat
    }

    /// Whether block `index` holds an order.
    pub open spec fn is_order(self, index: DataIndex) -> bool {
        index < self.blocks.len() && self.blocks[index as int] is Order
    }

    /// Whether block `index` is free.
    pub open spec fn is_free(self, index: DataIndex) -> bool {
        index < self.blocks.len() && self.blocks[index as int] is Free
    }

    /// The seat in block `index`.
    pub open spec fn seat_at(self, index: DataIndex) -> ClaimedSeat {
        self.blocks[index as int]->Seat_0
    }

    /// The order in block `index`.
    pub open spec fn order_at(self, index: DataIndex) -> RestingOrder {
        self.blocks[index as int]->Order_0
    }

    /// The bids when `is_bid` is set, else the asks.
    pub open spec fn book(self, is_bid: bool) -> Seq<DataIndex> {
        if is_bid {
            self.bids
        } else {
            self.asks
        }
    }

    /// The block that follows position `k` of the free list.
    pub open spec fn free_next(self, k: int) -> DataIndex {
        if k + 1 < self.free.len() {
            self.free[k + 1]
        } else {
            NIL
        }
    }

    /// The pool is no larger than block indices can address, and the seats,
    /// the orders and the free blocks together are all of it.
    pub open spec fn counts_ok(self) -> bool {
        &&& self.blocks.len() <= NIL
        &&& self.seats.len() + self.bids.len() + self.asks.len() + self.free.len()
            == self.blocks.len()
    }

    /// The seat index lists every seat block once and nothing else, in the
    /// order of the traders' identities; so no two seats belong to the same
    /// trader.
    pub open spec fn seats_ok(self) -> bool {
        &&& self.seats.no_duplicates()
        &&& forall|k: int| 0 <= k < self.seats.len() ==> self.is_seat(#[trigger] self.seats[k])
        &&& forall|b: DataIndex| #[trigger] self.is_seat(b) ==> self.seats.contains(b)
        &&& forall|i: int, j: int|
            0 <= i < j < self.seats.len() ==> comes_before(
                self.seat_at(#[trigger] self.seats[i]).trader@,
                self.seat_at(#[trigger] self.seats[j]).trader@,
            )
    }

    /// The free list holds every free block once and nothing else; it starts
    /// at the header, and each free block names its successor.
    pub open spec fn free_ok(self) -> bool {
        &&& self.free.no_duplicates()
        &&& forall|k: int| 0 <= k < self.free.len() ==> self.is_free(#[trigger] self.free[k])
        &&& forall|b: DataIndex| #[trigger] self.is_free(b) ==> self.free.contains(b)
        &&& self.header.free_list_head == if self.free.len() > 0 {
            self.free[0]
        } else {
            NIL
        }
        &&& forall|k: int|
            0 <= k < self.free.len() ==> (#[trigger] self.blocks[self.free[k] as int])
                == (Block::Free { next: self.free_next(k) })
    }

    /// Each book lists the order blocks of its side once and nothing else, in
    /// matching order, and the books do not cross. Every order belongs to a
    /// seat, still has base atoms to fill, and carries a sequence number of
    /// its own that the market has already handed out.
    pub open spec fn books_ok(self) -> bool {
        &&& self.bids.no_duplicates()
        &&& self.asks.no_duplicates()
        &&& forall|side: bool, k: int|
            0 <= k < self.book(side).len() ==> self.is_order(#[trigger] self.book(side)[k])
                && self.order_at(self.book(side)[k]).is_bid == side
        &&& forall|b: DataIndex| #[trigger]
            self.is_order(b) ==> self.book(self.order_at(b).is_bid).contains(b)
        &&& forall|side: bool, i: int, j: int|
            0 <= i < j < self.book(side).len() ==> order_before(
                side,
                self.order_at(#[trigger] self.book(side)[i]),
                self.order_at(#[trigger] self.book(side)[j]),
            )
        &&& forall|b: DataIndex| #[trigger]
            self.is_order(b) ==> {
                &&& self.is_seat(self.order_at(b).trader_index)
                &&& self.order_at(b).sequence_number < self.header.next_sequence_number
                &&& self.order_at(b).num_base_atoms > 0
            }
        &&& forall|a: DataIndex, b: DataIndex|
            #[trigger] self.is_order(a) && #[trigger] self.is_order(b) && a != b ==> self.order_at(
                a,
            ).sequence_number != self.order_at(b).sequence_number
        &&& self.bids.len() > 0 && self.asks.len() > 0 ==> self.order_at(
            self.bids[0],
        ).price.scaled() <= self.order_at(self.asks[0]).price.scaled()
    }

    /// The header's totals are the sums of the seats' long and short positions.
    pub open spec fn totals_ok(self) -> bool {
        &&& self.header.total_long_base_atoms == total_long(self.blocks)
        &&& self.header.total_short_base_atoms == total_short(self.blocks)
    }

    /// The invariant of the market.
    pub open spec fn wf(self) -> bool {
        &&& self.counts_ok()
        &&& self.seats_ok()
        &&& self.free_ok()
        &&& self.books_ok()
        &&& self.totals_ok()
    }

    /// `after` continues the sequence of `self`: it has handed out no fewer
    /// numbers, and each of its orders either rested in `self` under the
    /// number it has, or carries a number that `self` had not handed out yet.
    pub open spec fn sequence_continues(self, after: MarketView) -> bool {
        &&& after.header.next_sequence_number >= self.header.next_sequence_number
        &&& forall|b: DataIndex| #[trigger]
            after.is_order(b) ==> (self.is_order(b) && self.order_at(b).sequence_number
                == after.order_at(b).sequence_number) || after.order_at(b).sequence_number
                >= self.header.next_sequence_number
    }

    /// Block of the seat that `trader` owns, or `NIL`.
    pub open spec fn trader_index(self, trader: Seq<u8>) -> DataIndex {
        if exists|b: DataIndex| self.is_seat(b) && self.seat_at(b).trader@ == trader {
            choose|b: DataIndex| self.is_seat(b) && self.seat_at(b).trader@ == trader
        } else {
            NIL
        }
    }
}

/// The market: header, block pool and the ordered indices into the pool.
pub struct Market {
    pub(crate) header: MarketHeader,
    pub(crate) blocks: Vec<Block>,
    pub(crate) seats: Vec<DataIndex>,
    pub(crate) bids: Vec<DataIndex>,
    pub(crate) asks: Vec<DataIndex>,
    pub(crate) free: Ghost<Seq<DataIndex>>,
}

impl View for Market {
    type V = MarketView;

    open(crate) spec fn view(&self) -> MarketView {
        MarketView {
            header: self.header,
            blocks: self.blocks@,
            seats: self.seats@,
            bids: self.bids@,
            asks: self.asks@,
            free: self.free@,
        }
    }
}

impl Market {
    /// The invariant that every constructor establishes and every operation keeps.
    pub open spec fn wf(&self) -> bool {
        self@.wf()
    }
}

} // verus!
