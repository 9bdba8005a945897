//! The market as one string of bytes.
//!
//! The string is a header of 256 bytes followed by the blocks of the pool,
//! 80 bytes each. Numbers are little-endian, and every index is a block
//! index with `NIL` for "no block". Bytes that the layout does not name are
//! not read.
//!
//! The header holds, by offset: 0 a fixed number that marks a market, 8 and
//! 9 the decimals of base and quote, 16 and 48 the two mints, 80, 84 and 88
//! the first bid, the first ask and the first seat, 92 the head of the free
//! list, 96 the next sequence number, 104 the number of blocks, 112 and 120
//! the long and short totals, 128 the maintenance margin, 136 and 144 the
//! cached oracle price, 152 the time of the last funding crank and 160 the
//! cumulative funding.
//!
//! A block holds, by offset: 0 its role (0 free, 1 seat, 2 order) and 4 the
//! block that follows it in the list of its role. A seat goes on with 8 the
//! trader, 40 and 48 the two balances, 56 the position and 64 the cost
//! basis; an order with 8 its seat, 12 its last valid slot, 16 its sequence
//! number, 24 and 28 its price, 29 its side, 30 its type, 32 what it has
//! left to fill and 40 its spread.

use vstd::prelude::*;
use hypertree::DataIndex;
use crate::bytes::{
    bytes32, differs_only_at, le_u32, le_u64, put_bytes32, put_i32, put_i64, put_i8, put_u32,
    put_u64, put_u8, read_bytes32, read_i32, read_i64, read_i8, read_u32, read_u64, signed32,
    signed64, signed8, zeros,
};
use crate::error::MarketError;
use crate::price::Price;
use crate::state::{
    Block, ClaimedSeat, Identity, Market, MarketHeader, MarketView, OrderType, RestingOrder, NIL,
};

verus! {

/// Length of the header.
pub const HEADER_LEN: usize = 256;

/// Length of a block.
pub const BLOCK_LEN: usize = 80;

/// The number that opens the header of a market.
pub const MARKET_DISCRIMINANT: u64 = 0x4D41_524B_4554_0001;

/// Where block `index` starts.
pub open spec fn block_start(index: int) -> int {
    HEADER_LEN + index * BLOCK_LEN
}

/// The byte that stands for an order type.
pub open spec fn order_type_code(order_type: OrderType) -> u8 {
    match order_type {
        OrderType::Limit => 0,
        OrderType::ImmediateOrCancel => 1,
        OrderType::FillOrKill => 2,
        OrderType::PostOnly => 3,
        OrderType::Global => 4,
        OrderType::Reverse => 5,
    }
}

/// Whether the bytes at `at` hold `seat`.
pub open spec fn seat_encoded(bytes: Seq<u8>, at: int, seat: ClaimedSeat) -> bool {
    &&& bytes32(bytes, at + 8) == seat.trader@
    &&& le_u64(bytes, at + 40) == seat.base_withdrawable_balance
    &&& le_u64(bytes, at + 48) == seat.quote_withdrawable_balance
    &&& signed64(le_u64(bytes, at + 56)) == seat.position_size
    &&& le_u64(bytes, at + 64) == seat.quote_cost_basis
}

/// Whether the bytes at `at` hold `order`.
pub open spec fn order_encoded(bytes: Seq<u8>, at: int, order: RestingOrder) -> bool {
    &&& le_u32(bytes, at + 8) == order.trader_index
    &&& le_u32(bytes, at + 12) == order.last_valid_slot
    &&& le_u64(bytes, at + 16) == order.sequence_number
    &&& le_u32(bytes, at + 24) == order.price.mantissa
    &&& signed8(bytes[at + 28] as nat) == order.price.exponent
    &&& bytes[at + 29] == if order.is_bid {
        1u8
    } else {
        0u8
    }
    &&& bytes[at + 30] == order_type_code(order.order_type)
    &&& le_u64(bytes, at + 32) == order.num_base_atoms
    &&& le_u32(bytes, at + 40) == order.reverse_spread
}

/// Whether the 80 bytes at `at` hold `block`, followed in its list by `link`.
pub open spec fn block_encoded(bytes: Seq<u8>, at: int, block: Block, link: DataIndex) -> bool {
    &&& le_u32(bytes, at + 4) == link
    &&& match block {
        Block::Free { next } => bytes[at] == 0 && next == link,
        Block::Seat(seat) => bytes[at] == 1 && seat_encoded(bytes, at, seat),
        Block::Order(order) => bytes[at] == 2 && order_encoded(bytes, at, order),
    }
}

/// Whether the first 256 bytes hold `header`.
pub open spec fn header_encoded(bytes: Seq<u8>, header: MarketHeader) -> bool {
    &&& le_u64(bytes, 0) == MARKET_DISCRIMINANT
    &&& bytes[8] == header.base_mint_decimals
    &&& bytes[9] == header.quote_mint_decimals
    &&& bytes32(bytes, 16) == header.base_mint@
    &&& bytes32(bytes, 48) == header.quote_mint@
    &&& le_u32(bytes, 92) == header.free_list_head
    &&& le_u64(bytes, 96) == header.next_sequence_number
    &&& le_u64(bytes, 112) == header.total_long_base_atoms
    &&& le_u64(bytes, 120) == header.total_short_base_atoms
    &&& le_u64(bytes, 128) == header.maintenance_margin_bps
    &&& le_u64(bytes, 136) == header.oracle_price_mantissa
    &&& signed32(le_u32(bytes, 144)) == header.oracle_price_expo
    &&& signed64(le_u64(bytes, 152)) == header.last_funding_timestamp
    &&& signed64(le_u64(bytes, 160)) == header.cumulative_funding
}

/// The first block of a list, or `NIL`.
pub open spec fn first_of(list: Seq<DataIndex>) -> DataIndex {
    if list.len() > 0 {
        list[0]
    } else {
        NIL
    }
}

/// Whether `list` is the chain that starts at `start` and follows `links`
/// until `NIL`.
pub open spec fn is_chain(links: Seq<DataIndex>, start: DataIndex, list: Seq<DataIndex>) -> bool {
    &&& first_of(list) == start
    &&& forall|k: int| 0 <= k < list.len() ==> (#[trigger] list[k]) < links.len()
    &&& forall|k: int, l: int|
        0 <= k && l == k + 1 && l < list.len() ==> links[(#[trigger] list[k]) as int]
            == #[trigger] list[l]
    &&& list.len() > 0 ==> links[list.last() as int] == NIL
}

impl MarketView {
    /// The role that block `b` plays: 1 for a seat, 2 for a bid, 3 for an
    /// ask and 4 for a free block.
    pub open spec fn role_at(self, b: DataIndex) -> u8 {
        match self.blocks[b as int] {
            Block::Seat(_) => 1,
            Block::Order(order) => if order.is_bid {
                2
            } else {
                3
            },
            Block::Free { .. } => 4,
        }
    }

    /// The block that follows `b` in the list of its role, or `NIL`.
    pub open spec fn link_of(self, b: DataIndex) -> DataIndex {
        let list = self.listing(self.role_at(b));
        let at = list.index_of(b);
        if at + 1 < list.len() {
            list[at + 1]
        } else {
            NIL
        }
    }

    /// Whether `bytes` hold this market.
    pub open spec fn encoded_in(self, bytes: Seq<u8>) -> bool {
        &&& bytes.len() == HEADER_LEN + BLOCK_LEN * self.blocks.len()
        &&& header_encoded(bytes, self.header)
        &&& le_u32(bytes, 80) == first_of(self.bids)
        &&& le_u32(bytes, 84) == first_of(self.asks)
        &&& le_u32(bytes, 88) == first_of(self.seats)
        &&& le_u32(bytes, 104) == self.blocks.len()
        &&& forall|b: int|
            0 <= b < self.blocks.len() ==> block_encoded(
                bytes,
                block_start(b),
                #[trigger] self.blocks[b],
                self.link_of(b as DataIndex),
            )
    }
}

/// The order type that a byte stands for, if it stands for one.
fn order_type_of(code: u8) -> (r: Option<OrderType>)
    ensures
        match r {
            Some(order_type) => order_type_code(order_type) == code,
            None => forall|order_type: OrderType| #[trigger] order_type_code(order_type) != code,
        },
{
    if code == 0 {
        Some(OrderType::Limit)
    } else if code == 1 {
        Some(OrderType::ImmediateOrCancel)
    } else if code == 2 {
        Some(OrderType::FillOrKill)
    } else if code == 3 {
        Some(OrderType::PostOnly)
    } else if code == 4 {
        Some(OrderType::Global)
    } else if code == 5 {
        Some(OrderType::Reverse)
    } else {
        None
    }
}

/// Reads the block at `at` and the block that follows it in its list.
fn parse_block(data: &[u8], at: usize) -> (r: Option<(Block, DataIndex)>)
    requires
        at + BLOCK_LEN <= data@.len() <= usize::MAX,
    ensures
        match r {
            Some((block, link)) => block_encoded(data@, at as int, block, link),
            None => forall|block: Block, link: DataIndex| !#[trigger] block_encoded(
                data@,
                at as int,
                block,
                link,
            ),
        },
{
    let link: DataIndex = read_u32(data, at + 4);
    let tag: u8 = data[at];
    if tag == 0 {
        Some((Block::Free { next: link }, link))
    } else if tag == 1 {
        let seat = ClaimedSeat {
            trader: read_bytes32(data, at + 8),
            base_withdrawable_balance: read_u64(data, at + 40),
            quote_withdrawable_balance: read_u64(data, at + 48),
            position_size: read_i64(data, at + 56),
            quote_cost_basis: read_u64(data, at + 64),
        };
        Some((Block::Seat(seat), link))
    } else if tag == 2 {
        let side: u8 = data[at + 29];
        if side > 1 {
            return None;
        }
        let order_type: OrderType = match order_type_of(data[at + 30]) {
            Some(order_type) => order_type,
            None => {
                assert forall|block: Block, link: DataIndex| !#[trigger] block_encoded(
                    data@,
                    at as int,
                    block,
                    link,
                ) by {
                    if block is Order {
                        assert(order_type_code(block->Order_0.order_type) != data@[at + 30]);
                    }
                }
                return None;
            },
        };
        let order = RestingOrder {
            trader_index: read_u32(data, at + 8),
            sequence_number: read_u64(data, at + 16),
            price: Price::new(read_u32(data, at + 24), read_i8(data, at + 28)),
            num_base_atoms: read_u64(data, at + 32),
            is_bid: side == 1,
            order_type,
            last_valid_slot: read_u32(data, at + 12),
            reverse_spread: read_u32(data, at + 40),
        };
        Some((Block::Order(order), link))
    } else {
        None
    }
}

/// Reads the header.
fn parse_header(data: &[u8]) -> (r: Option<MarketHeader>)
    requires
        HEADER_LEN <= data@.len() <= usize::MAX,
    ensures
        match r {
            Some(header) => header_encoded(data@, header),
            None => forall|header: MarketHeader| !#[trigger] header_encoded(data@, header),
        },
{
    if read_u64(data, 0) != MARKET_DISCRIMINANT {
        return None;
    }
    Some(
        MarketHeader {
            base_mint: read_bytes32(data, 16),
            quote_mint: read_bytes32(data, 48),
            base_mint_decimals: data[8],
            quote_mint_decimals: data[9],
            free_list_head: read_u32(data, 92),
            next_sequence_number: read_u64(data, 96),
            total_long_base_atoms: read_u64(data, 112),
            total_short_base_atoms: read_u64(data, 120),
            maintenance_margin_bps: read_u64(data, 128),
            oracle_price_mantissa: read_u64(data, 136),
            oracle_price_expo: read_i32(data, 144),
            last_funding_timestamp: read_i64(data, 152),
            cumulative_funding: read_i64(data, 160),
        },
    )
}

/// The block that a walk from `start` along `links` reaches after `steps`
/// steps, or `NIL` once the walk has left the pool.
pub open spec fn nth_link(links: Seq<DataIndex>, start: DataIndex, steps: nat) -> DataIndex
    decreases steps,
{
    if steps == 0 {
        start
    } else {
        let before = nth_link(links, start, (steps - 1) as nat);
        if before < links.len() {
            links[before as int]
        } else {
            NIL
        }
    }
}

/// A chain is what the walk reaches, step by step, and the walk ends
/// where the chain does.
pub proof fn lemma_chain_follows(
    links: Seq<DataIndex>,
    start: DataIndex,
    list: Seq<DataIndex>,
    steps: nat,
)
    requires
        is_chain(links, start, list),
        steps <= list.len(),
    ensures
        nth_link(links, start, steps) == if steps < list.len() {
            list[steps as int]
        } else {
            NIL
        },
    decreases steps,
{
    if steps > 0 {
        lemma_chain_follows(links, start, list, (steps - 1) as nat);
        let before = list[steps - 1];
        assert(before < links.len());
        if steps < list.len() {
            assert(links[list[steps - 1] as int] == list[steps as int]);
        } else {
            assert(list.last() == list[steps - 1]);
        }
    }
}

/// There is at most one chain from a start.
pub proof fn lemma_chain_unique(
    links: Seq<DataIndex>,
    start: DataIndex,
    one: Seq<DataIndex>,
    other: Seq<DataIndex>,
)
    requires
        links.len() <= NIL,
        is_chain(links, start, one),
        is_chain(links, start, other),
    ensures
        one == other,
{
    if one.len() < other.len() {
        lemma_chain_follows(links, start, one, one.len());
        lemma_chain_follows(links, start, other, one.len());
        assert(other[one.len() as int] < links.len());
    } else if other.len() < one.len() {
        lemma_chain_follows(links, start, other, other.len());
        lemma_chain_follows(links, start, one, other.len());
        assert(one[other.len() as int] < links.len());
    } else {
        assert forall|k: int| 0 <= k < one.len() implies one[k] == other[k] by {
            lemma_chain_follows(links, start, one, k as nat);
            lemma_chain_follows(links, start, other, k as nat);
        }
        assert(one =~= other);
    }
}

/// Walks from `start` along `links` until `NIL`. There is no chain when the
/// walk leaves the pool or takes more steps than the pool has blocks.
fn walk(links: &Vec<DataIndex>, start: DataIndex) -> (r: Option<Vec<DataIndex>>)
    requires
        links@.len() <= NIL,
    ensures
        match r {
            Some(list) => is_chain(links@, start, list@) && list@.len() <= links@.len(),
            None => forall|list: Seq<DataIndex>| #[trigger]
                is_chain(links@, start, list) ==> list.len() > links@.len(),
        },
{
    let mut out: Vec<DataIndex> = Vec::new();
    let mut current: DataIndex = start;
    while current != NIL
        invariant
            links@.len() <= NIL,
            out@.len() <= links@.len(),
            current == nth_link(links@, start, out@.len()),
            forall|i: int|
                0 <= i < out@.len() ==> (#[trigger] out@[i]) == nth_link(links@, start, i as nat)
                    && out@[i] < links@.len(),
        decreases links@.len() - out@.len(),
    {
        if current as usize >= links.len() || out.len() >= links.len() {
            proof {
                let steps = out@.len();
                assert forall|list: Seq<DataIndex>| #[trigger]
                    is_chain(links@, start, list) implies list.len() > links@.len() by {
                    if list.len() <= links@.len() {
                        if list.len() <= steps {
                            lemma_chain_follows(links@, start, list, list.len());
                            if list.len() < steps {
                                assert(out@[list.len() as int] == nth_link(
                                    links@,
                                    start,
                                    list.len(),
                                ));
                            }
                        } else {
                            lemma_chain_follows(links@, start, list, steps);
                            assert(list[steps as int] < links@.len());
                        }
                    }
                }
            }
            return None;
        }
        let ghost steps = out@.len();
        out.push(current);
        current = links[current as usize];
        assert(nth_link(links@, start, (steps + 1) as nat) == current);
    }
    proof {
        assert forall|k: int, l: int|
            0 <= k && l == k + 1 && l < out@.len() implies links@[(#[trigger] out@[k]) as int]
            == #[trigger] out@[l] by {
            assert(out@[l] == nth_link(links@, start, l as nat));
            assert(out@[k] == nth_link(links@, start, k as nat));
        }
        if out@.len() > 0 {
            let last = out@.len() - 1;
            assert(out@[last] == nth_link(links@, start, last as nat));
            assert(nth_link(links@, start, out@.len()) == links@[out@[last] as int]);
        }
    }
    Some(out)
}

/// Identities with the same bytes are the same identity.
pub proof fn lemma_identity_equal(one: Identity, other: Identity)
    requires
        one@ == other@,
    ensures
        one == other,
{
    assert forall|i: int| 0 <= i < 32 implies one[i] == other[i] by {
        assert(one@[i] == other@[i]);
    }
    assert(one =~= other);
}

/// Bytes hold at most one block, with one successor.
pub proof fn lemma_block_unique(
    bytes: Seq<u8>,
    at: int,
    one: Block,
    link: DataIndex,
    other: Block,
    other_link: DataIndex,
)
    requires
        block_encoded(bytes, at, one, link),
        block_encoded(bytes, at, other, other_link),
    ensures
        one == other,
        link == other_link,
{
    match one {
        Block::Seat(seat) => {
            lemma_identity_equal(seat.trader, other->Seat_0.trader);
        },
        Block::Order(order) => {
            let twin = other->Order_0;
            assert(order.order_type == twin.order_type);
            assert(order.price == twin.price);
            assert(order == twin);
        },
        Block::Free { .. } => {},
    }
}

/// Bytes hold at most one header.
pub proof fn lemma_header_unique(bytes: Seq<u8>, one: MarketHeader, other: MarketHeader)
    requires
        header_encoded(bytes, one),
        header_encoded(bytes, other),
    ensures
        one == other,
{
    lemma_identity_equal(one.base_mint, other.base_mint);
    lemma_identity_equal(one.quote_mint, other.quote_mint);
}

impl MarketView {
    /// In a well-formed market the list of each role is the chain that
    /// starts at its first block and follows the successors of the blocks.
    pub proof fn lemma_listing_is_chain(self, links: Seq<DataIndex>, role: u8)
        requires
            self.wf(),
            1 <= role <= 4,
            links.len() == self.blocks.len(),
            forall|b: int|
                0 <= b < links.len() ==> #[trigger] links[b] == self.link_of(b as DataIndex),
        ensures
            is_chain(links, first_of(self.listing(role)), self.listing(role)),
            self.listing(role).len() <= links.len(),
    {
        self.lemma_clauses_are_the_invariant();
        let list = self.listing(role);
        assert forall|k: int| 0 <= k < list.len() implies (#[trigger] list[k]) < links.len()
            && self.role_at(list[k]) == role && list.index_of(list[k]) == k by {
            self.lemma_in_role_at(role, k);
            let found = list.index_of(list[k]);
            assert(0 <= found < list.len() && list[found] == list[k]);
        }
        assert forall|k: int, l: int| 0 <= k && l == k + 1 && l < list.len() implies links[(
        #[trigger] list[k]) as int] == #[trigger] list[l] by {
            assert(links[list[k] as int] == self.link_of(list[k]));
        }
        if list.len() > 0 {
            assert(list.last() == list[list.len() - 1]);
            assert(links[list.last() as int] == self.link_of(list.last()));
        }
    }
}

/// In a chain, a block is followed by what `links` says.
pub proof fn lemma_successor_in_chain(links: Seq<DataIndex>, list: Seq<DataIndex>, b: DataIndex)
    requires
        is_chain(links, first_of(list), list),
        list.contains(b),
    ensures
        links[b as int] == if list.index_of(b) + 1 < list.len() {
            list[list.index_of(b) + 1]
        } else {
            NIL
        },
{
    let at = list.index_of(b);
    assert(0 <= at < list.len() && list[at] == b);
    if at + 1 < list.len() {
        assert(links[list[at] as int] == list[at + 1]);
    } else {
        assert(list.last() == list[at]);
    }
}

impl MarketView {
    /// What bytes hold is fixed by the bytes: the header, the blocks, and
    /// the lists as chains from their first blocks.
    pub proof fn lemma_encoded_parts(
        self,
        bytes: Seq<u8>,
        header: MarketHeader,
        blocks: Seq<Block>,
        links: Seq<DataIndex>,
    )
        requires
            self.wf(),
            self.encoded_in(bytes),
            header_encoded(bytes, header),
            blocks.len() == links.len(),
            bytes.len() == HEADER_LEN + BLOCK_LEN * blocks.len(),
            forall|b: int|
                0 <= b < blocks.len() ==> block_encoded(
                    bytes,
                    block_start(b),
                    #[trigger] blocks[b],
                    links[b],
                ),
        ensures
            self.header == header,
            self.blocks == blocks,
            is_chain(links, le_u32(bytes, 80) as DataIndex, self.bids),
            is_chain(links, le_u32(bytes, 84) as DataIndex, self.asks),
            is_chain(links, le_u32(bytes, 88) as DataIndex, self.seats),
            is_chain(links, header.free_list_head, self.free),
            self.bids.len() <= links.len(),
            self.asks.len() <= links.len(),
            self.seats.len() <= links.len(),
            self.free.len() <= links.len(),
    {
        lemma_header_unique(bytes, self.header, header);
        assert(self.blocks.len() == blocks.len());
        assert forall|b: int| 0 <= b < blocks.len() implies self.blocks[b] == blocks[b]
            && #[trigger] links[b] == self.link_of(b as DataIndex) by {
            assert(block_encoded(bytes, block_start(b), blocks[b], links[b]));
            assert(block_encoded(
                bytes,
                block_start(b),
                self.blocks[b],
                self.link_of(b as DataIndex),
            ));
            lemma_block_unique(
                bytes,
                block_start(b),
                self.blocks[b],
                self.link_of(b as DataIndex),
                blocks[b],
                links[b],
            );
        }
        assert(self.blocks =~= blocks);
        self.lemma_listing_is_chain(links, 1);
        self.lemma_listing_is_chain(links, 2);
        self.lemma_listing_is_chain(links, 3);
        self.lemma_listing_is_chain(links, 4);
    }

    /// In a well-formed market whose lists are chains along `links`, every
    /// block is followed by what `links` says.
    pub proof fn lemma_links_are_successors(self, links: Seq<DataIndex>, b: DataIndex)
        requires
            self.wf(),
            links.len() == self.blocks.len(),
            b < self.blocks.len(),
            is_chain(links, first_of(self.seats), self.seats),
            is_chain(links, first_of(self.bids), self.bids),
            is_chain(links, first_of(self.asks), self.asks),
            is_chain(links, first_of(self.free), self.free),
        ensures
            self.link_of(b) == links[b as int],
    {
        match self.blocks[b as int] {
            Block::Seat(_) => {
                assert(self.is_seat(b));
                lemma_successor_in_chain(links, self.seats, b);
            },
            Block::Order(order) => {
                assert(self.is_order(b));
                assert(self.book(order.is_bid).contains(b));
                if order.is_bid {
                    lemma_successor_in_chain(links, self.bids, b);
                } else {
                    lemma_successor_in_chain(links, self.asks, b);
                }
            },
            Block::Free { .. } => {
                assert(self.is_free(b));
                lemma_successor_in_chain(links, self.free, b);
            },
        }
    }

    /// Bytes hold at most one well-formed market.
    pub proof fn theorem_encoding_is_unique(self, other: MarketView, bytes: Seq<u8>)
        requires
            self.wf(),
            other.wf(),
            self.encoded_in(bytes),
            other.encoded_in(bytes),
        ensures
            self == other,
    {
        let links = Seq::new(self.blocks.len(), |b: int| self.link_of(b as DataIndex));
        self.lemma_encoded_parts(bytes, self.header, self.blocks, links);
        other.lemma_encoded_parts(bytes, self.header, self.blocks, links);
        lemma_chain_unique(links, le_u32(bytes, 80) as DataIndex, self.bids, other.bids);
        lemma_chain_unique(links, le_u32(bytes, 84) as DataIndex, self.asks, other.asks);
        lemma_chain_unique(links, le_u32(bytes, 88) as DataIndex, self.seats, other.seats);
        lemma_chain_unique(links, self.header.free_list_head, self.free, other.free);
    }
}

/// Reads `count` blocks and, for each, the block that follows it in its
/// list; or names the first block that cannot be read.
fn parse_pool(data: &[u8], count: usize) -> (r: Result<(Vec<Block>, Vec<DataIndex>), usize>)
    requires
        data@.len() == HEADER_LEN + BLOCK_LEN * count,
        data@.len() <= usize::MAX,
    ensures
        match r {
            Ok((blocks, links)) => {
                &&& blocks@.len() == count
                &&& links@.len() == count
                &&& forall|b: int|
                    0 <= b < count ==> block_encoded(
                        data@,
                        block_start(b),
                        #[trigger] blocks@[b],
                        links@[b],
                    )
            },
            Err(b) => b < count && forall|block: Block, link: DataIndex|
                !#[trigger] block_encoded(data@, block_start(b as int), block, link),
        },
{
    let mut blocks: Vec<Block> = Vec::new();
    let mut links: Vec<DataIndex> = Vec::new();
    let mut i: usize = 0;
    while i < count
        invariant
            i <= count,
            data@.len() == HEADER_LEN + BLOCK_LEN * count,
            data@.len() <= usize::MAX,
            blocks@.len() == i,
            links@.len() == i,
            forall|b: int|
                0 <= b < i ==> block_encoded(
                    data@,
                    block_start(b),
                    #[trigger] blocks@[b],
                    links@[b],
                ),
        decreases count - i,
    {
        match parse_block(data, HEADER_LEN + i * BLOCK_LEN) {
            Some((block, link)) => {
                blocks.push(block);
                links.push(link);
            },
            None => {
                return Err(i);
            },
        }
        i = i + 1;
    }
    Ok((blocks, links))
}

/// Whether `v` is made of the given parts: the header, the blocks, and the
/// lists as chains along `links` from their first blocks.
pub open spec fn made_of(
    v: MarketView,
    header: MarketHeader,
    blocks: Seq<Block>,
    links: Seq<DataIndex>,
    bids_root: DataIndex,
    asks_root: DataIndex,
    seats_root: DataIndex,
) -> bool {
    &&& v.header == header
    &&& v.blocks == blocks
    &&& is_chain(links, bids_root, v.bids)
    &&& is_chain(links, asks_root, v.asks)
    &&& is_chain(links, seats_root, v.seats)
    &&& is_chain(links, header.free_list_head, v.free)
    &&& v.bids.len() <= links.len()
    &&& v.asks.len() <= links.len()
    &&& v.seats.len() <= links.len()
    &&& v.free.len() <= links.len()
}

/// Puts a market together from its parts, if they make a well-formed one.
fn assemble(
    header: MarketHeader,
    blocks: Vec<Block>,
    links: &Vec<DataIndex>,
    bids_root: DataIndex,
    asks_root: DataIndex,
    seats_root: DataIndex,
) -> (r: Option<Market>)
    requires
        links@.len() == blocks@.len(),
        links@.len() <= NIL,
    ensures
        match r {
            Some(market) => market.wf() && made_of(
                market@,
                header,
                blocks@,
                links@,
                bids_root,
                asks_root,
                seats_root,
            ),
            None => forall|v: MarketView|
                !(v.wf() && #[trigger] made_of(
                    v,
                    header,
                    blocks@,
                    links@,
                    bids_root,
                    asks_root,
                    seats_root,
                )),
        },
{
    let bids: Vec<DataIndex> = match walk(links, bids_root) {
        Some(list) => list,
        None => {
            return None;
        },
    };
    let asks: Vec<DataIndex> = match walk(links, asks_root) {
        Some(list) => list,
        None => {
            return None;
        },
    };
    let seats: Vec<DataIndex> = match walk(links, seats_root) {
        Some(list) => list,
        None => {
            return None;
        },
    };
    let free: Vec<DataIndex> = match walk(links, header.free_list_head) {
        Some(list) => list,
        None => {
            return None;
        },
    };
    let ghost parts = blocks@;
    let market = Market { header, blocks, seats, bids, asks, free: Ghost(free@) };
    if !market.is_well_formed(&free) {
        proof {
            assert forall|v: MarketView|
                !(v.wf() && #[trigger] made_of(
                    v,
                    header,
                    parts,
                    links@,
                    bids_root,
                    asks_root,
                    seats_root,
                )) by {
                if v.wf() && made_of(v, header, parts, links@, bids_root, asks_root, seats_root) {
                    lemma_chain_unique(links@, bids_root, v.bids, market@.bids);
                    lemma_chain_unique(links@, asks_root, v.asks, market@.asks);
                    lemma_chain_unique(links@, seats_root, v.seats, market@.seats);
                    lemma_chain_unique(links@, header.free_list_head, v.free, market@.free);
                    assert(v == market@);
                }
            }
        }
        return None;
    }
    Some(market)
}

/// Whether `bytes` hold a well-formed market.
pub open spec fn holds_market(bytes: Seq<u8>) -> bool {
    exists|v: MarketView| v.wf() && #[trigger] v.encoded_in(bytes)
}

/// Bytes of the wrong length, or with the wrong number of blocks in the
/// header, hold no market.
proof fn lemma_wrong_shape(bytes: Seq<u8>)
    requires
        bytes.len() < HEADER_LEN || (bytes.len() - HEADER_LEN) % (BLOCK_LEN as int) != 0 || (
        bytes.len() - HEADER_LEN) / (BLOCK_LEN as int) > NIL || le_u32(bytes, 104) != (bytes.len()
            - HEADER_LEN) / (BLOCK_LEN as int),
    ensures
        !holds_market(bytes),
{
    if holds_market(bytes) {
        let v = choose|v: MarketView| v.wf() && #[trigger] v.encoded_in(bytes);
        let count = v.blocks.len() as int;
        assert(bytes.len() == 256 + 80 * count);
        assert((80 * count) % 80 == 0) by (nonlinear_arith);
        assert((80 * count) / 80 == count) by (nonlinear_arith);
    }
}

/// Bytes whose header cannot be read hold no market.
proof fn lemma_wrong_header(bytes: Seq<u8>)
    requires
        forall|header: MarketHeader| !#[trigger] header_encoded(bytes, header),
    ensures
        !holds_market(bytes),
{
    if holds_market(bytes) {
        let v = choose|v: MarketView| v.wf() && #[trigger] v.encoded_in(bytes);
        assert(header_encoded(bytes, v.header));
    }
}

/// Bytes with a block that cannot be read hold no market.
proof fn lemma_wrong_block(bytes: Seq<u8>, b: int)
    requires
        0 <= b,
        bytes.len() >= HEADER_LEN + BLOCK_LEN * (b + 1),
        forall|block: Block, link: DataIndex|
            !#[trigger] block_encoded(bytes, block_start(b), block, link),
    ensures
        !holds_market(bytes),
{
    if holds_market(bytes) {
        let v = choose|v: MarketView| v.wf() && #[trigger] v.encoded_in(bytes);
        assert(b < v.blocks.len());
        assert(block_encoded(bytes, block_start(b), v.blocks[b], v.link_of(b as DataIndex)));
    }
}

/// Bytes whose parts make no well-formed market hold none.
proof fn lemma_wrong_parts(
    bytes: Seq<u8>,
    header: MarketHeader,
    blocks: Seq<Block>,
    links: Seq<DataIndex>,
)
    requires
        header_encoded(bytes, header),
        blocks.len() == links.len(),
        bytes.len() == HEADER_LEN + BLOCK_LEN * blocks.len(),
        forall|b: int|
            0 <= b < blocks.len() ==> block_encoded(
                bytes,
                block_start(b),
                #[trigger] blocks[b],
                links[b],
            ),
        forall|v: MarketView|
            !(v.wf() && #[trigger] made_of(
                v,
                header,
                blocks,
                links,
                le_u32(bytes, 80) as DataIndex,
                le_u32(bytes, 84) as DataIndex,
                le_u32(bytes, 88) as DataIndex,
            )),
    ensures
        !holds_market(bytes),
{
    if holds_market(bytes) {
        let v = choose|v: MarketView| v.wf() && #[trigger] v.encoded_in(bytes);
        v.lemma_encoded_parts(bytes, header, blocks, links);
        assert(made_of(
            v,
            header,
            blocks,
            links,
            le_u32(bytes, 80) as DataIndex,
            le_u32(bytes, 84) as DataIndex,
            le_u32(bytes, 88) as DataIndex,
        ));
    }
}

/// A well-formed market made of the parts that bytes hold is held by the
/// bytes.
proof fn lemma_right_parts(
    v: MarketView,
    bytes: Seq<u8>,
    links: Seq<DataIndex>,
)
    requires
        v.wf(),
        header_encoded(bytes, v.header),
        v.blocks.len() == links.len(),
        bytes.len() == HEADER_LEN + BLOCK_LEN * v.blocks.len(),
        le_u32(bytes, 104) == v.blocks.len(),
        forall|b: int|
            0 <= b < v.blocks.len() ==> block_encoded(
                bytes,
                block_start(b),
                #[trigger] v.blocks[b],
                links[b],
            ),
        made_of(
            v,
            v.header,
            v.blocks,
            links,
            le_u32(bytes, 80) as DataIndex,
            le_u32(bytes, 84) as DataIndex,
            le_u32(bytes, 88) as DataIndex,
        ),
    ensures
        v.encoded_in(bytes),
{
    assert forall|b: int| 0 <= b < v.blocks.len() implies block_encoded(
        bytes,
        block_start(b),
        #[trigger] v.blocks[b],
        v.link_of(b as DataIndex),
    ) by {
        v.lemma_links_are_successors(links, b as DataIndex);
    }
}

impl Market {
    /// Reads a market from bytes.
    ///
    /// Fails with `InvalidArgument` exactly when the bytes hold no
    /// well-formed market.
    pub fn from_bytes(data: &[u8]) -> (r: Result<Market, MarketError>)
        ensures
            match r {
                Ok(market) => market.wf() && market@.encoded_in(data@),
                Err(e) => e == MarketError::InvalidArgument && !holds_market(data@),
            },
    {
        let len: usize = data.len();
        if len < HEADER_LEN {
            proof {
                lemma_wrong_shape(data@);
            }
            return Err(MarketError::InvalidArgument);
        }
        let header: MarketHeader = match parse_header(data) {
            Some(header) => header,
            None => {
                proof {
                    lemma_wrong_header(data@);
                }
                return Err(MarketError::InvalidArgument);
            },
        };
        let body: usize = len - HEADER_LEN;
        if body % BLOCK_LEN != 0 {
            proof {
                lemma_wrong_shape(data@);
            }
            return Err(MarketError::InvalidArgument);
        }
        let count: usize = body / BLOCK_LEN;
        if count > NIL as usize {
            proof {
                lemma_wrong_shape(data@);
            }
            return Err(MarketError::InvalidArgument);
        }
        if read_u32(data, 104) as usize != count {
            proof {
                lemma_wrong_shape(data@);
            }
            return Err(MarketError::InvalidArgument);
        }
        let (blocks, links) = match parse_pool(data, count) {
            Ok(pool) => pool,
            Err(b) => {
                proof {
                    lemma_wrong_block(data@, b as int);
                }
                return Err(MarketError::InvalidArgument);
            },
        };
        let ghost parts = blocks@;
        match assemble(
            header,
            blocks,
            &links,
            read_u32(data, 80),
            read_u32(data, 84),
            read_u32(data, 88),
        ) {
            Some(market) => {
                proof {
                    lemma_right_parts(market@, data@, links@);
                }
                Ok(market)
            },
            None => {
                proof {
                    lemma_wrong_parts(data@, header, parts, links@);
                }
                Err(MarketError::InvalidArgument)
            },
        }
    }
}

/// Thirty-two bytes away from a change are the same after it.
proof fn lemma_bytes32_kept(before: Seq<u8>, after: Seq<u8>, at: int, count: int, here: int)
    requires
        differs_only_at(before, after, at, count),
        0 <= here,
        here + 32 <= before.len(),
        here + 32 <= at || at + count <= here,
    ensures
        bytes32(after, here) == bytes32(before, here),
{
    assert forall|j: int| 0 <= j < 32 implies bytes32(after, here)[j] == bytes32(before, here)[j] by {
        assert(after[here + j] == before[here + j]);
    }
    assert(bytes32(after, here) =~= bytes32(before, here));
}

/// A block away from a change is held by the bytes after it as before.
proof fn lemma_block_kept(
    before: Seq<u8>,
    after: Seq<u8>,
    at: int,
    count: int,
    here: int,
    block: Block,
    link: DataIndex,
)
    requires
        differs_only_at(before, after, at, count),
        0 <= here,
        here + BLOCK_LEN <= before.len(),
        here + BLOCK_LEN <= at || at + count <= here,
        block_encoded(before, here, block, link),
    ensures
        block_encoded(after, here, block, link),
{
    assert forall|j: int| here <= j < here + 80 implies #[trigger] after[j] == before[j] by {}
    if block is Seat {
        lemma_bytes32_kept(before, after, at, count, here + 8);
    }
}

/// The header is held by the bytes after a change behind it as before.
proof fn lemma_header_kept(
    before: Seq<u8>,
    after: Seq<u8>,
    at: int,
    count: int,
    header: MarketHeader,
)
    requires
        differs_only_at(before, after, at, count),
        HEADER_LEN <= before.len(),
        HEADER_LEN <= at,
        header_encoded(before, header),
    ensures
        header_encoded(after, header),
        le_u32(after, 80) == le_u32(before, 80),
        le_u32(after, 84) == le_u32(before, 84),
        le_u32(after, 88) == le_u32(before, 88),
        le_u32(after, 104) == le_u32(before, 104),
{
    assert forall|j: int| 0 <= j < 256 implies #[trigger] after[j] == before[j] by {}
    lemma_bytes32_kept(before, after, at, count, 16);
    lemma_bytes32_kept(before, after, at, count, 48);
}

/// Writes the header and the first blocks of the three lists.
fn write_header(
    out: &mut Vec<u8>,
    header: &MarketHeader,
    bids_root: DataIndex,
    asks_root: DataIndex,
    seats_root: DataIndex,
    count: u32,
)
    requires
        HEADER_LEN <= old(out)@.len(),
    ensures
        differs_only_at(old(out)@, final(out)@, 0, HEADER_LEN as int),
        header_encoded(final(out)@, *header),
        le_u32(final(out)@, 80) == bids_root,
        le_u32(final(out)@, 84) == asks_root,
        le_u32(final(out)@, 88) == seats_root,
        le_u32(final(out)@, 104) == count,
{
    put_u64(out, 0, MARKET_DISCRIMINANT);
    put_u8(out, 8, header.base_mint_decimals);
    put_u8(out, 9, header.quote_mint_decimals);
    put_u32(out, 80, bids_root);
    put_u32(out, 84, asks_root);
    put_u32(out, 88, seats_root);
    put_u32(out, 92, header.free_list_head);
    put_u64(out, 96, header.next_sequence_number);
    put_u32(out, 104, count);
    put_u64(out, 112, header.total_long_base_atoms);
    put_u64(out, 120, header.total_short_base_atoms);
    put_u64(out, 128, header.maintenance_margin_bps);
    put_u64(out, 136, header.oracle_price_mantissa);
    put_i32(out, 144, header.oracle_price_expo);
    put_i64(out, 152, header.last_funding_timestamp);
    put_i64(out, 160, header.cumulative_funding);
    put_bytes32(out, 16, &header.base_mint);
    let ghost middle = out@;
    put_bytes32(out, 48, &header.quote_mint);
    proof {
        lemma_bytes32_kept(middle, out@, 48, 32, 16);
    }
}

/// The byte that stands for an order type.
fn code_of(order_type: OrderType) -> (code: u8)
    ensures
        code == order_type_code(order_type),
{
    match order_type {
        OrderType::Limit => 0,
        OrderType::ImmediateOrCancel => 1,
        OrderType::FillOrKill => 2,
        OrderType::PostOnly => 3,
        OrderType::Global => 4,
        OrderType::Reverse => 5,
    }
}

/// Writes a seat into the block at `at`.
fn write_seat(out: &mut Vec<u8>, at: usize, seat: &ClaimedSeat)
    requires
        at + BLOCK_LEN <= old(out)@.len(),
    ensures
        differs_only_at(old(out)@, final(out)@, at + 8, 72),
        seat_encoded(final(out)@, at as int, *seat),
{
    let _len: usize = out.len();
    put_u64(out, at + 40, seat.base_withdrawable_balance);
    put_u64(out, at + 48, seat.quote_withdrawable_balance);
    put_i64(out, at + 56, seat.position_size);
    put_u64(out, at + 64, seat.quote_cost_basis);
    put_bytes32(out, at + 8, &seat.trader);
}

/// Writes the first half of an order into the block at `at`.
fn write_order_keys(out: &mut Vec<u8>, at: usize, order: &RestingOrder)
    requires
        at + BLOCK_LEN <= old(out)@.len(),
    ensures
        differs_only_at(old(out)@, final(out)@, at + 8, 20),
        le_u32(final(out)@, at + 8) == order.trader_index,
        le_u32(final(out)@, at + 12) == order.last_valid_slot,
        le_u64(final(out)@, at + 16) == order.sequence_number,
        le_u32(final(out)@, at + 24) == order.price.mantissa,
{
    let _len: usize = out.len();
    put_u32(out, at + 8, order.trader_index);
    put_u32(out, at + 12, order.last_valid_slot);
    put_u64(out, at + 16, order.sequence_number);
    put_u32(out, at + 24, order.price.mantissa);
}

/// Writes an order into the block at `at`.
fn write_order(out: &mut Vec<u8>, at: usize, order: &RestingOrder)
    requires
        at + BLOCK_LEN <= old(out)@.len(),
    ensures
        differs_only_at(old(out)@, final(out)@, at + 8, 72),
        order_encoded(final(out)@, at as int, *order),
{
    let _len: usize = out.len();
    write_order_keys(out, at, order);
    put_i8(out, at + 28, order.price.exponent);
    put_u8(
        out,
        at + 29,
        if order.is_bid {
            1
        } else {
            0
        },
    );
    put_u8(out, at + 30, code_of(order.order_type));
    put_u64(out, at + 32, order.num_base_atoms);
    put_u32(out, at + 40, order.reverse_spread);
}

/// Writes a block at `at`, followed in its list by `link`.
fn write_block(out: &mut Vec<u8>, at: usize, block: &Block, link: DataIndex)
    requires
        at + BLOCK_LEN <= old(out)@.len(),
        *block is Free ==> block->next == link,
    ensures
        differs_only_at(old(out)@, final(out)@, at as int, BLOCK_LEN as int),
        block_encoded(final(out)@, at as int, *block, link),
{
    let _len: usize = out.len();
    put_u32(out, at + 4, link);
    match block {
        Block::Free { .. } => {
            put_u8(out, at, 0);
        },
        Block::Seat(seat) => {
            put_u8(out, at, 1);
            write_seat(out, at, seat);
        },
        Block::Order(order) => {
            put_u8(out, at, 2);
            write_order(out, at, order);
        },
    }
}

impl Market {
    /// Sets, for every block of `list`, the block that follows it.
    fn link_list(list: &Vec<DataIndex>, links: &mut Vec<DataIndex>)
        requires
            list@.no_duplicates(),
            forall|k: int| 0 <= k < list@.len() ==> (#[trigger] list@[k]) < old(links)@.len(),
        ensures
            final(links)@.len() == old(links)@.len(),
            is_chain(final(links)@, first_of(list@), list@),
            forall|b: int|
                0 <= b < old(links)@.len() && !list@.contains(b as DataIndex) ==> #[trigger] final(links)@[b] == old(links)@[b],
    {
        let mut k: usize = 0;
        while k < list.len()
            invariant
                k <= list.len(),
                links@.len() == old(links)@.len(),
                list@.no_duplicates(),
                forall|j: int| 0 <= j < list@.len() ==> (#[trigger] list@[j]) < links@.len(),
                forall|j: int|
                    0 <= j < k ==> links@[(#[trigger] list@[j]) as int] == if j + 1 < list@.len() {
                        list@[j + 1]
                    } else {
                        NIL
                    },
                forall|b: int|
                    0 <= b < links@.len() && !list@.contains(b as DataIndex) ==> #[trigger] links@[b]
                        == old(links)@[b],
            decreases list.len() - k,
        {
            let next: DataIndex = if k + 1 < list.len() {
                list[k + 1]
            } else {
                NIL
            };
            let ghost before = links@;
            links.set(list[k] as usize, next);
            proof {
                assert forall|j: int| 0 <= j < k + 1 implies links@[(#[trigger] list@[j]) as int]
                    == if j + 1 < list@.len() {
                    list@[j + 1]
                } else {
                    NIL
                } by {
                    if j < k {
                        assert(list@[j] != list@[k as int]);
                    }
                }
                assert forall|b: int|
                    0 <= b < links@.len() && !list@.contains(
                        b as DataIndex,
                    ) implies #[trigger] links@[b] == old(links)@[b] by {
                    assert(list@[k as int] != b as DataIndex);
                    assert(before[b] == old(links)@[b]);
                }
            }
            k = k + 1;
        }
        proof {
            assert forall|a: int, l: int|
                0 <= a && l == a + 1 && l < list@.len() implies links@[(#[trigger] list@[a]) as int]
                == #[trigger] list@[l] by {}
            if list@.len() > 0 {
                assert(list@.last() == list@[list@.len() - 1]);
            }
        }
    }

    /// The first block of a list, or `NIL`.
    fn first(list: &Vec<DataIndex>) -> (index: DataIndex)
        ensures
            index == first_of(list@),
    {
        if list.len() > 0 {
            list[0]
        } else {
            NIL
        }
    }

    /// For every block, the block that follows it in the list of its role.
    fn successors(&self) -> (links: Vec<DataIndex>)
        requires
            self.wf(),
        ensures
            links@.len() == self@.blocks.len(),
            forall|b: int|
                0 <= b < links@.len() ==> #[trigger] links@[b] == self@.link_of(b as DataIndex),
            forall|b: int|
                0 <= b < links@.len() && self@.blocks[b] is Free ==> #[trigger] links@[b]
                    == self@.blocks[b]->next,
    {
        let mut links: Vec<DataIndex> = Vec::new();
        let mut b: usize = 0;
        while b < self.blocks.len()
            invariant
                b <= self.blocks.len(),
                links@.len() == b,
                forall|c: int|
                    0 <= c < b && self@.blocks[c] is Free ==> #[trigger] links@[c]
                        == self@.blocks[c]->next,
            decreases self.blocks.len() - b,
        {
            let link: DataIndex = match self.blocks[b] {
                Block::Free { next } => next,
                _ => NIL,
            };
            links.push(link);
            b = b + 1;
        }
        let ghost free_links = links@;
        proof {
            assert forall|k: int| 0 <= k < self@.free.len() implies (#[trigger] self@.free[k])
                < links@.len() && links@[self@.free[k] as int] == self@.free_next(k) by {
                assert(self@.is_free(self@.free[k]));
                assert(self@.blocks[self@.free[k] as int] == Block::Free {
                    next: self@.free_next(k),
                });
            }
            assert(is_chain(links@, first_of(self@.free), self@.free)) by {
                if self@.free.len() > 0 {
                    assert(self@.free.last() == self@.free[self@.free.len() - 1]);
                }
            }
            assert forall|k: int| 0 <= k < self@.seats.len() implies (#[trigger] self@.seats[k])
                < links@.len() by {
                assert(self@.is_seat(self@.seats[k]));
            }
            assert forall|k: int| 0 <= k < self@.bids.len() implies (#[trigger] self@.bids[k])
                < links@.len() by {
                assert(self@.is_order(self@.book(true)[k]));
            }
            assert forall|k: int| 0 <= k < self@.asks.len() implies (#[trigger] self@.asks[k])
                < links@.len() by {
                assert(self@.is_order(self@.book(false)[k]));
            }
        }
        Self::link_list(&self.seats, &mut links);
        let ghost seat_links = links@;
        proof {
            assert forall|k: int| 0 <= k < self@.free.len() implies seat_links[(
            #[trigger] self@.free[k]) as int] == free_links[self@.free[k] as int] by {
                assert(self@.is_free(self@.free[k]));
                if self@.seats.contains(self@.free[k]) {
                    let j = choose|j: int|
                        0 <= j < self@.seats.len() && self@.seats[j] == self@.free[k];
                    assert(self@.is_seat(self@.seats[j]));
                }
            }
            lemma_chain_kept(free_links, seat_links, first_of(self@.free), self@.free);
        }
        Self::link_list(&self.bids, &mut links);
        let ghost bid_links = links@;
        proof {
            assert forall|k: int| 0 <= k < self@.free.len() implies bid_links[(
            #[trigger] self@.free[k]) as int] == seat_links[self@.free[k] as int] by {
                assert(self@.is_free(self@.free[k]));
                if self@.bids.contains(self@.free[k]) {
                    let j = choose|j: int|
                        0 <= j < self@.bids.len() && self@.bids[j] == self@.free[k];
                    assert(self@.is_order(self@.book(true)[j]));
                }
            }
            assert forall|k: int| 0 <= k < self@.seats.len() implies bid_links[(
            #[trigger] self@.seats[k]) as int] == seat_links[self@.seats[k] as int] by {
                assert(self@.is_seat(self@.seats[k]));
                if self@.bids.contains(self@.seats[k]) {
                    let j = choose|j: int|
                        0 <= j < self@.bids.len() && self@.bids[j] == self@.seats[k];
                    assert(self@.is_order(self@.book(true)[j]));
                }
            }
            lemma_chain_kept(seat_links, bid_links, first_of(self@.free), self@.free);
            lemma_chain_kept(seat_links, bid_links, first_of(self@.seats), self@.seats);
        }
        Self::link_list(&self.asks, &mut links);
        proof {
            assert forall|k: int| 0 <= k < self@.free.len() implies links@[(
            #[trigger] self@.free[k]) as int] == bid_links[self@.free[k] as int] by {
                assert(self@.is_free(self@.free[k]));
                if self@.asks.contains(self@.free[k]) {
                    let j = choose|j: int|
                        0 <= j < self@.asks.len() && self@.asks[j] == self@.free[k];
                    assert(self@.is_order(self@.book(false)[j]));
                }
            }
            assert forall|k: int| 0 <= k < self@.seats.len() implies links@[(
            #[trigger] self@.seats[k]) as int] == bid_links[self@.seats[k] as int] by {
                assert(self@.is_seat(self@.seats[k]));
                if self@.asks.contains(self@.seats[k]) {
                    let j = choose|j: int|
                        0 <= j < self@.asks.len() && self@.asks[j] == self@.seats[k];
                    assert(self@.is_order(self@.book(false)[j]));
                }
            }
            assert forall|k: int| 0 <= k < self@.bids.len() implies links@[(
            #[trigger] self@.bids[k]) as int] == bid_links[self@.bids[k] as int] by {
                assert(self@.is_order(self@.book(true)[k]));
                if self@.asks.contains(self@.bids[k]) {
                    let j = choose|j: int|
                        0 <= j < self@.asks.len() && self@.asks[j] == self@.bids[k];
                    assert(self@.is_order(self@.book(false)[j]));
                }
            }
            lemma_chain_kept(bid_links, links@, first_of(self@.free), self@.free);
            lemma_chain_kept(bid_links, links@, first_of(self@.seats), self@.seats);
            lemma_chain_kept(bid_links, links@, first_of(self@.bids), self@.bids);
            assert forall|c: int| 0 <= c < links@.len() implies #[trigger] links@[c]
                == self@.link_of(c as DataIndex) by {
                self@.lemma_links_are_successors(links@, c as DataIndex);
            }
            assert forall|c: int|
                0 <= c < links@.len() && self@.blocks[c] is Free implies #[trigger] links@[c]
                == self@.blocks[c]->next by {
                assert(self@.is_free(c as DataIndex));
                assert(self@.free.contains(c as DataIndex));
                let k = choose|k: int| 0 <= k < self@.free.len() && self@.free[k] == c as DataIndex;
                assert(links@[self@.free[k] as int] == bid_links[self@.free[k] as int]);
                assert(bid_links[self@.free[k] as int] == seat_links[self@.free[k] as int]);
                assert(seat_links[self@.free[k] as int] == free_links[self@.free[k] as int]);
            }
        }
        links
    }

    /// The market as bytes.
    ///
    /// Fails with `Overflow` when the bytes are more than this machine can
    /// address.
    pub fn to_bytes(&self) -> (r: Result<Vec<u8>, MarketError>)
        requires
            self.wf(),
        ensures
            match r {
                Ok(bytes) => self@.encoded_in(bytes@),
                Err(e) => e == MarketError::Overflow && HEADER_LEN + BLOCK_LEN
                    * self@.blocks.len() > usize::MAX,
            },
    {
        let count: usize = self.blocks.len();
        let body: usize = match count.checked_mul(BLOCK_LEN) {
            Some(body) => body,
            None => {
                return Err(MarketError::Overflow);
            },
        };
        let total: usize = match body.checked_add(HEADER_LEN) {
            Some(total) => total,
            None => {
                return Err(MarketError::Overflow);
            },
        };
        let links: Vec<DataIndex> = self.successors();
        let mut out: Vec<u8> = zeros(total);
        write_header(
            &mut out,
            &self.header,
            Self::first(&self.bids),
            Self::first(&self.asks),
            Self::first(&self.seats),
            count as u32,
        );
        let mut b: usize = 0;
        while b < count
            invariant
                b <= count,
                count == self@.blocks.len(),
                links@.len() == count,
                out@.len() == HEADER_LEN + BLOCK_LEN * count,
                out@.len() <= usize::MAX,
                header_encoded(out@, self@.header),
                le_u32(out@, 80) == first_of(self@.bids),
                le_u32(out@, 84) == first_of(self@.asks),
                le_u32(out@, 88) == first_of(self@.seats),
                le_u32(out@, 104) == count,
                forall|c: int|
                    0 <= c < links@.len() && self@.blocks[c] is Free ==> #[trigger] links@[c]
                        == self@.blocks[c]->next,
                forall|c: int|
                    0 <= c < b ==> block_encoded(
                        out@,
                        block_start(c),
                        #[trigger] self@.blocks[c],
                        links@[c],
                    ),
            decreases count - b,
        {
            let ghost before = out@;
            let at: usize = HEADER_LEN + b * BLOCK_LEN;
            write_block(&mut out, at, &self.blocks[b], links[b]);
            proof {
                lemma_header_kept(before, out@, at as int, BLOCK_LEN as int, self@.header);
                assert forall|c: int| 0 <= c < b + 1 implies block_encoded(
                    out@,
                    block_start(c),
                    #[trigger] self@.blocks[c],
                    links@[c],
                ) by {
                    if c < b {
                        lemma_block_kept(
                            before,
                            out@,
                            at as int,
                            BLOCK_LEN as int,
                            block_start(c),
                            self@.blocks[c],
                            links@[c],
                        );
                    }
                }
            }
            b = b + 1;
        }
        Ok(out)
    }
}

/// A chain stays a chain when the links of its blocks stay.
proof fn lemma_chain_kept(
    before: Seq<DataIndex>,
    after: Seq<DataIndex>,
    start: DataIndex,
    list: Seq<DataIndex>,
)
    requires
        is_chain(before, start, list),
        after.len() == before.len(),
        forall|k: int|
            0 <= k < list.len() ==> after[(#[trigger] list[k]) as int] == before[list[k] as int],
    ensures
        is_chain(after, start, list),
{
    if list.len() > 0 {
        assert(list.last() == list[list.len() - 1]);
    }
}

} // verus!
