//! The block pool: creation of a market, growth of the pool and the sums
//! that the header keeps over it.

use vstd::prelude::*;
use hypertree::DataIndex;
use crate::state::{
    long_of, net_position, short_of, total_long, total_short, tree_nil, Block, Identity, Market,
    MarketHeader, MarketView, NIL,
};

verus! {

/// Replacing one block changes each sum by the difference of the two blocks.
pub proof fn lemma_totals_update(blocks: Seq<Block>, at: int, block: Block)
    requires
        0 <= at < blocks.len(),
    ensures
        total_long(blocks.update(at, block)) == total_long(blocks) - long_of(blocks[at]) + long_of(
            block,
        ),
        total_short(blocks.update(at, block)) == total_short(blocks) - short_of(blocks[at])
            + short_of(block),
    decreases blocks.len(),
{
    let updated = blocks.update(at, block);
    if at == blocks.len() - 1 {
        assert(updated.drop_last() =~= blocks.drop_last());
    } else {
        assert(updated.drop_last() =~= blocks.drop_last().update(at, block));
        lemma_totals_update(blocks.drop_last(), at, block);
    }
}

/// Appending a block adds its contribution to each sum.
pub proof fn lemma_totals_push(blocks: Seq<Block>, block: Block)
    ensures
        total_long(blocks.push(block)) == total_long(blocks) + long_of(block),
        total_short(blocks.push(block)) == total_short(blocks) + short_of(block),
{
    assert(blocks.push(block).drop_last() =~= blocks);
}

/// No block contributes more to a sum than the sum holds.
pub proof fn lemma_totals_bound(blocks: Seq<Block>, at: int)
    requires
        0 <= at < blocks.len(),
    ensures
        long_of(blocks[at]) <= total_long(blocks),
        short_of(blocks[at]) <= total_short(blocks),
    decreases blocks.len(),
{
    if at < blocks.len() - 1 {
        lemma_totals_bound(blocks.drop_last(), at);
    }
}

/// Pools whose blocks contribute alike have the same sums.
pub proof fn lemma_totals_alike(one: Seq<Block>, other: Seq<Block>)
    requires
        one.len() == other.len(),
        forall|i: int|
            0 <= i < one.len() ==> long_of(#[trigger] one[i]) == long_of(other[i]) && short_of(
                one[i],
            ) == short_of(other[i]),
    ensures
        total_long(one) == total_long(other),
        total_short(one) == total_short(other),
    decreases one.len(),
{
    if one.len() > 0 {
        assert forall|i: int| 0 <= i < one.drop_last().len() implies long_of(
            #[trigger] one.drop_last()[i],
        ) == long_of(other.drop_last()[i]) && short_of(one.drop_last()[i]) == short_of(
            other.drop_last()[i],
        ) by {
            assert(one.drop_last()[i] == one[i]);
            assert(other.drop_last()[i] == other[i]);
        }
        lemma_totals_alike(one.drop_last(), other.drop_last());
        assert(long_of(one[one.len() - 1]) == long_of(other[one.len() - 1]));
    }
}

/// The signed positions add up to the long total less the short total.
pub proof fn lemma_net_position(blocks: Seq<Block>)
    ensures
        net_position(blocks) == total_long(blocks) - total_short(blocks),
    decreases blocks.len(),
{
    if blocks.len() > 0 {
        lemma_net_position(blocks.drop_last());
    }
}

impl MarketView {
    /// A market without blocks, seats or orders.
    pub open spec fn empty(
        base_mint: Identity,
        quote_mint: Identity,
        base_mint_decimals: u8,
        quote_mint_decimals: u8,
        maintenance_margin_bps: u64,
    ) -> MarketView {
        MarketView {
            header: MarketHeader {
                base_mint,
                quote_mint,
                base_mint_decimals,
                quote_mint_decimals,
                free_list_head: NIL,
                next_sequence_number: 0,
                total_long_base_atoms: 0,
                total_short_base_atoms: 0,
                maintenance_margin_bps,
                oracle_price_mantissa: 0,
                oracle_price_expo: 0,
                last_funding_timestamp: 0,
                cumulative_funding: 0,
            },
            blocks: Seq::empty(),
            seats: Seq::empty(),
            bids: Seq::empty(),
            asks: Seq::empty(),
            free: Seq::empty(),
        }
    }

    /// The market with one more block, placed at the head of the free list.
    pub open spec fn push_free(self) -> MarketView {
        MarketView {
            header: MarketHeader { free_list_head: self.blocks.len() as u32, ..self.header },
            blocks: self.blocks.push(Block::Free { next: self.header.free_list_head }),
            free: seq![self.blocks.len() as u32] + self.free,
            ..self
        }
    }

    /// The market after `count` blocks were appended one by one.
    pub open spec fn expanded(self, count: nat) -> MarketView
        decreases count,
    {
        if count == 0 {
            self
        } else {
            self.expanded((count - 1) as nat).push_free()
        }
    }

    /// How many blocks the pool can still take.
    pub open spec fn room(self) -> nat {
        (NIL - self.blocks.len()) as nat
    }

    /// Blocks that hold a seat or an order.
    pub open spec fn used_blocks(self) -> nat {
        self.seats.len() + self.bids.len() + self.asks.len()
    }

    /// Appending a free block keeps the invariant.
    pub proof fn lemma_push_free_wf(self)
        requires
            self.wf(),
            self.blocks.len() < NIL,
        ensures
            self.push_free().wf(),
            self.push_free().blocks.len() == self.blocks.len() + 1,
    {
        let after = self.push_free();
        let added = self.blocks.len() as u32;
        assert forall|b: DataIndex| b < self.blocks.len() implies after.blocks[b as int]
            == self.blocks[b as int] by {}
        self.lemma_same_role_reflexive();
        self.lemma_seats_kept(after);
        self.lemma_books_kept(after);
        self.lemma_free_pushed(after, added);
        lemma_totals_push(self.blocks, Block::Free { next: self.header.free_list_head });
    }

    /// Growing the pool leaves the blocks that were there as they were.
    pub proof fn lemma_expanded_keeps_blocks(self, count: nat)
        ensures
            self.expanded(count).blocks.len() == self.blocks.len() + count,
            self.expanded(count).header.next_sequence_number
                == self.header.next_sequence_number,
            forall|b: int|
                0 <= b < self.blocks.len() ==> #[trigger] self.expanded(count).blocks[b]
                    == self.blocks[b],
            forall|b: int|
                self.blocks.len() <= b < self.blocks.len() + count ==> #[trigger] self.expanded(
                    count,
                ).blocks[b] is Free,
        decreases count,
    {
        if count > 0 {
            self.lemma_expanded_keeps_blocks((count - 1) as nat);
        }
    }

    /// Growing the pool keeps the invariant.
    pub proof fn lemma_expanded_wf(self, count: nat)
        requires
            self.wf(),
            count <= self.room(),
        ensures
            self.expanded(count).wf(),
            self.expanded(count).blocks.len() == self.blocks.len() + count,
        decreases count,
    {
        if count > 0 {
            self.lemma_expanded_wf((count - 1) as nat);
            self.expanded((count - 1) as nat).lemma_push_free_wf();
        }
    }
}

impl Market {
    /// Creates a market with an empty pool.
    pub fn new(
        base_mint: Identity,
        quote_mint: Identity,
        base_mint_decimals: u8,
        quote_mint_decimals: u8,
        maintenance_margin_bps: u64,
    ) -> (market: Market)
        ensures
            market.wf(),
            market@ == MarketView::empty(
                base_mint,
                quote_mint,
                base_mint_decimals,
                quote_mint_decimals,
                maintenance_margin_bps,
            ),
    {
        let market = Market {
            header: MarketHeader {
                base_mint,
                quote_mint,
                base_mint_decimals,
                quote_mint_decimals,
                free_list_head: tree_nil(),
                next_sequence_number: 0,
                total_long_base_atoms: 0,
                total_short_base_atoms: 0,
                maintenance_margin_bps,
                oracle_price_mantissa: 0,
                oracle_price_expo: 0,
                last_funding_timestamp: 0,
                cumulative_funding: 0,
            },
            blocks: Vec::new(),
            seats: Vec::new(),
            bids: Vec::new(),
            asks: Vec::new(),
            free: Ghost(Seq::empty()),
        };
        market
    }

    /// Appends up to `count` free blocks and returns how many were appended:
    /// `count`, or fewer when the pool reaches the largest size that block
    /// indices can address.
    pub fn expand(&mut self, count: u32) -> (appended: u32)
        requires
            old(self).wf(),
        ensures
            final(self).wf(),
            appended == if count <= old(self)@.room() {
                count as nat
            } else {
                old(self)@.room()
            },
            final(self)@ == old(self)@.expanded(appended as nat),
    {
        let mut appended: u32 = 0;
        while appended < count && self.blocks.len() < NIL as usize
            invariant
                appended <= count,
                appended <= old(self)@.room(),
                self@ == old(self)@.expanded(appended as nat),
                self.wf(),
                self@.blocks.len() == old(self)@.blocks.len() + appended,
                old(self).wf(),
            decreases count - appended,
        {
            let index: DataIndex = self.blocks.len() as u32;
            proof {
                self@.lemma_push_free_wf();
            }
            self.blocks.push(Block::Free { next: self.header.free_list_head });
            self.header.free_list_head = index;
            self.free = Ghost(seq![index] + self.free@);
            appended = appended + 1;
        }
        appended
    }

    /// A copy of the market.
    pub fn duplicate(&self) -> (copy: Market)
        ensures
            copy@ == self@,
    {
        let mut blocks: Vec<Block> = Vec::new();
        let mut i: usize = 0;
        while i < self.blocks.len()
            invariant
                i <= self.blocks.len(),
                blocks@ == self.blocks@.subrange(0, i as int),
            decreases self.blocks.len() - i,
        {
            blocks.push(self.blocks[i]);
            i = i + 1;
            assert(blocks@ =~= self.blocks@.subrange(0, i as int));
        }
        assert(blocks@ =~= self.blocks@);
        Market {
            header: self.header,
            blocks,
            seats: self.seats.clone(),
            bids: self.bids.clone(),
            asks: self.asks.clone(),
            free: Ghost(self.free@),
        }
    }

    /// Number of blocks in the pool.
    pub fn total_blocks(&self) -> (n: u32)
        requires
            self.wf(),
        ensures
            n == self@.blocks.len(),
    {
        self.blocks.len() as u32
    }

    /// Number of blocks that hold a seat or an order.
    pub fn used_blocks(&self) -> (n: u32)
        requires
            self.wf(),
        ensures
            n == self@.used_blocks(),
    {
        (self.seats.len() + self.bids.len() + self.asks.len()) as u32
    }

    /// Number of blocks on the free list.
    pub fn free_blocks(&self) -> (n: u32)
        requires
            self.wf(),
        ensures
            n == self@.free.len(),
            n + self@.used_blocks() == self@.blocks.len(),
    {
        (self.blocks.len() - self.seats.len() - self.bids.len() - self.asks.len()) as u32
    }
}

} // verus!
