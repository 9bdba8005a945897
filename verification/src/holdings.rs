//! What the market holds for each seat.
//!
//! A seat's holdings are what it may withdraw together with what its resting
//! orders hold back. Posting an order and cancelling one move atoms between
//! the two and leave the holdings of every seat as they were. So when all
//! orders of a seat are cancelled, the seat can withdraw all that it held,
//! however many orders it had posted, and nobody else's order or seat is
//! touched.

use vstd::prelude::*;
use hypertree::DataIndex;
use crate::batch::PlaceOrderParams;
use crate::error::MarketError;
use crate::price::Price;
use crate::state::{Block, MarketView, OrderType};

verus! {

/// Base atoms that a block holds back for the seat at `owner`.
pub open spec fn base_locked_in(block: Block, owner: DataIndex) -> nat {
    match block {
        Block::Order(order) => if order.trader_index == owner {
            order.locked_base()
        } else {
            0
        },
        _ => 0,
    }
}

/// Quote atoms that a block holds back for the seat at `owner`.
pub open spec fn quote_locked_in(block: Block, owner: DataIndex) -> nat {
    match block {
        Block::Order(order) => if order.trader_index == owner {
            order.locked_quote()
        } else {
            0
        },
        _ => 0,
    }
}

/// Base atoms that the orders of the seat at `owner` hold back.
pub open spec fn base_locked(blocks: Seq<Block>, owner: DataIndex) -> nat
    decreases blocks.len(),
{
    if blocks.len() == 0 {
        0
    } else {
        base_locked(blocks.drop_last(), owner) + base_locked_in(blocks.last(), owner)
    }
}

/// Quote atoms that the orders of the seat at `owner` hold back.
pub open spec fn quote_locked(blocks: Seq<Block>, owner: DataIndex) -> nat
    decreases blocks.len(),
{
    if blocks.len() == 0 {
        0
    } else {
        quote_locked(blocks.drop_last(), owner) + quote_locked_in(blocks.last(), owner)
    }
}

/// Replacing one block changes what is held back for a seat by the
/// difference of what the two blocks hold back for it.
pub proof fn lemma_locked_update(blocks: Seq<Block>, at: int, block: Block, owner: DataIndex)
    requires
        0 <= at < blocks.len(),
    ensures
        base_locked(blocks.update(at, block), owner) == base_locked(blocks, owner)
            - base_locked_in(blocks[at], owner) + base_locked_in(block, owner),
        quote_locked(blocks.update(at, block), owner) == quote_locked(blocks, owner)
            - quote_locked_in(blocks[at], owner) + quote_locked_in(block, owner),
    decreases blocks.len(),
{
    let updated = blocks.update(at, block);
    if at == blocks.len() - 1 {
        assert(updated.drop_last() =~= blocks.drop_last());
    } else {
        assert(updated.drop_last() =~= blocks.drop_last().update(at, block));
        lemma_locked_update(blocks.drop_last(), at, block, owner);
    }
}

/// No block holds back more for a seat than all blocks together.
pub proof fn lemma_locked_bound(blocks: Seq<Block>, at: int, owner: DataIndex)
    requires
        0 <= at < blocks.len(),
    ensures
        base_locked_in(blocks[at], owner) <= base_locked(blocks, owner),
        quote_locked_in(blocks[at], owner) <= quote_locked(blocks, owner),
    decreases blocks.len(),
{
    if at < blocks.len() - 1 {
        lemma_locked_bound(blocks.drop_last(), at, owner);
    }
}

/// Where no block holds anything back for a seat, nothing is held back for it.
pub proof fn lemma_locked_none(blocks: Seq<Block>, owner: DataIndex)
    requires
        forall|i: int|
            0 <= i < blocks.len() ==> base_locked_in(#[trigger] blocks[i], owner) == 0
                && quote_locked_in(blocks[i], owner) == 0,
    ensures
        base_locked(blocks, owner) == 0,
        quote_locked(blocks, owner) == 0,
    decreases blocks.len(),
{
    if blocks.len() > 0 {
        assert forall|i: int| 0 <= i < blocks.drop_last().len() implies base_locked_in(
            #[trigger] blocks.drop_last()[i],
            owner,
        ) == 0 && quote_locked_in(blocks.drop_last()[i], owner) == 0 by {
            assert(blocks.drop_last()[i] == blocks[i]);
        }
        lemma_locked_none(blocks.drop_last(), owner);
        assert(blocks.last() == blocks[blocks.len() - 1]);
    }
}

impl MarketView {
    /// Base atoms that the market holds for the seat at `seat`.
    pub open spec fn base_holdings(self, seat: DataIndex) -> int {
        self.seat_at(seat).base_withdrawable_balance + base_locked(self.blocks, seat)
    }

    /// Quote atoms that the market holds for the seat at `seat`.
    pub open spec fn quote_holdings(self, seat: DataIndex) -> int {
        self.seat_at(seat).quote_withdrawable_balance + quote_locked(self.blocks, seat)
    }

    /// Whether no order of the seat at `owner` rests.
    pub open spec fn owns_no_order(self, owner: DataIndex) -> bool {
        forall|b: DataIndex| #[trigger] self.is_order(b) ==> self.order_at(b).trader_index != owner
    }

    /// Whether every order and every seat of `self`, but for the orders and
    /// the seat of `owner`, stands in `after` as it is, and `after` has no
    /// order of any other seat besides.
    pub open spec fn others_kept_in(self, after: MarketView, owner: DataIndex) -> bool {
        &&& forall|b: DataIndex| #[trigger]
            self.is_order(b) && self.order_at(b).trader_index != owner ==> after.is_order(b)
                && after.order_at(b) == self.order_at(b)
        &&& forall|b: DataIndex| #[trigger]
            after.is_order(b) && after.order_at(b).trader_index != owner ==> self.is_order(b)
                && self.order_at(b) == after.order_at(b)
        &&& forall|s: DataIndex| #[trigger]
            self.is_seat(s) && s != owner ==> after.is_seat(s) && after.seat_at(s) == self.seat_at(
                s,
            )
    }

    /// What is kept from one market to a second and from there to a third is
    /// kept from the first to the third.
    pub proof fn lemma_others_kept_chain(self, between: MarketView, after: MarketView, owner: DataIndex)
        requires
            self.others_kept_in(between, owner),
            between.others_kept_in(after, owner),
        ensures
            self.others_kept_in(after, owner),
    {
        assert forall|b: DataIndex| #[trigger]
            self.is_order(b) && self.order_at(b).trader_index != owner implies after.is_order(b)
            && after.order_at(b) == self.order_at(b) by {
            assert(between.is_order(b));
        }
        assert forall|b: DataIndex| #[trigger]
            after.is_order(b) && after.order_at(b).trader_index != owner implies self.is_order(b)
            && self.order_at(b) == after.order_at(b) by {
            assert(between.is_order(b));
        }
        assert forall|s: DataIndex| #[trigger] self.is_seat(s) && s != owner implies after.is_seat(
            s,
        ) && after.seat_at(s) == self.seat_at(s) by {
            assert(between.is_seat(s));
        }
    }

    /// The orders that are left when one order is taken away and then those
    /// of a list are the orders that are not on the list with that one in
    /// front.
    pub proof fn lemma_orders_left(
        self,
        between: MarketView,
        after: MarketView,
        list: Seq<DataIndex>,
    )
        requires
            list.len() > 0,
            forall|b: DataIndex| #[trigger]
                between.is_order(b) <==> self.is_order(b) && b != list[0],
            forall|b: DataIndex| #[trigger]
                between.is_order(b) ==> between.order_at(b) == self.order_at(b),
            forall|b: DataIndex| #[trigger]
                after.is_order(b) <==> between.is_order(b) && !list.drop_first().contains(b),
            forall|b: DataIndex| #[trigger]
                after.is_order(b) ==> after.order_at(b) == between.order_at(b),
        ensures
            forall|b: DataIndex| #[trigger]
                after.is_order(b) <==> self.is_order(b) && !list.contains(b),
            forall|b: DataIndex| #[trigger] after.is_order(b) ==> after.order_at(b) == self.order_at(b),
    {
        let rest = list.drop_first();
        assert forall|b: DataIndex| #[trigger] after.is_order(b) <==> self.is_order(b)
            && !list.contains(b) by {
            if rest.contains(b) {
                let i = choose|i: int| 0 <= i < rest.len() && rest[i] == b;
                assert(list[i + 1] == b);
            }
            if list.contains(b) && b != list[0] {
                let j = choose|j: int| 0 <= j < list.len() && list[j] == b;
                assert(rest[j - 1] == b);
            }
            assert(between.is_order(b) <==> self.is_order(b) && b != list[0]);
        }
        assert forall|b: DataIndex| #[trigger] after.is_order(b) implies after.order_at(b)
            == self.order_at(b) by {
            assert(between.is_order(b));
        }
    }

    /// Posting an order leaves the holdings of every seat as they were: what
    /// the order holds back has left its seat's withdrawable balance. Every
    /// other order and seat stays as it is.
    pub proof fn theorem_post_order_keeps_holdings(
        self,
        trader_index: DataIndex,
        is_bid: bool,
        num_base_atoms: u64,
        price: Price,
        order_type: OrderType,
        last_valid_slot: u32,
        reverse_spread: u32,
        current_slot: u32,
        seat: DataIndex,
    )
        requires
            self.wf(),
            self.is_seat(seat),
            self.post_order(
                trader_index,
                is_bid,
                num_base_atoms,
                price,
                order_type,
                last_valid_slot,
                reverse_spread,
                current_slot,
            ) is Ok,
        ensures
            ({
                let posted = self.post_order(
                    trader_index,
                    is_bid,
                    num_base_atoms,
                    price,
                    order_type,
                    last_valid_slot,
                    reverse_spread,
                    current_slot,
                ).unwrap();
                &&& posted.base_holdings(seat) == self.base_holdings(seat)
                &&& posted.quote_holdings(seat) == self.quote_holdings(seat)
                &&& self.others_kept_in(posted, trader_index)
                &&& forall|b: DataIndex| #[trigger]
                    self.is_order(b) ==> posted.is_order(b) && posted.order_at(b) == self.order_at(
                        b,
                    )
            }),
    {
        let posted = self.post_order(
            trader_index,
            is_bid,
            num_base_atoms,
            price,
            order_type,
            last_valid_slot,
            reverse_spread,
            current_slot,
        ).unwrap();
        let index = self.free[0];
        assert(self.is_free(index));
        let funded = self.blocks.update(trader_index as int, posted.blocks[trader_index as int]);
        lemma_locked_update(self.blocks, trader_index as int, posted.blocks[trader_index as int], seat);
        lemma_locked_update(funded, index as int, posted.blocks[index as int], seat);
        assert(posted.blocks =~= funded.update(index as int, posted.blocks[index as int]));
    }

    /// Cancelling an order leaves the holdings of every seat as they were:
    /// what the order held back is withdrawable again. Every other order and
    /// every other seat stays as it is.
    pub proof fn theorem_cancel_keeps_holdings(self, index: DataIndex, seat: DataIndex)
        requires
            self.wf(),
            self.is_seat(seat),
            self.cancel_order_by_index(index) is Ok,
        ensures
            ({
                let cancelled = self.cancel_order_by_index(index).unwrap();
                &&& cancelled.base_holdings(seat) == self.base_holdings(seat)
                &&& cancelled.quote_holdings(seat) == self.quote_holdings(seat)
                &&& self.others_kept_in(cancelled, self.order_at(index).trader_index)
                &&& forall|b: DataIndex| #[trigger]
                    cancelled.is_order(b) <==> self.is_order(b) && b != index
                &&& forall|b: DataIndex| #[trigger]
                    cancelled.is_order(b) ==> cancelled.order_at(b) == self.order_at(b)
            }),
    {
        let cancelled = self.cancel_order_by_index(index).unwrap();
        let owner = self.order_at(index).trader_index;
        assert(self.is_seat(owner));
        let refunded = self.blocks.update(owner as int, cancelled.blocks[owner as int]);
        lemma_locked_update(self.blocks, owner as int, cancelled.blocks[owner as int], seat);
        lemma_locked_update(refunded, index as int, cancelled.blocks[index as int], seat);
        assert(cancelled.blocks =~= refunded.update(index as int, cancelled.blocks[index as int]));
    }

    /// The owned orders on a list are those of the list that the seat owns,
    /// each once where the list has each once.
    pub proof fn lemma_owned_in(self, list: Seq<DataIndex>, owner: DataIndex)
        ensures
            forall|b: DataIndex|
                #[trigger] self.owned_in(list, owner).contains(b) <==> list.contains(b)
                    && self.order_at(b).trader_index == owner,
            list.no_duplicates() ==> self.owned_in(list, owner).no_duplicates(),
        decreases list.len(),
    {
        let owned = self.owned_in(list, owner);
        if list.len() > 0 {
            let front = list.drop_last();
            let rest = self.owned_in(front, owner);
            let last = list.last();
            self.lemma_owned_in(front, owner);
            assert forall|b: DataIndex| #[trigger] owned.contains(b) <==> list.contains(b)
                && self.order_at(b).trader_index == owner by {
                if owned.contains(b) {
                    let i = choose|i: int| 0 <= i < owned.len() && owned[i] == b;
                    if i < rest.len() {
                        assert(rest[i] == b);
                        assert(rest.contains(b));
                        let j = choose|j: int| 0 <= j < front.len() && front[j] == b;
                        assert(list[j] == b);
                    } else {
                        assert(list[list.len() - 1] == b);
                    }
                }
                if list.contains(b) && self.order_at(b).trader_index == owner {
                    let j = choose|j: int| 0 <= j < list.len() && list[j] == b;
                    if j < front.len() {
                        assert(front[j] == b);
                        assert(front.contains(b));
                        assert(rest.contains(b));
                        let i = choose|i: int| 0 <= i < rest.len() && rest[i] == b;
                        assert(owned[i] == b);
                    } else {
                        assert(owned[owned.len() - 1] == b);
                    }
                }
            }
            if list.no_duplicates() {
                assert(front.no_duplicates());
                if rest.contains(last) {
                    let j = choose|j: int| 0 <= j < front.len() && front[j] == last;
                    assert(list[j] == list[list.len() - 1]);
                }
                assert forall|i: int, j: int|
                    0 <= i < owned.len() && 0 <= j < owned.len() && i != j implies owned[i]
                    != owned[j] by {
                    if i < rest.len() && j < rest.len() {
                        assert(rest[i] != rest[j]);
                    } else if i < rest.len() {
                        assert(rest.contains(rest[i]));
                    } else {
                        assert(rest.contains(rest[j]));
                    }
                }
            }
        }
    }

    /// The orders of a seat are its orders in both books, each once.
    pub proof fn lemma_orders_of(self, owner: DataIndex)
        requires
            self.wf(),
        ensures
            self.orders_of(owner).no_duplicates(),
            forall|b: DataIndex|
                #[trigger] self.orders_of(owner).contains(b) <==> self.is_order(b)
                    && self.order_at(b).trader_index == owner,
    {
        let bids = self.owned_in(self.bids, owner);
        let asks = self.owned_in(self.asks, owner);
        let all = self.orders_of(owner);
        self.lemma_owned_in(self.bids, owner);
        self.lemma_owned_in(self.asks, owner);
        assert forall|b: DataIndex| #[trigger] all.contains(b) <==> self.is_order(b)
            && self.order_at(b).trader_index == owner by {
            if all.contains(b) {
                let i = choose|i: int| 0 <= i < all.len() && all[i] == b;
                if i < bids.len() {
                    assert(bids[i] == b);
                    assert(bids.contains(b));
                    let k = choose|k: int| 0 <= k < self.bids.len() && self.bids[k] == b;
                    assert(self.is_order(self.book(true)[k]));
                } else {
                    assert(asks[i - bids.len()] == b);
                    assert(asks.contains(b));
                    let k = choose|k: int| 0 <= k < self.asks.len() && self.asks[k] == b;
                    assert(self.is_order(self.book(false)[k]));
                }
            }
            if self.is_order(b) && self.order_at(b).trader_index == owner {
                assert(self.book(self.order_at(b).is_bid).contains(b));
                if self.order_at(b).is_bid {
                    assert(bids.contains(b));
                    let i = choose|i: int| 0 <= i < bids.len() && bids[i] == b;
                    assert(all[i] == b);
                } else {
                    assert(asks.contains(b));
                    let i = choose|i: int| 0 <= i < asks.len() && asks[i] == b;
                    assert(all[bids.len() + i] == b);
                }
            }
        }
        assert forall|i: int, j: int| 0 <= i < all.len() && 0 <= j < all.len() && i != j implies all[i]
            != all[j] by {
            if i < bids.len() && j < bids.len() {
                assert(bids[i] != bids[j]);
            } else if i >= bids.len() && j >= bids.len() {
                assert(asks[i - bids.len()] != asks[j - bids.len()]);
            } else {
                let (p, q) = if i < bids.len() {
                    (i, j - bids.len())
                } else {
                    (j, i - bids.len())
                };
                assert(bids.contains(bids[p]));
                assert(asks.contains(asks[q]));
                let k = choose|k: int| 0 <= k < self.bids.len() && self.bids[k] == bids[p];
                let l = choose|l: int| 0 <= l < self.asks.len() && self.asks[l] == asks[q];
                assert(self.order_at(self.book(true)[k]).is_bid);
                assert(!self.order_at(self.book(false)[l]).is_bid);
            }
        }
    }

    /// Cancelling listed orders of one seat, each listed once, returns what
    /// they held back to the seat and touches nothing else. It succeeds
    /// wherever the seat's holdings fit its balances.
    pub proof fn lemma_cancel_listed_returns(self, list: Seq<DataIndex>, owner: DataIndex)
        requires
            self.wf(),
            self.is_seat(owner),
            list.no_duplicates(),
            forall|i: int|
                0 <= i < list.len() ==> self.is_order(#[trigger] list[i]) && self.order_at(
                    list[i],
                ).trader_index == owner,
        ensures
            self.base_holdings(owner) <= u64::MAX && self.quote_holdings(owner) <= u64::MAX
                ==> self.cancel_listed(list) is Ok,
            self.cancel_listed(list) is Ok ==> {
                let after = self.cancel_listed(list).unwrap();
                &&& after.wf()
                &&& after.is_seat(owner)
                &&& after.base_holdings(owner) == self.base_holdings(owner)
                &&& after.quote_holdings(owner) == self.quote_holdings(owner)
                &&& self.others_kept_in(after, owner)
                &&& forall|b: DataIndex| #[trigger]
                    after.is_order(b) <==> self.is_order(b) && !list.contains(b)
                &&& forall|b: DataIndex| #[trigger]
                    after.is_order(b) ==> after.order_at(b) == self.order_at(b)
            },
        decreases list.len(),
    {
        if list.len() > 0 {
            let index = list[0];
            let rest = list.drop_first();
            assert(self.is_order(index) && self.order_at(index).trader_index == owner);
            lemma_locked_bound(self.blocks, index as int, owner);
            if self.cancel_order_by_index(index) is Ok {
                let next = self.cancel_order_by_index(index).unwrap();
                self.theorem_cancel_keeps_holdings(index, owner);
                self.lemma_cancel_succeeds(index);
                assert(next.is_seat(owner));
                assert forall|i: int| 0 <= i < rest.len() implies next.is_order(#[trigger] rest[i])
                    && next.order_at(rest[i]).trader_index == owner by {
                    assert(rest[i] == list[i + 1]);
                    assert(list[i + 1] != list[0]);
                }
                assert(rest.no_duplicates()) by {
                    assert forall|i: int, j: int|
                        0 <= i < rest.len() && 0 <= j < rest.len() && i != j implies rest[i]
                        != rest[j] by {
                        assert(list[i + 1] != list[j + 1]);
                    }
                }
                next.lemma_cancel_listed_returns(rest, owner);
                if self.cancel_listed(list) is Ok {
                    let after = self.cancel_listed(list).unwrap();
                    self.lemma_orders_left(next, after, list);
                    self.lemma_others_kept_chain(next, after, owner);
                }
            }
        } else {
            assert forall|b: DataIndex| !list.contains(b) by {}
        }
    }

    /// Cancelling all orders of a seat returns to the seat all that they
    /// held back: afterwards none of its orders rests, and it can withdraw
    /// all that the market held for it. Every order and seat of the others
    /// stays as it is. The cancellation succeeds wherever the seat's
    /// holdings fit its balances.
    pub proof fn theorem_cancel_all_returns_holdings(self, owner: DataIndex)
        requires
            self.wf(),
            self.is_seat(owner),
        ensures
            self.base_holdings(owner) <= u64::MAX && self.quote_holdings(owner) <= u64::MAX
                ==> self.cancel_all(owner) is Ok,
            self.cancel_all(owner) is Ok ==> {
                let after = self.cancel_all(owner).unwrap();
                &&& after.wf()
                &&& after.owns_no_order(owner)
                &&& after.seat_at(owner).base_withdrawable_balance == self.base_holdings(owner)
                &&& after.seat_at(owner).quote_withdrawable_balance == self.quote_holdings(owner)
                &&& self.others_kept_in(after, owner)
            },
    {
        let list = self.orders_of(owner);
        self.lemma_orders_of(owner);
        assert forall|i: int| 0 <= i < list.len() implies self.is_order(#[trigger] list[i])
            && self.order_at(list[i]).trader_index == owner by {
            assert(list.contains(list[i]));
        }
        self.lemma_cancel_listed_returns(list, owner);
        if self.cancel_all(owner) is Ok {
            let after = self.cancel_all(owner).unwrap();
            assert forall|b: DataIndex| #[trigger] after.is_order(b) implies after.order_at(
                b,
            ).trader_index != owner by {
                assert(!list.contains(b));
            }
            assert forall|i: int| 0 <= i < after.blocks.len() implies base_locked_in(
                #[trigger] after.blocks[i],
                owner,
            ) == 0 && quote_locked_in(after.blocks[i], owner) == 0 by {
                if after.blocks[i] is Order {
                    assert(after.blocks.len() <= u32::MAX);
                    assert(after.is_order(i as DataIndex));
                }
            }
            lemma_locked_none(after.blocks, owner);
        }
    }

    /// What posting the listed orders for the seat at `owner` comes to, one
    /// after the other.
    pub open spec fn posts_applied(
        self,
        owner: DataIndex,
        orders: Seq<PlaceOrderParams>,
        current_slot: u32,
    ) -> Result<MarketView, MarketError>
        decreases orders.len(),
    {
        if orders.len() == 0 {
            Ok(self)
        } else {
            match self.post_order(
                owner,
                orders[0].is_bid,
                orders[0].num_base_atoms,
                orders[0].price,
                orders[0].order_type,
                orders[0].last_valid_slot,
                orders[0].reverse_spread,
                current_slot,
            ) {
                Ok(market) => market.posts_applied(owner, orders.drop_first(), current_slot),
                Err(e) => Err(e),
            }
        }
    }

    /// A run of posted orders leaves the holdings of the seat as they were,
    /// and every order and seat of the others as it is.
    pub proof fn lemma_posts_applied(
        self,
        owner: DataIndex,
        orders: Seq<PlaceOrderParams>,
        current_slot: u32,
    )
        requires
            self.wf(),
            self.posts_applied(owner, orders, current_slot) is Ok,
        ensures
            ({
                let posted = self.posts_applied(owner, orders, current_slot).unwrap();
                &&& posted.wf()
                &&& orders.len() > 0 ==> self.is_seat(owner)
                &&& self.is_seat(owner) ==> {
                    &&& posted.is_seat(owner)
                    &&& posted.base_holdings(owner) == self.base_holdings(owner)
                    &&& posted.quote_holdings(owner) == self.quote_holdings(owner)
                }
                &&& self.others_kept_in(posted, owner)
            }),
        decreases orders.len(),
    {
        if orders.len() > 0 {
            let next = self.post_order(
                owner,
                orders[0].is_bid,
                orders[0].num_base_atoms,
                orders[0].price,
                orders[0].order_type,
                orders[0].last_valid_slot,
                orders[0].reverse_spread,
                current_slot,
            ).unwrap();
            self.theorem_post_order_keeps_holdings(
                owner,
                orders[0].is_bid,
                orders[0].num_base_atoms,
                orders[0].price,
                orders[0].order_type,
                orders[0].last_valid_slot,
                orders[0].reverse_spread,
                current_slot,
                owner,
            );
            self.lemma_post_order_succeeds(
                owner,
                orders[0].is_bid,
                orders[0].num_base_atoms,
                orders[0].price,
                orders[0].order_type,
                orders[0].last_valid_slot,
                orders[0].reverse_spread,
                current_slot,
            );
            assert(next.is_seat(owner));
            next.lemma_posts_applied(owner, orders.drop_first(), current_slot);
            let posted = self.posts_applied(owner, orders, current_slot).unwrap();
            self.lemma_others_kept_chain(next, posted, owner);
        }
    }

    /// When a seat without orders posts a run of orders and all its orders
    /// are then cancelled, the cancellation succeeds and the seat has the
    /// balances that it had before the first order: every atom that the
    /// orders held back is returned. None of its orders rests any more, and
    /// every order and seat of the others is as it was.
    pub proof fn theorem_posts_then_cancel_all(
        self,
        owner: DataIndex,
        orders: Seq<PlaceOrderParams>,
        current_slot: u32,
    )
        requires
            self.wf(),
            self.is_seat(owner),
            self.owns_no_order(owner),
            self.posts_applied(owner, orders, current_slot) is Ok,
        ensures
            ({
                let posted = self.posts_applied(owner, orders, current_slot).unwrap();
                &&& posted.cancel_all(owner) is Ok
                &&& posted.cancel_all(owner).unwrap().owns_no_order(owner)
                &&& posted.cancel_all(owner).unwrap().seat_at(owner).base_withdrawable_balance
                    == self.seat_at(owner).base_withdrawable_balance
                &&& posted.cancel_all(owner).unwrap().seat_at(owner).quote_withdrawable_balance
                    == self.seat_at(owner).quote_withdrawable_balance
                &&& self.others_kept_in(posted.cancel_all(owner).unwrap(), owner)
            }),
    {
        let posted = self.posts_applied(owner, orders, current_slot).unwrap();
        self.lemma_posts_applied(owner, orders, current_slot);
        assert forall|i: int| 0 <= i < self.blocks.len() implies base_locked_in(
            #[trigger] self.blocks[i],
            owner,
        ) == 0 && quote_locked_in(self.blocks[i], owner) == 0 by {
            if self.blocks[i] is Order {
                assert(self.is_order(i as DataIndex));
            }
        }
        lemma_locked_none(self.blocks, owner);
        posted.theorem_cancel_all_returns_holdings(owner);
        let after = posted.cancel_all(owner).unwrap();
        self.lemma_others_kept_chain(posted, after, owner);
    }
}

} // verus!
