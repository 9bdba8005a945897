//! How the parts of the invariant carry over from one market state to the next.
//!
//! The invariant has a part for the seats, one for the free list and one for
//! the books. An operation usually changes one or two of them; the lemmas
//! here carry the others over, and cover the two moves of the free list.

use vstd::prelude::*;
use hypertree::DataIndex;
use crate::state::{comes_before, order_before, Block, MarketView};

verus! {

/// `after` plays the role of `before` under the same keys: a free block is
/// unchanged, a seat keeps its trader, and an order keeps its owner, sequence
/// number, price and side and still has base atoms to fill.
pub open spec fn same_role(before: Block, after: Block) -> bool {
    match before {
        Block::Free { .. } => after == before,
        Block::Seat(seat) => after is Seat && after->Seat_0.trader@ == seat.trader@,
        Block::Order(order) => {
            &&& after is Order
            &&& after->Order_0.trader_index == order.trader_index
            &&& after->Order_0.sequence_number == order.sequence_number
            &&& after->Order_0.price == order.price
            &&& after->Order_0.is_bid == order.is_bid
            &&& after->Order_0.num_base_atoms > 0
        },
    }
}

impl MarketView {
    /// The seats part carries over when the seat index is unchanged and the
    /// same blocks hold the seats of the same traders.
    pub proof fn lemma_seats_kept(self, after: MarketView)
        requires
            self.seats_ok(),
            after.seats == self.seats,
            forall|b: DataIndex| #[trigger]
                self.is_seat(b) ==> after.is_seat(b) && after.seat_at(b).trader@ == self.seat_at(
                    b,
                ).trader@,
            forall|b: DataIndex| #[trigger] after.is_seat(b) ==> self.is_seat(b),
        ensures
            after.seats_ok(),
    {
        assert forall|k: int| 0 <= k < after.seats.len() implies after.is_seat(
            #[trigger] after.seats[k],
        ) by {
            assert(self.is_seat(self.seats[k]));
        }
        assert forall|b: DataIndex| #[trigger] after.is_seat(b) implies after.seats.contains(b) by {
            assert(self.is_seat(b));
        }
        assert forall|i: int, j: int| 0 <= i < j < after.seats.len() implies comes_before(
            after.seat_at(#[trigger] after.seats[i]).trader@,
            after.seat_at(#[trigger] after.seats[j]).trader@,
        ) by {
            assert(self.is_seat(self.seats[i]));
            assert(self.is_seat(self.seats[j]));
        }
    }

    /// The free part carries over when the list and the header's head are
    /// unchanged and the same blocks are free, with the same links.
    pub proof fn lemma_free_kept(self, after: MarketView)
        requires
            self.free_ok(),
            after.free == self.free,
            after.header.free_list_head == self.header.free_list_head,
            forall|b: DataIndex| #[trigger]
                self.is_free(b) ==> after.is_free(b) && after.blocks[b as int]
                    == self.blocks[b as int],
            forall|b: DataIndex| #[trigger] after.is_free(b) ==> self.is_free(b),
        ensures
            after.free_ok(),
    {
        assert forall|k: int| 0 <= k < after.free.len() implies after.is_free(
            #[trigger] after.free[k],
        ) by {
            assert(self.is_free(self.free[k]));
        }
        assert forall|b: DataIndex| #[trigger] after.is_free(b) implies after.free.contains(b) by {
            assert(self.is_free(b));
        }
        assert forall|k: int| 0 <= k < after.free.len() implies (
        #[trigger] after.blocks[after.free[k] as int]) == (Block::Free {
            next: after.free_next(k),
        }) by {
            assert(self.is_free(self.free[k]));
            assert(self.blocks[self.free[k] as int] == Block::Free { next: self.free_next(k) });
        }
    }

    /// The books part carries over when both books are unchanged, the same
    /// blocks hold orders under the same keys, every seat is still a seat and
    /// no sequence number was taken back.
    pub proof fn lemma_books_kept(self, after: MarketView)
        requires
            self.books_ok(),
            after.bids == self.bids,
            after.asks == self.asks,
            after.header.next_sequence_number >= self.header.next_sequence_number,
            forall|b: DataIndex| #[trigger]
                self.is_order(b) ==> same_role(self.blocks[b as int], after.blocks[b as int])
                    && after.is_order(b),
            forall|b: DataIndex| #[trigger] after.is_order(b) ==> self.is_order(b),
            forall|b: DataIndex| #[trigger] self.is_seat(b) ==> after.is_seat(b),
        ensures
            after.books_ok(),
    {
        assert forall|side: bool, k: int| 0 <= k < after.book(side).len() implies after.is_order(
            #[trigger] after.book(side)[k],
        ) && after.order_at(after.book(side)[k]).is_bid == side by {
            assert(self.is_order(self.book(side)[k]));
        }
        assert forall|b: DataIndex| #[trigger] after.is_order(b) implies after.book(
            after.order_at(b).is_bid,
        ).contains(b) by {
            assert(self.is_order(b));
        }
        assert forall|side: bool, i: int, j: int|
            0 <= i < j < after.book(side).len() implies order_before(
            side,
            after.order_at(#[trigger] after.book(side)[i]),
            after.order_at(#[trigger] after.book(side)[j]),
        ) by {
            assert(self.is_order(self.book(side)[i]));
            assert(self.is_order(self.book(side)[j]));
        }
        assert forall|b: DataIndex| #[trigger] after.is_order(b) implies {
            &&& after.is_seat(after.order_at(b).trader_index)
            &&& after.order_at(b).sequence_number < after.header.next_sequence_number
            &&& after.order_at(b).num_base_atoms > 0
        } by {
            assert(self.is_order(b));
            assert(self.is_seat(self.order_at(b).trader_index));
        }
        assert forall|a: DataIndex, b: DataIndex|
            #[trigger] after.is_order(a) && #[trigger] after.is_order(b) && a
                != b implies after.order_at(a).sequence_number != after.order_at(
            b,
        ).sequence_number by {
            assert(self.is_order(a));
            assert(self.is_order(b));
        }
        if after.bids.len() > 0 && after.asks.len() > 0 {
            assert(self.is_order(self.book(true)[0]));
            assert(self.is_order(self.book(false)[0]));
        }
    }

    /// Taking the head off the free list, and giving its block another role,
    /// leaves a well-formed free list.
    pub proof fn lemma_free_popped(self, after: MarketView)
        requires
            self.free_ok(),
            self.free.len() > 0,
            after.free == self.free.drop_first(),
            after.header.free_list_head == self.free_next(0),
            after.blocks.len() == self.blocks.len(),
            !after.is_free(self.free[0]),
            forall|b: int|
                0 <= b < self.blocks.len() && b != self.free[0] ==> #[trigger] after.blocks[b]
                    == self.blocks[b],
        ensures
            after.free_ok(),
    {
        assert forall|k: int| 0 <= k < after.free.len() implies #[trigger] after.free[k]
            == self.free[k + 1] by {}
        assert forall|i: int, j: int|
            0 <= i < after.free.len() && 0 <= j < after.free.len() && i
                != j implies after.free[i] != after.free[j] by {
            assert(self.free[i + 1] != self.free[j + 1]);
        }
        assert forall|k: int| 0 <= k < after.free.len() implies after.is_free(
            #[trigger] after.free[k],
        ) by {
            assert(self.is_free(self.free[k + 1]));
            assert(self.free[k + 1] != self.free[0]);
        }
        assert forall|b: DataIndex| #[trigger] after.is_free(b) implies after.free.contains(b) by {
            assert(self.is_free(b));
            let k = choose|k: int| 0 <= k < self.free.len() && self.free[k] == b;
            assert(after.free[k - 1] == b);
        }
        assert forall|k: int| 0 <= k < after.free.len() implies (
        #[trigger] after.blocks[after.free[k] as int]) == (Block::Free {
            next: after.free_next(k),
        }) by {
            assert(self.is_free(self.free[k + 1]));
            assert(self.free[k + 1] != self.free[0]);
            assert(self.blocks[self.free[k + 1] as int] == Block::Free {
                next: self.free_next(k + 1),
            });
            if k + 1 < after.free.len() {
                assert(after.free[k + 1] == self.free[k + 2]);
            }
        }
    }

    /// Putting a block that was not free at the head of the free list leaves
    /// a well-formed free list.
    pub proof fn lemma_free_pushed(self, after: MarketView, index: DataIndex)
        requires
            self.free_ok(),
            !self.is_free(index),
            index < after.blocks.len(),
            after.blocks[index as int] == (Block::Free { next: self.header.free_list_head }),
            after.free == seq![index] + self.free,
            after.header.free_list_head == index,
            forall|b: DataIndex| #[trigger]
                self.is_free(b) ==> after.is_free(b) && after.blocks[b as int]
                    == self.blocks[b as int],
            forall|b: DataIndex| #[trigger] after.is_free(b) ==> b == index || self.is_free(b),
        ensures
            after.free_ok(),
    {
        assert(after.free[0] == index);
        assert forall|k: int| 0 <= k < self.free.len() implies #[trigger] after.free[k + 1]
            == self.free[k] by {}
        assert forall|i: int, j: int|
            0 <= i < after.free.len() && 0 <= j < after.free.len() && i
                != j implies after.free[i] != after.free[j] by {
            if i > 0 {
                assert(self.is_free(self.free[i - 1]));
            }
            if j > 0 {
                assert(self.is_free(self.free[j - 1]));
            }
        }
        assert forall|k: int| 0 <= k < after.free.len() implies after.is_free(
            #[trigger] after.free[k],
        ) by {
            if k > 0 {
                assert(self.is_free(self.free[k - 1]));
            }
        }
        assert forall|b: DataIndex| #[trigger] after.is_free(b) implies after.free.contains(b) by {
            if b == index {
                assert(after.free[0] == b);
            } else {
                assert(self.is_free(b));
                let k = choose|k: int| 0 <= k < self.free.len() && self.free[k] == b;
                assert(after.free[k + 1] == b);
            }
        }
        assert forall|k: int| 0 <= k < after.free.len() implies (
        #[trigger] after.blocks[after.free[k] as int]) == (Block::Free {
            next: after.free_next(k),
        }) by {
            if k > 0 {
                assert(self.is_free(self.free[k - 1]));
                assert(self.blocks[self.free[k - 1] as int] == Block::Free {
                    next: self.free_next(k - 1),
                });
                if k + 1 < after.free.len() {
                    assert(after.free[k + 1] == self.free[k]);
                }
            } else {
                if self.free.len() > 0 {
                    assert(after.free[1] == self.free[0]);
                }
            }
        }
    }

    /// `self` has exactly the seats of `before`, each with the trader, the
    /// position and the cost basis it had.
    pub open spec fn keeps_seats_of(self, before: MarketView) -> bool {
        &&& self.header.total_long_base_atoms == before.header.total_long_base_atoms
        &&& self.header.total_short_base_atoms == before.header.total_short_base_atoms
        &&& forall|b: DataIndex| #[trigger] self.is_seat(b) <==> before.is_seat(b)
        &&& forall|b: DataIndex| #[trigger]
            before.is_seat(b) ==> {
                &&& self.seat_at(b).trader@ == before.seat_at(b).trader@
                &&& self.seat_at(b).position_size == before.seat_at(b).position_size
                &&& self.seat_at(b).quote_cost_basis == before.seat_at(b).quote_cost_basis
            }
    }

    /// `self` is a well-formed market that trading has made of `before`: it
    /// keeps the seats of `before` and continues its sequence of orders.
    pub open spec fn succeeds(self, before: MarketView) -> bool {
        &&& self.wf()
        &&& self.keeps_seats_of(before)
        &&& before.sequence_continues(self)
    }

    /// A well-formed market succeeds itself.
    pub proof fn lemma_succeeds_itself(self)
        requires
            self.wf(),
        ensures
            self.succeeds(self),
    {
    }

    /// What succeeds a successor succeeds the market it came from.
    pub proof fn lemma_succeeds_chain(self, middle: MarketView, last: MarketView)
        requires
            middle.succeeds(self),
            last.succeeds(middle),
        ensures
            last.succeeds(self),
    {
        assert forall|b: DataIndex| #[trigger] last.is_seat(b) <==> self.is_seat(b) by {
            assert(middle.is_seat(b) <==> self.is_seat(b));
        }
        assert forall|b: DataIndex| #[trigger] self.is_seat(b) implies {
            &&& last.seat_at(b).trader@ == self.seat_at(b).trader@
            &&& last.seat_at(b).position_size == self.seat_at(b).position_size
            &&& last.seat_at(b).quote_cost_basis == self.seat_at(b).quote_cost_basis
        } by {
            assert(middle.is_seat(b));
        }
        assert forall|b: DataIndex| #[trigger] last.is_order(b) implies (self.is_order(b)
            && self.order_at(b).sequence_number == last.order_at(b).sequence_number)
            || last.order_at(b).sequence_number >= self.header.next_sequence_number by {
            if middle.is_order(b) && middle.order_at(b).sequence_number == last.order_at(
                b,
            ).sequence_number {
            }
        }
    }

    /// A market of the same shape that keeps positions and cost bases
    /// succeeds the market it came from.
    pub proof fn lemma_same_shape_succeeds(self, after: MarketView)
        requires
            self.wf(),
            self.same_shape(after),
            after.header.total_long_base_atoms == self.header.total_long_base_atoms,
            after.header.total_short_base_atoms == self.header.total_short_base_atoms,
            forall|b: DataIndex| #[trigger]
                self.is_seat(b) ==> after.seat_at(b).position_size == self.seat_at(
                    b,
                ).position_size && after.seat_at(b).quote_cost_basis == self.seat_at(
                    b,
                ).quote_cost_basis,
            after.totals_ok(),
        ensures
            after.succeeds(self),
    {
        self.lemma_same_shape_wf(after);
        assert forall|b: DataIndex| b < self.blocks.len() implies same_role(
            self.blocks[b as int],
            #[trigger] after.blocks[b as int],
        ) by {}
        assert forall|b: DataIndex| #[trigger] after.is_seat(b) <==> self.is_seat(b) by {
            if b < self.blocks.len() {
                assert(same_role(self.blocks[b as int], after.blocks[b as int]));
            }
        }
        assert forall|b: DataIndex| #[trigger] self.is_seat(b) implies after.seat_at(b).trader@
            == self.seat_at(b).trader@ by {
            assert(same_role(self.blocks[b as int], after.blocks[b as int]));
        }
        assert forall|b: DataIndex| #[trigger] after.is_order(b) implies self.is_order(b)
            && self.order_at(b).sequence_number == after.order_at(b).sequence_number by {
            assert(same_role(self.blocks[b as int], after.blocks[b as int]));
        }
    }

    /// `after` has the indices, the free list and the block roles of `self`,
    /// and has handed out no fewer sequence numbers.
    pub open spec fn same_shape(self, after: MarketView) -> bool {
        &&& after.seats == self.seats
        &&& after.bids == self.bids
        &&& after.asks == self.asks
        &&& after.free == self.free
        &&& after.blocks.len() == self.blocks.len()
        &&& after.header.free_list_head == self.header.free_list_head
        &&& after.header.next_sequence_number >= self.header.next_sequence_number
        &&& forall|b: int|
            0 <= b < self.blocks.len() ==> same_role(#[trigger] self.blocks[b], after.blocks[b])
    }

    /// Every block of a well-formed market plays its own role.
    pub proof fn lemma_same_role_reflexive(self)
        requires
            self.wf(),
        ensures
            forall|b: int|
                0 <= b < self.blocks.len() ==> same_role(#[trigger] self.blocks[b], self.blocks[b]),
    {
        assert forall|b: int| 0 <= b < self.blocks.len() implies same_role(
            #[trigger] self.blocks[b],
            self.blocks[b],
        ) by {
            if self.blocks[b] is Order {
                assert(self.is_order(b as u32));
            }
        }
    }

    /// Rewriting one block in its role, with the indices and the free list
    /// left alone, gives a market of the same shape.
    pub proof fn lemma_one_block_same_shape(self, after: MarketView, index: int)
        requires
            self.wf(),
            0 <= index < self.blocks.len(),
            after.blocks == self.blocks.update(index, after.blocks[index]),
            same_role(self.blocks[index], after.blocks[index]),
            after.seats == self.seats,
            after.bids == self.bids,
            after.asks == self.asks,
            after.free == self.free,
            after.header.free_list_head == self.header.free_list_head,
            after.header.next_sequence_number >= self.header.next_sequence_number,
        ensures
            self.same_shape(after),
    {
        self.lemma_same_role_reflexive();
        assert forall|b: int| 0 <= b < self.blocks.len() implies same_role(
            #[trigger] self.blocks[b],
            after.blocks[b],
        ) by {
            if b != index {
                assert(after.blocks[b] == self.blocks[b]);
            }
        }
    }

    /// Rewriting header fields other than the free list's head, the sequence
    /// counter and the totals keeps the invariant.
    pub proof fn lemma_header_change_wf(self, after: MarketView)
        requires
            self.wf(),
            after == (MarketView { header: after.header, ..self }),
            after.header.free_list_head == self.header.free_list_head,
            after.header.next_sequence_number == self.header.next_sequence_number,
            after.header.total_long_base_atoms == self.header.total_long_base_atoms,
            after.header.total_short_base_atoms == self.header.total_short_base_atoms,
        ensures
            after.wf(),
    {
        self.lemma_same_role_reflexive();
        self.lemma_same_shape_wf(after);
    }

    /// A change of balances, positions or header fields keeps the invariant,
    /// provided the header's totals still match the seats.
    pub proof fn lemma_same_shape_wf(self, after: MarketView)
        requires
            self.wf(),
            self.same_shape(after),
            after.totals_ok(),
        ensures
            after.wf(),
    {
        assert forall|b: DataIndex| b < self.blocks.len() implies same_role(
            self.blocks[b as int],
            #[trigger] after.blocks[b as int],
        ) by {}
        self.lemma_seats_kept(after);
        self.lemma_free_kept(after);
        self.lemma_books_kept(after);
    }
}

} // verus!
