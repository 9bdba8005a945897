//! Deciding whether a market is well formed.
//!
//! A market that the operations of this crate have built is well formed by
//! construction. One that was read from bytes is not; this module decides
//! the invariant for it, clause by clause.

use vstd::prelude::*;
use hypertree::DataIndex;
use crate::seats::{lemma_before_transitive, magnitude, standing, Standing};
use crate::state::{
    comes_before, order_before, total_long, total_short, Block, ClaimedSeat, Market, MarketView,
    RestingOrder, NIL,
};

verus! {

impl MarketView {
    /// The list of blocks that play a role: 1 for seats, 2 for bids, 3 for
    /// asks and 4 for free blocks.
    pub open spec fn listing(self, role: u8) -> Seq<DataIndex> {
        if role == 1 {
            self.seats
        } else if role == 2 {
            self.bids
        } else if role == 3 {
            self.asks
        } else {
            self.free
        }
    }

    /// Whether block `b` plays the given role.
    pub open spec fn plays(self, b: DataIndex, role: u8) -> bool {
        if role == 1 {
            self.is_seat(b)
        } else if role == 2 {
            self.is_order(b) && self.order_at(b).is_bid
        } else if role == 3 {
            self.is_order(b) && !self.order_at(b).is_bid
        } else {
            self.is_free(b)
        }
    }

    /// Every entry of the list of a role is a block that plays the role.
    pub open spec fn in_role(self, role: u8) -> bool {
        forall|k: int|
            0 <= k < self.listing(role).len() ==> self.plays(#[trigger] self.listing(role)[k], role)
    }

    /// The list of a role is sound: it holds blocks of the role only, holds
    /// none twice, and holds every block of the role.
    pub open spec fn role_sound(self, role: u8) -> bool {
        self.in_role(role) && self.listing(role).no_duplicates() && self.all_listed(role)
    }

    /// Every block that plays a role is on the list of the role.
    pub open spec fn all_listed(self, role: u8) -> bool {
        forall|b: DataIndex| #[trigger] self.plays(b, role) ==> self.listing(role).contains(b)
    }
}

impl MarketView {
    /// The free list starts at the header and each free block names its
    /// successor.
    pub open spec fn free_linked(self) -> bool {
        &&& self.header.free_list_head == if self.free.len() > 0 {
            self.free[0]
        } else {
            NIL
        }
        &&& forall|k: int|
            0 <= k < self.free.len() ==> (#[trigger] self.blocks[self.free[k] as int])
                == (Block::Free { next: self.free_next(k) })
    }

    /// Each order of a book is matched before the next one.
    pub open spec fn book_in_steps(self, is_bid: bool) -> bool {
        forall|k: int, l: int|
            0 <= k && l == k + 1 && l < self.book(is_bid).len() ==> order_before(
                is_bid,
                self.order_at(#[trigger] self.book(is_bid)[k]),
                self.order_at(#[trigger] self.book(is_bid)[l]),
            )
    }

    /// Each order of a book is matched before all that follow it.
    pub open spec fn book_sorted(self, is_bid: bool) -> bool {
        forall|i: int, j: int|
            0 <= i < j < self.book(is_bid).len() ==> order_before(
                is_bid,
                self.order_at(#[trigger] self.book(is_bid)[i]),
                self.order_at(#[trigger] self.book(is_bid)[j]),
            )
    }

    /// The order at `index` belongs to a seat, still has base atoms to fill,
    /// and carries a sequence number that the market has handed out.
    pub open spec fn order_holds(self, index: DataIndex) -> bool {
        &&& self.is_seat(self.order_at(index).trader_index)
        &&& self.order_at(index).sequence_number < self.header.next_sequence_number
        &&& self.order_at(index).num_base_atoms > 0
    }

    /// Every listed order holds.
    pub open spec fn book_holds(self, is_bid: bool) -> bool {
        forall|k: int|
            0 <= k < self.book(is_bid).len() ==> self.order_holds(#[trigger] self.book(is_bid)[k])
    }

    /// All orders, the bids before the asks.
    pub open spec fn all_orders(self) -> Seq<DataIndex> {
        self.bids + self.asks
    }

    /// No two listed orders share a sequence number.
    pub open spec fn numbers_differ(self) -> bool {
        forall|i: int, j: int|
            0 <= i < j < self.all_orders().len() ==> self.order_at(
                #[trigger] self.all_orders()[i],
            ).sequence_number != self.order_at(#[trigger] self.all_orders()[j]).sequence_number
    }

    /// The trader of each listed seat comes before the trader of the next.
    pub open spec fn seats_in_steps(self) -> bool {
        forall|k: int, l: int|
            0 <= k && l == k + 1 && l < self.seats.len() ==> comes_before(
                self.seat_at(#[trigger] self.seats[k]).trader@,
                self.seat_at(#[trigger] self.seats[l]).trader@,
            )
    }

    /// The trader of each listed seat comes before the traders of all
    /// that follow.
    pub open spec fn seats_sorted(self) -> bool {
        forall|i: int, j: int|
            0 <= i < j < self.seats.len() ==> comes_before(
                self.seat_at(#[trigger] self.seats[i]).trader@,
                self.seat_at(#[trigger] self.seats[j]).trader@,
            )
    }

    /// Seats that are in order step by step are in order throughout.
    pub proof fn lemma_seat_steps_sort(self, i: int, j: int)
        requires
            self.seats_in_steps(),
            0 <= i < j < self.seats.len(),
        ensures
            comes_before(
                self.seat_at(self.seats[i]).trader@,
                self.seat_at(self.seats[j]).trader@,
            ),
        decreases j - i,
    {
        if i + 1 < j {
            self.lemma_seat_steps_sort(i, j - 1);
            assert(comes_before(
                self.seat_at(self.seats[j - 1]).trader@,
                self.seat_at(self.seats[j]).trader@,
            ));
            lemma_before_transitive(
                self.seat_at(self.seats[i]).trader@,
                self.seat_at(self.seats[j - 1]).trader@,
                self.seat_at(self.seats[j]).trader@,
                0,
            );
        } else {
            assert(comes_before(
                self.seat_at(self.seats[i]).trader@,
                self.seat_at(self.seats[j]).trader@,
            ));
        }
    }

    /// The books do not cross.
    pub open spec fn uncrossed(self) -> bool {
        self.bids.len() > 0 && self.asks.len() > 0 ==> self.order_at(
            self.bids[0],
        ).price.scaled() <= self.order_at(self.asks[0]).price.scaled()
    }

    /// A book whose orders are in matching order step by step is in
    /// matching order throughout.
    pub proof fn lemma_steps_sort(self, is_bid: bool, i: int, j: int)
        requires
            self.book_in_steps(is_bid),
            0 <= i < j < self.book(is_bid).len(),
        ensures
            order_before(
                is_bid,
                self.order_at(self.book(is_bid)[i]),
                self.order_at(self.book(is_bid)[j]),
            ),
        decreases j - i,
    {
        if i + 1 < j {
            self.lemma_steps_sort(is_bid, i, j - 1);
            assert(order_before(
                is_bid,
                self.order_at(self.book(is_bid)[j - 1]),
                self.order_at(self.book(is_bid)[j]),
            ));
        } else {
            assert(order_before(
                is_bid,
                self.order_at(self.book(is_bid)[i]),
                self.order_at(self.book(is_bid)[j]),
            ));
        }
    }
}

impl MarketView {
    /// An entry of a list whose entries play the role plays the role.
    pub proof fn lemma_in_role_at(self, role: u8, k: int)
        requires
            self.in_role(role),
            0 <= k < self.listing(role).len(),
        ensures
            self.plays(self.listing(role)[k], role),
    {
    }

    /// A block that plays a role is on the list that holds all of them.
    pub proof fn lemma_all_listed_at(self, role: u8, b: DataIndex)
        requires
            self.all_listed(role),
            self.plays(b, role),
        ensures
            self.listing(role).contains(b),
    {
    }

    /// The invariant, clause by clause, in the form in which it is decided.
    pub open spec fn holds_by_clauses(self) -> bool {
        &&& self.counts_ok()
        &&& self.role_sound(1)
        &&& self.role_sound(2)
        &&& self.role_sound(3)
        &&& self.role_sound(4)
        &&& self.free_linked()
        &&& self.book_in_steps(true)
        &&& self.book_in_steps(false)
        &&& self.book_holds(true)
        &&& self.book_holds(false)
        &&& self.numbers_differ()
        &&& self.seats_in_steps()
        &&& self.totals_ok()
        &&& self.uncrossed()
    }

    /// The clauses make up the parts of the invariant that speak of seats
    /// and of the free list.
    proof fn lemma_clauses_give_seats_and_free(self)
        requires
            self.role_sound(1),
            self.role_sound(4),
            self.free_linked(),
            self.seats_in_steps(),
        ensures
            self.seats_ok(),
            self.free_ok(),
    {
        assert forall|k: int| 0 <= k < self.seats.len() implies self.is_seat(
            #[trigger] self.seats[k],
        ) by {
            self.lemma_in_role_at(1, k);
        }
        assert forall|b: DataIndex| #[trigger] self.is_seat(b) implies self.seats.contains(b) by {
            self.lemma_all_listed_at(1, b);
        }
        assert forall|i: int, j: int| 0 <= i < j < self.seats.len() implies comes_before(
            self.seat_at(#[trigger] self.seats[i]).trader@,
            self.seat_at(#[trigger] self.seats[j]).trader@,
        ) by {
            self.lemma_seat_steps_sort(i, j);
        }
        assert forall|k: int| 0 <= k < self.free.len() implies self.is_free(
            #[trigger] self.free[k],
        ) by {
            self.lemma_in_role_at(4, k);
        }
        assert forall|b: DataIndex| #[trigger] self.is_free(b) implies self.free.contains(b) by {
            self.lemma_all_listed_at(4, b);
        }
    }

    /// Each book lists the order blocks of its side and nothing else.
    pub open spec fn books_listed(self) -> bool {
        &&& forall|side: bool, k: int|
            0 <= k < self.book(side).len() ==> self.is_order(#[trigger] self.book(side)[k])
                && self.order_at(self.book(side)[k]).is_bid == side
        &&& forall|b: DataIndex| #[trigger]
            self.is_order(b) ==> self.book(self.order_at(b).is_bid).contains(b)
    }

    /// Both books are in matching order.
    pub open spec fn books_sorted(self) -> bool {
        forall|side: bool, i: int, j: int|
            0 <= i < j < self.book(side).len() ==> order_before(
                side,
                self.order_at(#[trigger] self.book(side)[i]),
                self.order_at(#[trigger] self.book(side)[j]),
            )
    }

    /// Every order block holds.
    pub open spec fn orders_hold(self) -> bool {
        forall|b: DataIndex| #[trigger]
            self.is_order(b) ==> {
                &&& self.is_seat(self.order_at(b).trader_index)
                &&& self.order_at(b).sequence_number < self.header.next_sequence_number
                &&& self.order_at(b).num_base_atoms > 0
            }
    }

    /// No two order blocks share a sequence number.
    pub open spec fn numbers_distinct(self) -> bool {
        forall|a: DataIndex, b: DataIndex|
            #[trigger] self.is_order(a) && #[trigger] self.is_order(b) && a != b ==> self.order_at(
                a,
            ).sequence_number != self.order_at(b).sequence_number
    }

    /// The part of the invariant that speaks of books, clause by clause.
    proof fn lemma_books_ok_unfolded(self)
        ensures
            self.books_ok() == (self.bids.no_duplicates() && self.asks.no_duplicates()
                && self.books_listed() && self.books_sorted() && self.orders_hold()
                && self.numbers_distinct() && self.uncrossed()),
    {
    }

    /// Sound lists of bids and asks list the order blocks by side.
    proof fn lemma_books_listed(self)
        requires
            self.in_role(2),
            self.in_role(3),
            self.all_listed(2),
            self.all_listed(3),
        ensures
            self.books_listed(),
    {
        assert forall|side: bool, k: int| 0 <= k < self.book(side).len() implies self.is_order(
            #[trigger] self.book(side)[k],
        ) && self.order_at(self.book(side)[k]).is_bid == side by {
            if side {
                self.lemma_in_role_at(2, k);
            } else {
                self.lemma_in_role_at(3, k);
            }
        }
        assert forall|b: DataIndex| #[trigger] self.is_order(b) implies self.book(
            self.order_at(b).is_bid,
        ).contains(b) by {
            if self.order_at(b).is_bid {
                self.lemma_all_listed_at(2, b);
            } else {
                self.lemma_all_listed_at(3, b);
            }
        }
    }

    /// Books that are in matching order step by step are in matching order.
    proof fn lemma_books_sorted(self)
        requires
            self.book_in_steps(true),
            self.book_in_steps(false),
        ensures
            self.books_sorted(),
    {
        self.lemma_steps_are_sorted(true);
        self.lemma_steps_are_sorted(false);
        assert forall|side: bool, i: int, j: int|
            0 <= i < j < self.book(side).len() implies order_before(
            side,
            self.order_at(#[trigger] self.book(side)[i]),
            self.order_at(#[trigger] self.book(side)[j]),
        ) by {
            assert(self.book_sorted(side));
        }
    }

    /// When every listed order holds, every order block does.
    proof fn lemma_orders_hold(self)
        requires
            self.all_listed(2),
            self.all_listed(3),
            self.book_holds(true),
            self.book_holds(false),
        ensures
            self.orders_hold(),
    {
        assert forall|b: DataIndex| #[trigger] self.is_order(b) implies {
            &&& self.is_seat(self.order_at(b).trader_index)
            &&& self.order_at(b).sequence_number < self.header.next_sequence_number
            &&& self.order_at(b).num_base_atoms > 0
        } by {
            let side = self.order_at(b).is_bid;
            if side {
                self.lemma_all_listed_at(2, b);
            } else {
                self.lemma_all_listed_at(3, b);
            }
            let k = choose|k: int| 0 <= k < self.book(side).len() && self.book(side)[k] == b;
            assert(self.book_holds(side));
            assert(self.order_holds(self.book(side)[k]));
        }
    }

    /// When no two listed orders share a sequence number, no two order
    /// blocks do.
    proof fn lemma_numbers_distinct(self)
        requires
            self.all_listed(2),
            self.all_listed(3),
            self.numbers_differ(),
        ensures
            self.numbers_distinct(),
    {
        assert forall|a: DataIndex, b: DataIndex|
            #[trigger] self.is_order(a) && #[trigger] self.is_order(b) && a
                != b implies self.order_at(a).sequence_number != self.order_at(
            b,
        ).sequence_number by {
            let i = self.position_in_orders(a);
            let j = self.position_in_orders(b);
            self.lemma_position_in_orders(a);
            self.lemma_position_in_orders(b);
            if i < j {
                assert(self.order_at(self.all_orders()[i]).sequence_number != self.order_at(
                    self.all_orders()[j],
                ).sequence_number);
            } else {
                assert(self.order_at(self.all_orders()[j]).sequence_number != self.order_at(
                    self.all_orders()[i],
                ).sequence_number);
            }
        }
    }

    /// The clauses make up the part of the invariant that speaks of books.
    proof fn lemma_clauses_give_books(self)
        requires
            self.role_sound(2),
            self.role_sound(3),
            self.book_in_steps(true),
            self.book_in_steps(false),
            self.book_holds(true),
            self.book_holds(false),
            self.numbers_differ(),
            self.uncrossed(),
        ensures
            self.books_ok(),
    {
        self.lemma_books_listed();
        self.lemma_books_sorted();
        self.lemma_orders_hold();
        self.lemma_numbers_distinct();
        self.lemma_books_ok_unfolded();
    }

    /// Where an order stands among all orders.
    pub open spec fn position_in_orders(self, b: DataIndex) -> int {
        if self.order_at(b).is_bid {
            self.bids.index_of(b)
        } else {
            self.bids.len() + self.asks.index_of(b)
        }
    }

    /// Every order stands among all orders at its position.
    proof fn lemma_position_in_orders(self, b: DataIndex)
        requires
            self.is_order(b),
            self.all_listed(2),
            self.all_listed(3),
        ensures
            0 <= self.position_in_orders(b) < self.all_orders().len(),
            self.all_orders()[self.position_in_orders(b)] == b,
    {
        if self.order_at(b).is_bid {
            self.lemma_all_listed_at(2, b);
        } else {
            self.lemma_all_listed_at(3, b);
        }
    }

    /// The invariant makes the list of every role sound.
    proof fn lemma_invariant_gives_roles(self)
        requires
            self.seats_ok(),
            self.free_ok(),
            self.bids.no_duplicates(),
            self.asks.no_duplicates(),
            self.books_listed(),
        ensures
            self.role_sound(1),
            self.role_sound(2),
            self.role_sound(3),
            self.role_sound(4),
    {
        assert(self.in_role(1)) by {
            assert forall|k: int| 0 <= k < self.listing(1).len() implies self.plays(
                #[trigger] self.listing(1)[k],
                1,
            ) by {
                assert(self.is_seat(self.seats[k]));
            }
        }
        assert(self.in_role(2)) by {
            assert forall|k: int| 0 <= k < self.listing(2).len() implies self.plays(
                #[trigger] self.listing(2)[k],
                2,
            ) by {
                assert(self.is_order(self.book(true)[k]));
            }
        }
        assert(self.in_role(3)) by {
            assert forall|k: int| 0 <= k < self.listing(3).len() implies self.plays(
                #[trigger] self.listing(3)[k],
                3,
            ) by {
                assert(self.is_order(self.book(false)[k]));
            }
        }
        assert(self.in_role(4)) by {
            assert forall|k: int| 0 <= k < self.listing(4).len() implies self.plays(
                #[trigger] self.listing(4)[k],
                4,
            ) by {
                assert(self.is_free(self.free[k]));
            }
        }
        assert(self.all_listed(1)) by {
            assert forall|b: DataIndex| #[trigger] self.plays(b, 1) implies self.listing(
                1,
            ).contains(b) by {
                assert(self.is_seat(b));
            }
        }
        assert(self.all_listed(2)) by {
            assert forall|b: DataIndex| #[trigger] self.plays(b, 2) implies self.listing(
                2,
            ).contains(b) by {
                assert(self.is_order(b));
            }
        }
        assert(self.all_listed(3)) by {
            assert forall|b: DataIndex| #[trigger] self.plays(b, 3) implies self.listing(
                3,
            ).contains(b) by {
                assert(self.is_order(b));
            }
        }
        assert(self.all_listed(4)) by {
            assert forall|b: DataIndex| #[trigger] self.plays(b, 4) implies self.listing(
                4,
            ).contains(b) by {
                assert(self.is_free(b));
            }
        }
    }

    /// The invariant gives the clauses that speak of orders.
    proof fn lemma_invariant_gives_order_clauses(self)
        requires
            self.books_listed(),
            self.books_sorted(),
            self.orders_hold(),
            self.numbers_distinct(),
        ensures
            self.book_in_steps(true),
            self.book_in_steps(false),
            self.book_holds(true),
            self.book_holds(false),
            self.numbers_differ(),
    {
        self.lemma_steps_are_sorted(true);
        self.lemma_steps_are_sorted(false);
        assert(self.book_sorted(true) && self.book_sorted(false));
        assert(self.book_holds(true)) by {
            assert forall|k: int| 0 <= k < self.book(true).len() implies self.order_holds(
                #[trigger] self.book(true)[k],
            ) by {
                assert(self.is_order(self.book(true)[k]));
            }
        }
        assert(self.book_holds(false)) by {
            assert forall|k: int| 0 <= k < self.book(false).len() implies self.order_holds(
                #[trigger] self.book(false)[k],
            ) by {
                assert(self.is_order(self.book(false)[k]));
            }
        }
        assert(self.numbers_differ()) by {
            assert forall|i: int, j: int| 0 <= i < j < self.all_orders().len() implies self.order_at(
                #[trigger] self.all_orders()[i],
            ).sequence_number != self.order_at(#[trigger] self.all_orders()[j]).sequence_number by {
                let a = self.all_orders()[i];
                let b = self.all_orders()[j];
                if i < self.bids.len() {
                    assert(self.is_order(self.book(true)[i]));
                } else {
                    assert(self.is_order(self.book(false)[i - self.bids.len()]));
                }
                if j < self.bids.len() {
                    assert(self.is_order(self.book(true)[j]));
                } else {
                    assert(self.is_order(self.book(false)[j - self.bids.len()]));
                }
            }
        }
    }

    /// The invariant puts the seats in the order of their traders.
    proof fn lemma_invariant_gives_traders(self)
        requires
            self.seats_ok(),
        ensures
            self.seats_in_steps(),
    {
    }

    /// The invariant gives the clauses.
    proof fn lemma_invariant_gives_clauses(self)
        requires
            self.wf(),
        ensures
            self.holds_by_clauses(),
    {
        self.lemma_books_ok_unfolded();
        self.lemma_invariant_gives_roles();
        self.lemma_invariant_gives_order_clauses();
        self.lemma_invariant_gives_traders();
    }

    /// The clauses hold exactly when the invariant does.
    pub proof fn lemma_clauses_are_the_invariant(self)
        ensures
            self.holds_by_clauses() == self.wf(),
    {
        if self.holds_by_clauses() {
            self.lemma_clauses_give_seats_and_free();
            self.lemma_clauses_give_books();
        }
        if self.wf() {
            self.lemma_invariant_gives_clauses();
        }
    }

    /// A book is in matching order throughout exactly when it is so step
    /// by step.
    pub proof fn lemma_steps_are_sorted(self, is_bid: bool)
        ensures
            self.book_in_steps(is_bid) == self.book_sorted(is_bid),
    {
        if self.book_in_steps(is_bid) {
            assert forall|i: int, j: int| 0 <= i < j < self.book(is_bid).len() implies order_before(
                is_bid,
                self.order_at(#[trigger] self.book(is_bid)[i]),
                self.order_at(#[trigger] self.book(is_bid)[j]),
            ) by {
                self.lemma_steps_sort(is_bid, i, j);
            }
        }

    }
}

impl Market {
    /// The role that block `index` plays.
    fn role_of(&self, index: DataIndex) -> (role: u8)
        requires
            index < self@.blocks.len(),
        ensures
            1 <= role <= 4,
            self@.plays(index, role),
            forall|other: u8| 1 <= other <= 4 && other != role ==> !self@.plays(index, other),
    {
        match self.blocks[index as usize] {
            Block::Seat(_) => 1,
            Block::Order(order) => if order.is_bid {
                2
            } else {
                3
            },
            Block::Free { .. } => 4,
        }
    }

    /// Whether every entry of `list`, the list of `role`, is a block that
    /// plays the role.
    fn list_in_role(&self, list: &Vec<DataIndex>, role: u8) -> (ok: bool)
        requires
            1 <= role <= 4,
            list@ == self@.listing(role),
        ensures
            ok == self@.in_role(role),
    {
        let mut k: usize = 0;
        while k < list.len()
            invariant
                k <= list.len(),
                1 <= role <= 4,
                list@ == self@.listing(role),
                forall|j: int| 0 <= j < k ==> self@.plays(#[trigger] self@.listing(role)[j], role),
            decreases list.len() - k,
        {
            let index: DataIndex = list[k];
            if index as usize >= self.blocks.len() {
                assert(!self@.plays(self@.listing(role)[k as int], role));
                return false;
            }
            if self.role_of(index) != role {
                assert(!self@.plays(self@.listing(role)[k as int], role));
                return false;
            }
            k = k + 1;
        }
        true
    }

    /// Marks the entries of `list` with `role`, and says whether none of
    /// them was marked before.
    fn mark_list(&self, list: &Vec<DataIndex>, role: u8, marks: &mut Vec<u8>) -> (ok: bool)
        requires
            old(marks)@.len() == self@.blocks.len(),
            self@.blocks.len() <= NIL,
            1 <= role <= 4,
            forall|k: int| 0 <= k < list@.len() ==> (#[trigger] list@[k]) < self@.blocks.len(),
            forall|b: int| 0 <= b < old(marks)@.len() ==> (#[trigger] old(marks)@[b]) != role,
        ensures
            final(marks)@.len() == old(marks)@.len(),
            ok == (list@.no_duplicates() && forall|k: int|
                0 <= k < list@.len() ==> old(marks)@[(#[trigger] list@[k]) as int] == 0),
            ok ==> forall|b: int|
                0 <= b < final(marks)@.len() ==> (#[trigger] final(marks)@[b]) == if list@.contains(
                    b as DataIndex,
                ) {
                    role
                } else {
                    old(marks)@[b]
                },
    {
        let mut k: usize = 0;
        while k < list.len()
            invariant
                k <= list.len(),
                marks@.len() == old(marks)@.len(),
                marks@.len() == self@.blocks.len(),
                self@.blocks.len() <= NIL,
                1 <= role <= 4,
                forall|j: int| 0 <= j < list@.len() ==> (#[trigger] list@[j]) < self@.blocks.len(),
                forall|b: int| 0 <= b < old(marks)@.len() ==> (#[trigger] old(marks)@[b]) != role,
                list@.subrange(0, k as int).no_duplicates(),
                forall|j: int| 0 <= j < k ==> old(marks)@[(#[trigger] list@[j]) as int] == 0,
                forall|b: int|
                    0 <= b < marks@.len() ==> (#[trigger] marks@[b]) == if list@.subrange(
                        0,
                        k as int,
                    ).contains(b as DataIndex) {
                        role
                    } else {
                        old(marks)@[b]
                    },
            decreases list.len() - k,
        {
            let index: DataIndex = list[k];
            let ghost prefix = list@.subrange(0, k as int);
            let ghost longer = list@.subrange(0, k + 1);
            assert(longer =~= prefix.push(index));
            if marks[index as usize] != 0 {
                proof {
                    if marks@[index as int] == role {
                        assert(prefix.contains(index));
                        let j = choose|j: int| 0 <= j < prefix.len() && prefix[j] == index;
                        assert(list@[j] == list@[k as int]);
                        assert(!list@.no_duplicates());
                    } else {
                        assert(old(marks)@[index as int] != 0);
                    }
                }
                return false;
            }
            proof {
                assert(!prefix.contains(index));
                assert forall|i: int, j: int|
                    0 <= i < longer.len() && 0 <= j < longer.len() && i != j implies longer[i]
                    != longer[j] by {
                    if i < k && j < k {
                        assert(prefix[i] != prefix[j]);
                    } else if i < k {
                        assert(prefix[i] == longer[i]);
                    } else {
                        assert(prefix[j] == longer[j]);
                    }
                }
            }
            let ghost before = marks@;
            marks.set(index as usize, role);
            proof {
                assert forall|b: int| 0 <= b < marks@.len() implies (#[trigger] marks@[b])
                    == if longer.contains(b as DataIndex) {
                    role
                } else {
                    old(marks)@[b]
                } by {
                    if b == index as int {
                        assert(longer[k as int] == index);
                    } else {
                        if prefix.contains(b as DataIndex) {
                            let j = choose|j: int| 0 <= j < prefix.len() && prefix[j] == b as DataIndex;
                            assert(longer[j] == b as DataIndex);
                        }
                        if longer.contains(b as DataIndex) {
                            let j = choose|j: int| 0 <= j < longer.len() && longer[j] == b as DataIndex;
                            assert(longer[k as int] == index);
                            assert(j != k);
                            assert(prefix[j] == b as DataIndex);
                        }
                    }
                }
            }
            k = k + 1;
        }
        assert(list@.subrange(0, k as int) =~= list@);
        true
    }

    /// Whether the four lists are sound: each holds blocks of its role
    /// only, holds none twice, and holds every block of its role.
    fn lists_sound(&self, free: &Vec<DataIndex>) -> (ok: bool)
        requires
            free@ == self@.free,
            self@.blocks.len() <= NIL,
        ensures
            ok == (self@.role_sound(1) && self@.role_sound(2) && self@.role_sound(3)
                && self@.role_sound(4)),
    {
        if !self.list_in_role(&self.seats, 1) || !self.list_in_role(&self.bids, 2)
            || !self.list_in_role(&self.asks, 3) || !self.list_in_role(free, 4) {
            return false;
        }
        assert forall|k: int| 0 <= k < self.seats@.len() implies (#[trigger] self.seats@[k])
            < self@.blocks.len() by {
            assert(self@.plays(self@.listing(1)[k], 1));
        }
        assert forall|k: int| 0 <= k < self.bids@.len() implies (#[trigger] self.bids@[k])
            < self@.blocks.len() by {
            assert(self@.plays(self@.listing(2)[k], 2));
        }
        assert forall|k: int| 0 <= k < self.asks@.len() implies (#[trigger] self.asks@[k])
            < self@.blocks.len() by {
            assert(self@.plays(self@.listing(3)[k], 3));
        }
        assert forall|k: int| 0 <= k < free@.len() implies (#[trigger] free@[k])
            < self@.blocks.len() by {
            assert(self@.plays(self@.listing(4)[k], 4));
        }
        let mut marks: Vec<u8> = Vec::new();
        let mut n: usize = 0;
        while n < self.blocks.len()
            invariant
                n <= self.blocks.len(),
                marks@.len() == n,
                forall|b: int| 0 <= b < n ==> (#[trigger] marks@[b]) == 0,
            decreases self.blocks.len() - n,
        {
            marks.push(0);
            n = n + 1;
        }
        let ghost marks0 = marks@;
        if !self.mark_list(&self.seats, 1, &mut marks) {
            assert(!self@.listing(1).no_duplicates());
            return false;
        }
        let ghost marks1 = marks@;
        if !self.mark_list(&self.bids, 2, &mut marks) {
            proof {
                if self@.listing(2).no_duplicates() {
                    let k = choose|k: int|
                        0 <= k < self@.bids.len() && marks1[(#[trigger] self@.bids[k]) as int] != 0;
                    assert(self@.plays(self@.listing(2)[k], 2));
                    assert(self@.seats.contains(self@.bids[k]));
                    let j = choose|j: int|
                        0 <= j < self@.seats.len() && self@.seats[j] == self@.bids[k];
                    assert(self@.plays(self@.listing(1)[j], 1));
                }
            }
            return false;
        }
        let ghost marks2 = marks@;
        if !self.mark_list(&self.asks, 3, &mut marks) {
            proof {
                if self@.listing(3).no_duplicates() {
                    let k = choose|k: int|
                        0 <= k < self@.asks.len() && marks2[(#[trigger] self@.asks[k]) as int] != 0;
                    let b = self@.asks[k];
                    assert(self@.plays(self@.listing(3)[k], 3));
                    if self@.bids.contains(b) {
                        let j = choose|j: int| 0 <= j < self@.bids.len() && self@.bids[j] == b;
                        assert(self@.plays(self@.listing(2)[j], 2));
                    } else {
                        assert(marks2[b as int] == marks1[b as int]);
                        assert(self@.seats.contains(b));
                        let j = choose|j: int| 0 <= j < self@.seats.len() && self@.seats[j] == b;
                        assert(self@.plays(self@.listing(1)[j], 1));
                    }
                }
            }
            return false;
        }
        let ghost marks3 = marks@;
        if !self.mark_list(free, 4, &mut marks) {
            proof {
                if self@.listing(4).no_duplicates() {
                    let k = choose|k: int|
                        0 <= k < self@.free.len() && marks3[(#[trigger] self@.free[k]) as int] != 0;
                    let b = self@.free[k];
                    assert(self@.plays(self@.listing(4)[k], 4));
                    if self@.asks.contains(b) {
                        let j = choose|j: int| 0 <= j < self@.asks.len() && self@.asks[j] == b;
                        assert(self@.plays(self@.listing(3)[j], 3));
                    } else if self@.bids.contains(b) {
                        assert(marks3[b as int] == marks2[b as int]);
                        let j = choose|j: int| 0 <= j < self@.bids.len() && self@.bids[j] == b;
                        assert(self@.plays(self@.listing(2)[j], 2));
                    } else {
                        assert(marks3[b as int] == marks2[b as int]);
                        assert(marks2[b as int] == marks1[b as int]);
                        assert(self@.seats.contains(b));
                        let j = choose|j: int| 0 <= j < self@.seats.len() && self@.seats[j] == b;
                        assert(self@.plays(self@.listing(1)[j], 1));
                    }
                }
            }
            return false;
        }
        // a block carries the mark of a role exactly when the list of the role holds it
        assert forall|c: DataIndex, role: u8|
            c < marks@.len() && 1 <= role <= 4 && #[trigger] self@.listing(role).contains(
                c,
            ) implies marks@[c as int] == role by {
            let b = c as int;
            let at = choose|at: int|
                0 <= at < self@.listing(role).len() && self@.listing(role)[at] == c;
            assert(self@.plays(self@.listing(role)[at], role));
            if role < 4 && self@.free.contains(c) {
                let j = choose|j: int| 0 <= j < self@.free.len() && self@.free[j] == c;
                assert(self@.plays(self@.listing(4)[j], 4));
            }
            if role < 3 && self@.asks.contains(c) {
                let j = choose|j: int| 0 <= j < self@.asks.len() && self@.asks[j] == c;
                assert(self@.plays(self@.listing(3)[j], 3));
            }
            if role < 2 && self@.bids.contains(c) {
                let j = choose|j: int| 0 <= j < self@.bids.len() && self@.bids[j] == c;
                assert(self@.plays(self@.listing(2)[j], 2));
            }
            assert(marks@[b] == if self@.free.contains(b as DataIndex) {
                4u8
            } else {
                marks3[b]
            });
            assert(marks3[b] == if self@.asks.contains(b as DataIndex) {
                3u8
            } else {
                marks2[b]
            });
            assert(marks2[b] == if self@.bids.contains(b as DataIndex) {
                2u8
            } else {
                marks1[b]
            });
            assert(marks1[b] == if self@.seats.contains(b as DataIndex) {
                1u8
            } else {
                marks0[b]
            });
        }
        assert forall|b: int|
            0 <= b < marks@.len() && 1 <= (#[trigger] marks@[b]) <= 4 implies self@.listing(
            marks@[b],
        ).contains(b as DataIndex) by {
            assert(marks@[b] == if self@.free.contains(b as DataIndex) {
                4u8
            } else {
                marks3[b]
            });
            assert(marks3[b] == if self@.asks.contains(b as DataIndex) {
                3u8
            } else {
                marks2[b]
            });
            assert(marks2[b] == if self@.bids.contains(b as DataIndex) {
                2u8
            } else {
                marks1[b]
            });
            assert(marks1[b] == if self@.seats.contains(b as DataIndex) {
                1u8
            } else {
                marks0[b]
            });
        }
        let mut b: usize = 0;
        while b < self.blocks.len()
            invariant
                b <= self.blocks.len(),
                marks@.len() == self.blocks.len(),
                self@.blocks.len() <= NIL,
                forall|c: DataIndex, role: u8|
                    c < b && 1 <= role <= 4 && #[trigger] self@.plays(c, role) ==> self@.listing(
                        role,
                    ).contains(c),
                forall|c: int|
                    0 <= c < marks@.len() && 1 <= (#[trigger] marks@[c]) <= 4 ==> self@.listing(
                        marks@[c],
                    ).contains(c as DataIndex),
                forall|c: DataIndex, role: u8|
                    c < marks@.len() && 1 <= role <= 4 && #[trigger] self@.listing(
                        role,
                    ).contains(c) ==> marks@[c as int] == role,
            decreases self.blocks.len() - b,
        {
            let role: u8 = self.role_of(b as DataIndex);
            if marks[b] != role {
                proof {
                    if self@.listing(role).contains(b as DataIndex) {
                        assert(marks@[b as int] == role);
                    }
                    assert(self@.plays(b as DataIndex, role));
                    assert(!self@.all_listed(role));
                    assert(!self@.role_sound(role));
                }
                return false;
            }
            assert(self@.listing(marks@[b as int]).contains(b as DataIndex));
            b = b + 1;
        }
        assert(self@.all_listed(1) && self@.all_listed(2) && self@.all_listed(3)
            && self@.all_listed(4));
        true
    }

    /// Whether the free list is linked as its blocks say.
    fn free_linked(&self, free: &Vec<DataIndex>) -> (ok: bool)
        requires
            free@ == self@.free,
            self@.in_role(4),
        ensures
            ok == self@.free_linked(),
    {
        let head: DataIndex = if free.len() > 0 {
            free[0]
        } else {
            NIL
        };
        if self.header.free_list_head != head {
            return false;
        }
        let mut k: usize = 0;
        while k < free.len()
            invariant
                k <= free.len(),
                free@ == self@.free,
                self@.in_role(4),
                forall|j: int|
                    0 <= j < k ==> (#[trigger] self@.blocks[self@.free[j] as int]) == (Block::Free {
                        next: self@.free_next(j),
                    }),
            decreases free.len() - k,
        {
            assert(self@.plays(self@.listing(4)[k as int], 4));
            let next: DataIndex = if k + 1 < free.len() {
                free[k + 1]
            } else {
                NIL
            };
            match self.blocks[free[k] as usize] {
                Block::Free { next: link } => {
                    if link != next {
                        assert(self@.blocks[self@.free[k as int] as int] != (Block::Free {
                            next: self@.free_next(k as int),
                        }));
                        return false;
                    }
                },
                _ => {
                    return false;
                },
            }
            k = k + 1;
        }
        true
    }

    /// Whether `first` is matched before `second` on the given side.
    fn matched_before(is_bid: bool, first: &RestingOrder, second: &RestingOrder) -> (r: bool)
        ensures
            r == order_before(is_bid, *first, *second),
    {
        let better: bool = if is_bid {
            second.price.value_lt(&first.price)
        } else {
            first.price.value_lt(&second.price)
        };
        let equal: bool = first.price.value_le(&second.price) && second.price.value_le(
            &first.price,
        );
        better || (equal && first.sequence_number < second.sequence_number)
    }

    /// Whether a book is in matching order, step by step.
    fn book_in_steps(&self, is_bid: bool) -> (ok: bool)
        requires
            self@.in_role(2),
            self@.in_role(3),
        ensures
            ok == self@.book_in_steps(is_bid),
    {
        let book: &Vec<DataIndex> = if is_bid {
            &self.bids
        } else {
            &self.asks
        };
        let role: u8 = if is_bid {
            2
        } else {
            3
        };
        if book.len() == 0 {
            return true;
        }
        let mut k: usize = 0;
        while k < book.len() - 1
            invariant
                book@.len() > 0,
                k <= book@.len() - 1,
                role == if is_bid {
                    2u8
                } else {
                    3u8
                },
                book@ == self@.book(is_bid),
                book@ == self@.listing(role),
                self@.in_role(role),
                forall|j: int, l: int|
                    0 <= j < k && l == j + 1 && l < book@.len() ==> order_before(
                        is_bid,
                        self@.order_at(#[trigger] self@.book(is_bid)[j]),
                        self@.order_at(#[trigger] self@.book(is_bid)[l]),
                    ),
            decreases book.len() - k,
        {
            assert(self@.plays(self@.listing(role)[k as int], role));
            assert(self@.plays(self@.listing(role)[k + 1], role));
            let first: RestingOrder = self.order_in(book[k]);
            let second: RestingOrder = self.order_in(book[k + 1]);
            if !Self::matched_before(is_bid, &first, &second) {
                assert(!order_before(
                    is_bid,
                    self@.order_at(self@.book(is_bid)[k as int]),
                    self@.order_at(self@.book(is_bid)[k + 1]),
                ));
                return false;
            }
            k = k + 1;
        }
        true
    }

    /// Whether every order of a book holds.
    fn book_holds(&self, is_bid: bool) -> (ok: bool)
        requires
            self@.in_role(2),
            self@.in_role(3),
        ensures
            ok == self@.book_holds(is_bid),
    {
        let book: &Vec<DataIndex> = if is_bid {
            &self.bids
        } else {
            &self.asks
        };
        let role: u8 = if is_bid {
            2
        } else {
            3
        };
        let mut k: usize = 0;
        while k < book.len()
            invariant
                k <= book.len(),
                role == if is_bid {
                    2u8
                } else {
                    3u8
                },
                book@ == self@.book(is_bid),
                book@ == self@.listing(role),
                self@.in_role(role),
                forall|j: int| 0 <= j < k ==> self@.order_holds(#[trigger] self@.book(is_bid)[j]),
            decreases book.len() - k,
        {
            assert(self@.plays(self@.listing(role)[k as int], role));
            let order: RestingOrder = self.order_in(book[k]);
            if self.seat(order.trader_index).is_none() || order.sequence_number
                >= self.header.next_sequence_number || order.num_base_atoms == 0 {
                assert(!self@.order_holds(self@.book(is_bid)[k as int]));
                return false;
            }
            k = k + 1;
        }
        true
    }

    /// Whether no two listed orders share a sequence number.
    fn numbers_differ(&self) -> (ok: bool)
        requires
            self@.in_role(2),
            self@.in_role(3),
        ensures
            ok == self@.numbers_differ(),
    {
        let mut all: Vec<DataIndex> = self.bids.clone();
        let mut k: usize = 0;
        while k < self.asks.len()
            invariant
                k <= self.asks.len(),
                all@ == self.bids@ + self.asks@.subrange(0, k as int),
            decreases self.asks.len() - k,
        {
            all.push(self.asks[k]);
            k = k + 1;
            assert(all@ =~= self.bids@ + self.asks@.subrange(0, k as int));
        }
        assert(self.asks@.subrange(0, k as int) =~= self.asks@);
        assert(all@ == self@.all_orders());
        assert forall|i: int| 0 <= i < all@.len() implies self@.is_order(#[trigger] all@[i]) by {
            if i < self@.bids.len() {
                assert(self@.plays(self@.listing(2)[i], 2));
            } else {
                assert(self@.plays(self@.listing(3)[i - self@.bids.len()], 3));
            }
        }
        let mut j: usize = 0;
        while j < all.len()
            invariant
                j <= all.len(),
                all@ == self@.all_orders(),
                forall|i: int| 0 <= i < all@.len() ==> self@.is_order(#[trigger] all@[i]),
                forall|a: int, b: int|
                    0 <= a < b < j ==> self@.order_at(#[trigger] all@[a]).sequence_number
                        != self@.order_at(#[trigger] all@[b]).sequence_number,
            decreases all.len() - j,
        {
            let later: RestingOrder = self.order_in(all[j]);
            let mut i: usize = 0;
            while i < j
                invariant
                    i <= j,
                    j < all.len(),
                    all@ == self@.all_orders(),
                    later == self@.order_at(all@[j as int]),
                    forall|c: int| 0 <= c < all@.len() ==> self@.is_order(#[trigger] all@[c]),
                    forall|a: int|
                        0 <= a < i ==> self@.order_at(#[trigger] all@[a]).sequence_number
                            != later.sequence_number,
                decreases j - i,
            {
                let earlier: RestingOrder = self.order_in(all[i]);
                if earlier.sequence_number == later.sequence_number {
                    assert(self@.order_at(self@.all_orders()[i as int]).sequence_number
                        == self@.order_at(self@.all_orders()[j as int]).sequence_number);
                    return false;
                }
                i = i + 1;
            }
            j = j + 1;
        }
        true
    }

    /// Whether the listed seats are in the order of their traders, step by
    /// step.
    fn seats_in_steps(&self) -> (ok: bool)
        requires
            self@.in_role(1),
        ensures
            ok == self@.seats_in_steps(),
    {
        assert forall|i: int| 0 <= i < self.seats@.len() implies self@.is_seat(
            #[trigger] self.seats@[i],
        ) by {
            assert(self@.plays(self@.listing(1)[i], 1));
        }
        if self.seats.len() == 0 {
            return true;
        }
        let mut k: usize = 0;
        while k < self.seats.len() - 1
            invariant
                self.seats@.len() > 0,
                k <= self.seats@.len() - 1,
                forall|i: int| 0 <= i < self.seats@.len() ==> self@.is_seat(#[trigger] self.seats@[i]),
                forall|j: int, l: int|
                    0 <= j < k && l == j + 1 && l < self.seats@.len() ==> comes_before(
                        self@.seat_at(#[trigger] self@.seats[j]).trader@,
                        self@.seat_at(#[trigger] self@.seats[l]).trader@,
                    ),
            decreases self.seats.len() - k,
        {
            let first: ClaimedSeat = self.seat_in(self.seats[k]);
            let second: ClaimedSeat = self.seat_in(self.seats[k + 1]);
            match standing(&first.trader, &second.trader) {
                Standing::Before => {},
                _ => {
                    assert(!comes_before(
                        self@.seat_at(self@.seats[k as int]).trader@,
                        self@.seat_at(self@.seats[k + 1]).trader@,
                    ));
                    return false;
                },
            }
            k = k + 1;
        }
        true
    }

    /// Whether the header's totals are the sums of the positions.
    fn totals_match(&self) -> (ok: bool)
        requires
            self@.blocks.len() <= NIL,
        ensures
            ok == self@.totals_ok(),
    {
        let mut long: u128 = 0;
        let mut short: u128 = 0;
        let mut k: usize = 0;
        while k < self.blocks.len()
            invariant
                k <= self.blocks.len(),
                self@.blocks.len() <= NIL,
                long == total_long(self@.blocks.subrange(0, k as int)),
                short == total_short(self@.blocks.subrange(0, k as int)),
                long <= k * 0x8000_0000_0000_0000,
                short <= k * 0x8000_0000_0000_0000,
            decreases self.blocks.len() - k,
        {
            assert(self@.blocks.subrange(0, k + 1).drop_last() =~= self@.blocks.subrange(
                0,
                k as int,
            ));
            match self.blocks[k] {
                Block::Seat(seat) => {
                    let size: u128 = magnitude(seat.position_size) as u128;
                    if seat.position_size > 0 {
                        long = long + size;
                    } else {
                        short = short + size;
                    }
                },
                _ => {},
            }
            k = k + 1;
        }
        assert(self@.blocks.subrange(0, k as int) =~= self@.blocks);
        long == self.header.total_long_base_atoms as u128 && short
            == self.header.total_short_base_atoms as u128
    }

    /// Whether the books do not cross.
    fn uncrossed(&self) -> (ok: bool)
        requires
            self@.in_role(2),
            self@.in_role(3),
        ensures
            ok == self@.uncrossed(),
    {
        if self.bids.len() > 0 && self.asks.len() > 0 {
            assert(self@.plays(self@.listing(2)[0], 2));
            assert(self@.plays(self@.listing(3)[0], 3));
            let bid: RestingOrder = self.order_in(self.bids[0]);
            let ask: RestingOrder = self.order_in(self.asks[0]);
            bid.price.value_le(&ask.price)
        } else {
            true
        }
    }

    /// Whether the invariant holds of the market, whose free list is `free`.
    pub(crate) fn is_well_formed(&self, free: &Vec<DataIndex>) -> (ok: bool)
        requires
            free@ == self@.free,
        ensures
            ok == self@.wf(),
    {
        proof {
            self@.lemma_clauses_are_the_invariant();
        }
        let pool: usize = self.blocks.len();
        if pool > NIL as usize {
            return false;
        }
        if self.seats.len() > pool || self.bids.len() > pool || self.asks.len() > pool
            || free.len() > pool {
            return false;
        }
        if self.seats.len() as u128 + self.bids.len() as u128 + self.asks.len() as u128
            + free.len() as u128 != pool as u128 {
            return false;
        }
        if !self.lists_sound(free) {
            return false;
        }
        self.free_linked(free) && self.book_in_steps(true) && self.book_in_steps(false)
            && self.book_holds(true) && self.book_holds(false) && self.numbers_differ()
            && self.seats_in_steps() && self.totals_match() && self.uncrossed()
    }
}

} // verus!
