//! The two order books: resting an order, and taking one out again.
//!
//! A resting order holds funds back from its seat: an ask holds its base
//! atoms, a bid the quote atoms that buy them at its price, rounded up. The
//! funds leave the withdrawable balance when the order is posted and return
//! to it when the order is cancelled. A global order holds nothing back: its
//! funds sit in a reservation outside the market.

use vstd::prelude::*;
use vstd::pervasive::unreached;
use hypertree::DataIndex;
use crate::error::MarketError;
use crate::pool::lemma_totals_update;
use crate::price::Price;
use crate::state::{
    order_before, tree_nil, Block, ClaimedSeat, Market, MarketHeader, MarketView, NIL, OrderType,
    RestingOrder,
};

verus! {

/// Whether a resting order at price `resting` stays ahead of a new order at
/// price `incoming` on the same side: it does when its price is as good or better.
pub open spec fn stays_ahead(is_bid: bool, resting: Price, incoming: Price) -> bool {
    if is_bid {
        resting.scaled() >= incoming.scaled()
    } else {
        resting.scaled() <= incoming.scaled()
    }
}

/// Whether an incoming order at price `incoming` would match a resting order
/// at price `resting` on the opposite side.
pub open spec fn prices_cross(incoming_is_bid: bool, incoming: Price, resting: Price) -> bool {
    if incoming_is_bid {
        resting.scaled() <= incoming.scaled()
    } else {
        resting.scaled() >= incoming.scaled()
    }
}

impl OrderType {
    /// Whether an order of this type may rest in a book.
    pub open spec fn rests(self) -> bool {
        self != OrderType::ImmediateOrCancel && self != OrderType::FillOrKill
    }

    /// Whether an order of this type may rest in a book.
    pub fn can_rest(&self) -> (r: bool)
        ensures
            r == self.rests(),
    {
        match self {
            OrderType::ImmediateOrCancel => false,
            OrderType::FillOrKill => false,
            _ => true,
        }
    }
}

impl RestingOrder {
    /// Base atoms that the order holds back from its seat.
    pub open spec fn locked_base(self) -> nat {
        if !self.is_bid && self.order_type != OrderType::Global {
            self.num_base_atoms as nat
        } else {
            0
        }
    }

    /// Quote atoms that the order holds back from its seat.
    pub open spec fn locked_quote(self) -> nat {
        if self.is_bid && self.order_type != OrderType::Global {
            self.price.quote_for_base(self.num_base_atoms as nat, true)
        } else {
            0
        }
    }
}

impl MarketView {
    /// First position at or after `from` whose order does not stay ahead of
    /// a new order at `price`.
    pub open spec fn slot_from(self, is_bid: bool, price: Price, from: int) -> int
        decreases self.book(is_bid).len() - from,
    {
        if 0 <= from < self.book(is_bid).len() && stays_ahead(
            is_bid,
            self.order_at(self.book(is_bid)[from]).price,
            price,
        ) {
            self.slot_from(is_bid, price, from + 1)
        } else {
            from
        }
    }

    /// Position that a new order at `price` takes in its book: behind every
    /// order at a price as good or better.
    pub open spec fn slot(self, is_bid: bool, price: Price) -> int {
        self.slot_from(is_bid, price, 0)
    }

    /// Whether a new order at `price` would match the best order of the other side.
    pub open spec fn crosses(self, is_bid: bool, price: Price) -> bool {
        self.book(!is_bid).len() > 0 && prices_cross(
            is_bid,
            price,
            self.order_at(self.book(!is_bid)[0]).price,
        )
    }

    /// Whether a new order would be priced through the best order of the
    /// other side: a bid above the best ask, an ask below the best bid.
    pub open spec fn outbids(self, is_bid: bool, price: Price) -> bool {
        self.book(!is_bid).len() > 0 && if is_bid {
            price.scaled() > self.order_at(self.book(!is_bid)[0]).price.scaled()
        } else {
            price.scaled() < self.order_at(self.book(!is_bid)[0]).price.scaled()
        }
    }

    /// The market with `order` written to the head of the free list and
    /// listed at its slot.
    pub open spec fn order_inserted(self, order: RestingOrder) -> MarketView {
        let index = self.free[0];
        let slot = self.slot(order.is_bid, order.price);
        MarketView {
            header: MarketHeader {
                free_list_head: self.free_next(0),
                next_sequence_number: (order.sequence_number + 1) as u64,
                ..self.header
            },
            blocks: self.blocks.update(index as int, Block::Order(order)),
            bids: if order.is_bid {
                self.bids.insert(slot, index)
            } else {
                self.bids
            },
            asks: if order.is_bid {
                self.asks
            } else {
                self.asks.insert(slot, index)
            },
            free: self.free.drop_first(),
            ..self
        }
    }

    /// The market with the order at `index` taken out of its book and its
    /// block put at the head of the free list.
    pub open spec fn order_removed(self, index: DataIndex) -> MarketView {
        let order = self.order_at(index);
        MarketView {
            header: MarketHeader { free_list_head: index, ..self.header },
            blocks: self.blocks.update(
                index as int,
                Block::Free { next: self.header.free_list_head },
            ),
            bids: if order.is_bid {
                self.bids.remove(self.bids.index_of(index))
            } else {
                self.bids
            },
            asks: if order.is_bid {
                self.asks
            } else {
                self.asks.remove(self.asks.index_of(index))
            },
            free: seq![index] + self.free,
            ..self
        }
    }

    /// What posting an order that must rest comes to.
    ///
    /// The order takes the next sequence number, its funds leave the seat's
    /// withdrawable balance, and it is listed behind every order of its side
    /// at a price as good or better.
    pub open spec fn post_order(
        self,
        trader_index: DataIndex,
        is_bid: bool,
        num_base_atoms: u64,
        price: Price,
        order_type: OrderType,
        last_valid_slot: u32,
        reverse_spread: u32,
        current_slot: u32,
    ) -> Result<MarketView, MarketError> {
        let order = RestingOrder {
            trader_index,
            sequence_number: self.header.next_sequence_number,
            price,
            num_base_atoms,
            is_bid,
            order_type,
            last_valid_slot,
            reverse_spread,
        };
        if !self.is_seat(trader_index) {
            Err(MarketError::NotFound)
        } else if num_base_atoms == 0 || !order_type.rests() {
            Err(MarketError::InvalidArgument)
        } else if last_valid_slot != 0 && last_valid_slot < current_slot {
            Err(MarketError::Expired)
        } else if self.crosses(is_bid, price) {
            Err(MarketError::InvalidArgument)
        } else if order.locked_quote() > u64::MAX {
            Err(MarketError::Overflow)
        } else if order.locked_quote() > self.seat_at(trader_index).quote_withdrawable_balance
            || order.locked_base() > self.seat_at(trader_index).base_withdrawable_balance {
            Err(MarketError::InsufficientFunds)
        } else if self.free.len() == 0 {
            Err(MarketError::Capacity)
        } else if self.header.next_sequence_number == u64::MAX {
            Err(MarketError::Overflow)
        } else {
            let seat = self.seat_at(trader_index);
            Ok(
                self.with_seat(
                    trader_index,
                    ClaimedSeat {
                        base_withdrawable_balance: (seat.base_withdrawable_balance
                            - order.locked_base()) as u64,
                        quote_withdrawable_balance: (seat.quote_withdrawable_balance
                            - order.locked_quote()) as u64,
                        ..seat
                    },
                ).order_inserted(order),
            )
        }
    }

    /// What cancelling the order in block `index` comes to: the funds it held
    /// back return to its seat, and its block returns to the free list.
    pub open spec fn cancel_order_by_index(self, index: DataIndex) -> Result<MarketView, MarketError> {
        if !self.is_order(index) {
            Err(MarketError::NotFound)
        } else {
            let order = self.order_at(index);
            let seat = self.seat_at(order.trader_index);
            let base = seat.base_withdrawable_balance + order.locked_base();
            let quote = seat.quote_withdrawable_balance + order.locked_quote();
            if base > u64::MAX || quote > u64::MAX {
                Err(MarketError::Overflow)
            } else {
                Ok(
                    self.with_seat(
                        order.trader_index,
                        ClaimedSeat {
                            base_withdrawable_balance: base as u64,
                            quote_withdrawable_balance: quote as u64,
                            ..seat
                        },
                    ).order_removed(index),
                )
            }
        }
    }

    /// Whether block `index` holds the order of the seat at `trader_index`
    /// that carries `sequence_number`.
    pub open spec fn is_order_of(self, index: DataIndex, trader_index: DataIndex, sequence_number: u64) -> bool {
        &&& self.is_order(index)
        &&& self.order_at(index).trader_index == trader_index
        &&& self.order_at(index).sequence_number == sequence_number
    }

    /// Block of the order of the seat at `trader_index` that carries
    /// `sequence_number`, or `NIL`.
    pub open spec fn order_index(self, trader_index: DataIndex, sequence_number: u64) -> DataIndex {
        if exists|b: DataIndex| self.is_order_of(b, trader_index, sequence_number) {
            choose|b: DataIndex| self.is_order_of(b, trader_index, sequence_number)
        } else {
            NIL
        }
    }

    /// What it comes to when the seat at `trader_index` cancels its order
    /// with `sequence_number`.
    pub open spec fn cancel_order(self, trader_index: DataIndex, sequence_number: u64) -> Result<
        MarketView,
        MarketError,
    > {
        let index = self.order_index(trader_index, sequence_number);
        if index == NIL {
            Err(MarketError::NotFound)
        } else {
            self.cancel_order_by_index(index)
        }
    }

    /// An order is found under its owner and sequence number and under no other.
    pub proof fn lemma_order_index(self, trader_index: DataIndex, sequence_number: u64)
        requires
            self.wf(),
        ensures
            self.order_index(trader_index, sequence_number) != NIL ==> self.is_order_of(
                self.order_index(trader_index, sequence_number),
                trader_index,
                sequence_number,
            ),
            forall|b: DataIndex|
                self.is_order_of(b, trader_index, sequence_number) ==> self.order_index(
                    trader_index,
                    sequence_number,
                ) == b,
    {
        assert forall|b: DataIndex|
            self.is_order_of(b, trader_index, sequence_number) implies self.order_index(
            trader_index,
            sequence_number,
        ) == b by {
            let found = self.order_index(trader_index, sequence_number);
            assert(self.is_order_of(found, trader_index, sequence_number));
            assert(self.is_order(found) && self.is_order(b));
        }
    }

    /// The slot lies in the book, everything before it stays ahead of the new
    /// order, and what stands at it does not.
    pub proof fn lemma_slot_from(self, is_bid: bool, price: Price, from: int)
        requires
            0 <= from <= self.book(is_bid).len(),
        ensures
            from <= self.slot_from(is_bid, price, from) <= self.book(is_bid).len(),
            forall|k: int|
                from <= k < self.slot_from(is_bid, price, from) ==> stays_ahead(
                    is_bid,
                    self.order_at(#[trigger] self.book(is_bid)[k]).price,
                    price,
                ),
            self.slot_from(is_bid, price, from) < self.book(is_bid).len() ==> !stays_ahead(
                is_bid,
                self.order_at(self.book(is_bid)[self.slot_from(is_bid, price, from)]).price,
                price,
            ),
        decreases self.book(is_bid).len() - from,
    {
        if from < self.book(is_bid).len() && stays_ahead(
            is_bid,
            self.order_at(self.book(is_bid)[from]).price,
            price,
        ) {
            self.lemma_slot_from(is_bid, price, from + 1);
        }
    }

    /// The slot depends only on the book and on the prices of its orders.
    pub proof fn lemma_slot_from_kept(self, after: MarketView, is_bid: bool, price: Price, from: int)
        requires
            after.book(is_bid) == self.book(is_bid),
            forall|k: int|
                0 <= k < self.book(is_bid).len() ==> after.order_at(
                    #[trigger] self.book(is_bid)[k],
                ).price == self.order_at(self.book(is_bid)[k]).price,
        ensures
            after.slot_from(is_bid, price, from) == self.slot_from(is_bid, price, from),
        decreases self.book(is_bid).len() - from,
    {
        if 0 <= from < self.book(is_bid).len() {
            let resting = self.book(is_bid)[from];
            assert(after.order_at(resting).price == self.order_at(resting).price);
            if stays_ahead(is_bid, self.order_at(resting).price, price) {
                self.lemma_slot_from_kept(after, is_bid, price, from + 1);
            }
        }
    }

    /// After a new order is listed, each book lists the order blocks of its
    /// side once and nothing else.
    proof fn lemma_order_inserted_listed(self, order: RestingOrder)
        requires
            self.wf(),
            self.free.len() > 0,
        ensures
            self.order_inserted(order).bids.no_duplicates(),
            self.order_inserted(order).asks.no_duplicates(),
            forall|s: bool, k: int|
                0 <= k < self.order_inserted(order).book(s).len() ==> self.order_inserted(
                    order,
                ).is_order(#[trigger] self.order_inserted(order).book(s)[k])
                    && self.order_inserted(order).order_at(
                    self.order_inserted(order).book(s)[k],
                ).is_bid == s,
            forall|b: DataIndex| #[trigger]
                self.order_inserted(order).is_order(b) ==> self.order_inserted(order).book(
                    self.order_inserted(order).order_at(b).is_bid,
                ).contains(b),
    {
        let after = self.order_inserted(order);
        let index = self.free[0];
        let side = order.is_bid;
        let slot = self.slot(side, order.price);
        let book = self.book(side);
        self.lemma_slot_from(side, order.price, 0);
        assert(self.is_free(index));
        assert(after.book(side) == book.insert(slot, index));
        assert(after.book(!side) == self.book(!side));
        book.insert_ensures(slot, index);
        assert forall|k: int| 0 <= k < book.len() implies #[trigger] book[k] != index by {
            assert(self.is_order(book[k]));
        }
        assert forall|k: int| slot < k < after.book(side).len() implies #[trigger] after.book(
            side,
        )[k] == book[k - 1] by {
            assert(book.insert(slot, index)[(k - 1) + 1] == book[k - 1]);
        }
        assert forall|i: int, j: int|
            0 <= i < after.book(side).len() && 0 <= j < after.book(side).len() && i
                != j implies after.book(side)[i] != after.book(side)[j] by {
            let oi = if i < slot {
                i
            } else {
                i - 1
            };
            let oj = if j < slot {
                j
            } else {
                j - 1
            };
            if i != slot && j != slot {
                assert(book[oi] != book[oj]);
            } else if i == slot {
                assert(book[oj] != index);
            } else {
                assert(book[oi] != index);
            }
        }
        assert(after.book(side).no_duplicates());
        assert forall|s: bool, k: int| 0 <= k < after.book(s).len() implies after.is_order(
            #[trigger] after.book(s)[k],
        ) && after.order_at(after.book(s)[k]).is_bid == s by {
            if s == side {
                if k < slot {
                    assert(self.is_order(book[k]));
                } else if k > slot {
                    assert(self.is_order(book[k - 1]));
                }
            } else {
                assert(self.is_order(self.book(s)[k]));
            }
        }
        assert forall|b: DataIndex| #[trigger] after.is_order(b) implies after.book(
            after.order_at(b).is_bid,
        ).contains(b) by {
            if b == index {
                assert(after.book(side)[slot] == b);
            } else {
                assert(self.is_order(b));
                let s = self.order_at(b).is_bid;
                let k = choose|k: int| 0 <= k < self.book(s).len() && self.book(s)[k] == b;
                if s == side {
                    if k < slot {
                        assert(after.book(s)[k] == b);
                    } else {
                        assert(after.book(s)[k + 1] == b);
                    }
                } else {
                    assert(after.book(s)[k] == b);
                }
            }
        }
    }

    /// After a new order is listed, both books are in matching order.
    proof fn lemma_order_inserted_sorted(self, order: RestingOrder)
        requires
            self.wf(),
            self.free.len() > 0,
            order.sequence_number == self.header.next_sequence_number,
        ensures
            forall|s: bool, i: int, j: int|
                0 <= i < j < self.order_inserted(order).book(s).len() ==> order_before(
                    s,
                    self.order_inserted(order).order_at(
                        #[trigger] self.order_inserted(order).book(s)[i],
                    ),
                    self.order_inserted(order).order_at(
                        #[trigger] self.order_inserted(order).book(s)[j],
                    ),
                ),
    {
        let after = self.order_inserted(order);
        let index = self.free[0];
        let side = order.is_bid;
        let slot = self.slot(side, order.price);
        let book = self.book(side);
        self.lemma_slot_from(side, order.price, 0);
        assert(self.is_free(index));
        assert(after.book(side) == book.insert(slot, index));
        assert(after.book(!side) == self.book(!side));
        book.insert_ensures(slot, index);
        assert forall|k: int| slot < k < after.book(side).len() implies #[trigger] after.book(
            side,
        )[k] == book[k - 1] by {
            assert(book.insert(slot, index)[(k - 1) + 1] == book[k - 1]);
        }
        assert forall|s: bool, i: int, j: int| 0 <= i < j < after.book(s).len() implies order_before(
            s,
            after.order_at(#[trigger] after.book(s)[i]),
            after.order_at(#[trigger] after.book(s)[j]),
        ) by {
            if s == side {
                let oi = if i < slot {
                    i
                } else {
                    i - 1
                };
                let oj = if j < slot {
                    j
                } else {
                    j - 1
                };
                if i != slot && j != slot {
                    assert(self.is_order(book[oi]));
                    assert(self.is_order(book[oj]));
                    assert(order_before(s, self.order_at(book[oi]), self.order_at(book[oj])));
                } else if j == slot {
                    assert(self.is_order(book[oi]));
                    assert(stays_ahead(side, self.order_at(book[oi]).price, order.price));
                } else {
                    assert(self.is_order(book[oj]));
                    assert(self.is_order(book[slot]));
                    assert(!stays_ahead(side, self.order_at(book[slot]).price, order.price));
                    if oj > slot {
                        assert(order_before(s, self.order_at(book[slot]), self.order_at(book[oj])));
                    }
                }
            } else {
                assert(self.is_order(self.book(s)[i]));
                assert(self.is_order(self.book(s)[j]));
            }
        }
    }

    /// Listing a new order keeps the invariant, provided the order belongs to
    /// a seat, takes the next sequence number and is not priced through the
    /// other side of the book.
    pub proof fn lemma_order_inserted_wf(self, order: RestingOrder)
        requires
            self.wf(),
            self.free.len() > 0,
            self.is_seat(order.trader_index),
            order.sequence_number == self.header.next_sequence_number,
            order.sequence_number < u64::MAX,
            order.num_base_atoms > 0,
            !self.outbids(order.is_bid, order.price),
        ensures
            self.order_inserted(order).wf(),
    {
        let after = self.order_inserted(order);
        let index = self.free[0];
        let side = order.is_bid;
        let slot = self.slot(side, order.price);
        let book = self.book(side);
        self.lemma_slot_from(side, order.price, 0);
        assert(self.is_free(index));
        assert forall|b: DataIndex| b < self.blocks.len() && b != index implies after.blocks[b as int]
            == self.blocks[b as int] by {}
        self.lemma_same_role_reflexive();
        self.lemma_seats_kept(after);
        self.lemma_free_popped(after);
        lemma_totals_update(self.blocks, index as int, Block::Order(order));
        self.lemma_order_inserted_listed(order);
        self.lemma_order_inserted_sorted(order);
        book.insert_ensures(slot, index);
        assert forall|b: DataIndex| #[trigger] after.is_order(b) implies {
            &&& after.is_seat(after.order_at(b).trader_index)
            &&& after.order_at(b).sequence_number < after.header.next_sequence_number
            &&& after.order_at(b).num_base_atoms > 0
        } by {
            if b != index {
                assert(self.is_order(b));
                assert(self.is_seat(self.order_at(b).trader_index));
            }
        }
        assert forall|a: DataIndex, b: DataIndex|
            #[trigger] after.is_order(a) && #[trigger] after.is_order(b) && a
                != b implies after.order_at(a).sequence_number != after.order_at(
            b,
        ).sequence_number by {
            if a != index {
                assert(self.is_order(a));
            }
            if b != index {
                assert(self.is_order(b));
            }
        }
        if after.bids.len() > 0 && after.asks.len() > 0 {
            if self.book(!side).len() > 0 {
                assert(self.is_order(self.book(!side)[0]));
            }
            if slot > 0 {
                assert(after.book(side)[0] == book[0]);
                assert(self.is_order(book[0]));
                assert(self.is_order(self.book(true)[0]));
                assert(self.is_order(self.book(false)[0]));
            }
        }
        assert(after.books_ok());
    }

    /// Listing a new order gives a market that succeeds the old one.
    pub proof fn lemma_order_inserted_succeeds(self, order: RestingOrder)
        requires
            self.wf(),
            self.free.len() > 0,
            self.is_seat(order.trader_index),
            order.sequence_number == self.header.next_sequence_number,
            order.sequence_number < u64::MAX,
            order.num_base_atoms > 0,
            !self.outbids(order.is_bid, order.price),
        ensures
            self.order_inserted(order).succeeds(self),
    {
        let after = self.order_inserted(order);
        let index = self.free[0];
        self.lemma_order_inserted_wf(order);
        assert(self.is_free(index));
        assert forall|b: DataIndex| b < self.blocks.len() && b != index implies after.blocks[b as int]
            == self.blocks[b as int] by {}
    }

    /// Taking an order out of its book gives a market that succeeds the old one.
    pub proof fn lemma_order_removed_succeeds(self, index: DataIndex)
        requires
            self.wf(),
            self.is_order(index),
        ensures
            self.order_removed(index).succeeds(self),
            self.order_removed(index).book(!self.order_at(index).is_bid) == self.book(
                !self.order_at(index).is_bid,
            ),
            self.order_removed(index).book(self.order_at(index).is_bid).len() + 1 == self.book(
                self.order_at(index).is_bid,
            ).len(),
    {
        let after = self.order_removed(index);
        self.lemma_order_removed_wf(index);
        assert forall|b: DataIndex| b < self.blocks.len() && b != index implies after.blocks[b as int]
            == self.blocks[b as int] by {}
        let book = self.book(self.order_at(index).is_bid);
        assert(book.contains(index));
        book.remove_ensures(book.index_of(index));
    }

    /// Posting an order gives a market that succeeds the old one.
    pub proof fn lemma_post_order_succeeds(
        self,
        trader_index: DataIndex,
        is_bid: bool,
        num_base_atoms: u64,
        price: Price,
        order_type: OrderType,
        last_valid_slot: u32,
        reverse_spread: u32,
        current_slot: u32,
    )
        requires
            self.wf(),
            self.post_order(
                trader_index,
                is_bid,
                num_base_atoms,
                price,
                order_type,
                last_valid_slot,
                reverse_spread,
                current_slot,
            ) is Ok,
        ensures
            self.post_order(
                trader_index,
                is_bid,
                num_base_atoms,
                price,
                order_type,
                last_valid_slot,
                reverse_spread,
                current_slot,
            ).unwrap().succeeds(self),
    {
        let posted = self.post_order(
            trader_index,
            is_bid,
            num_base_atoms,
            price,
            order_type,
            last_valid_slot,
            reverse_spread,
            current_slot,
        ).unwrap();
        let order = RestingOrder {
            trader_index,
            sequence_number: self.header.next_sequence_number,
            price,
            num_base_atoms,
            is_bid,
            order_type,
            last_valid_slot,
            reverse_spread,
        };
        let funded = self.with_seat(trader_index, posted.seat_at(trader_index));
        assert(self.is_free(self.free[0]));
        assert(posted.blocks[trader_index as int] == Block::Seat(posted.seat_at(trader_index)));
        self.lemma_with_seat_succeeds(trader_index, funded.seat_at(trader_index));
        if self.book(!is_bid).len() > 0 {
            assert(self.is_order(self.book(!is_bid)[0]));
        }
        funded.lemma_order_inserted_succeeds(order);
        assert(posted == funded.order_inserted(order));
        self.lemma_succeeds_chain(funded, posted);
    }

    /// Cancelling an order gives a market that succeeds the old one, with
    /// the order's book one shorter.
    pub proof fn lemma_cancel_succeeds(self, index: DataIndex)
        requires
            self.wf(),
            self.cancel_order_by_index(index) is Ok,
        ensures
            self.cancel_order_by_index(index).unwrap().succeeds(self),
            self.cancel_order_by_index(index).unwrap().book(!self.order_at(index).is_bid)
                == self.book(!self.order_at(index).is_bid),
            self.cancel_order_by_index(index).unwrap().book(self.order_at(index).is_bid).len() + 1
                == self.book(self.order_at(index).is_bid).len(),
    {
        let order = self.order_at(index);
        let after = self.cancel_order_by_index(index).unwrap();
        let owner = order.trader_index;
        assert(self.is_seat(owner));
        let refunded = self.with_seat(owner, after.seat_at(owner));
        assert(after.blocks[owner as int] == Block::Seat(after.seat_at(owner)));
        self.lemma_with_seat_succeeds(owner, refunded.seat_at(owner));
        refunded.lemma_order_removed_succeeds(index);
        self.lemma_succeeds_chain(refunded, after);
    }

    /// After an order is taken out, each book lists the order blocks of its
    /// side once and nothing else, in matching order.
    proof fn lemma_order_removed_listed(self, index: DataIndex)
        requires
            self.wf(),
            self.is_order(index),
        ensures
            self.order_removed(index).bids.no_duplicates(),
            self.order_removed(index).asks.no_duplicates(),
            forall|s: bool, k: int|
                0 <= k < self.order_removed(index).book(s).len() ==> self.order_removed(
                    index,
                ).is_order(#[trigger] self.order_removed(index).book(s)[k])
                    && self.order_removed(index).order_at(
                    self.order_removed(index).book(s)[k],
                ).is_bid == s,
            forall|b: DataIndex| #[trigger]
                self.order_removed(index).is_order(b) ==> self.order_removed(index).book(
                    self.order_removed(index).order_at(b).is_bid,
                ).contains(b),
            forall|s: bool, i: int, j: int|
                0 <= i < j < self.order_removed(index).book(s).len() ==> order_before(
                    s,
                    self.order_removed(index).order_at(
                        #[trigger] self.order_removed(index).book(s)[i],
                    ),
                    self.order_removed(index).order_at(
                        #[trigger] self.order_removed(index).book(s)[j],
                    ),
                ),
    {
        let after = self.order_removed(index);
        let order = self.order_at(index);
        let side = order.is_bid;
        let book = self.book(side);
        assert(book.contains(index));
        let at = book.index_of(index);
        assert(0 <= at < book.len() && book[at] == index);
        assert(after.book(side) == book.remove(at));
        assert(after.book(!side) == self.book(!side));
        book.remove_ensures(at);
        let other = self.book(!side);
        assert forall|k: int| 0 <= k < other.len() implies #[trigger] other[k] != index by {
            assert(self.is_order(other[k]));
        }
        assert forall|i: int, j: int|
            0 <= i < after.book(side).len() && 0 <= j < after.book(side).len() && i
                != j implies after.book(side)[i] != after.book(side)[j] by {
            let oi = if i < at {
                i
            } else {
                i + 1
            };
            let oj = if j < at {
                j
            } else {
                j + 1
            };
            assert(book[oi] != book[oj]);
        }
        assert(after.book(side).no_duplicates());
        assert forall|s: bool, k: int| 0 <= k < after.book(s).len() implies after.is_order(
            #[trigger] after.book(s)[k],
        ) && after.order_at(after.book(s)[k]).is_bid == s by {
            if s == side {
                let ok = if k < at {
                    k
                } else {
                    k + 1
                };
                assert(self.is_order(book[ok]));
                assert(book[ok] != book[at]);
            } else {
                assert(self.is_order(self.book(s)[k]));
            }
        }
        assert forall|b: DataIndex| #[trigger] after.is_order(b) implies after.book(
            after.order_at(b).is_bid,
        ).contains(b) by {
            assert(self.is_order(b));
            let s = self.order_at(b).is_bid;
            let k = choose|k: int| 0 <= k < self.book(s).len() && self.book(s)[k] == b;
            if s == side {
                if k < at {
                    assert(after.book(s)[k] == b);
                } else {
                    assert(after.book(s)[k - 1] == b);
                }
            } else {
                assert(after.book(s)[k] == b);
            }
        }
        assert forall|s: bool, i: int, j: int| 0 <= i < j < after.book(s).len() implies order_before(
            s,
            after.order_at(#[trigger] after.book(s)[i]),
            after.order_at(#[trigger] after.book(s)[j]),
        ) by {
            if s == side {
                let oi = if i < at {
                    i
                } else {
                    i + 1
                };
                let oj = if j < at {
                    j
                } else {
                    j + 1
                };
                assert(self.is_order(book[oi]));
                assert(self.is_order(book[oj]));
                assert(book[oi] != book[at]);
                assert(book[oj] != book[at]);
                assert(order_before(s, self.order_at(book[oi]), self.order_at(book[oj])));
            } else {
                assert(self.is_order(self.book(s)[i]));
                assert(self.is_order(self.book(s)[j]));
            }
        }
    }

    /// Taking an order out of its book keeps the invariant.
    pub proof fn lemma_order_removed_wf(self, index: DataIndex)
        requires
            self.wf(),
            self.is_order(index),
        ensures
            self.order_removed(index).wf(),
    {
        let after = self.order_removed(index);
        let order = self.order_at(index);
        let side = order.is_bid;
        let book = self.book(side);
        assert(book.contains(index));
        let at = book.index_of(index);
        assert(0 <= at < book.len() && book[at] == index);
        assert forall|b: DataIndex|
            b < self.blocks.len() && b != index implies after.blocks[b as int]
            == self.blocks[b as int] by {}
        self.lemma_same_role_reflexive();
        self.lemma_seats_kept(after);
        self.lemma_free_pushed(after, index);
        lemma_totals_update(
            self.blocks,
            index as int,
            Block::Free { next: self.header.free_list_head },
        );
        self.lemma_order_removed_listed(index);
        book.remove_ensures(at);
        assert forall|b: DataIndex| #[trigger] after.is_order(b) implies {
            &&& after.is_seat(after.order_at(b).trader_index)
            &&& after.order_at(b).sequence_number < after.header.next_sequence_number
            &&& after.order_at(b).num_base_atoms > 0
        } by {
            assert(self.is_order(b));
            assert(self.is_seat(self.order_at(b).trader_index));
        }
        assert forall|a: DataIndex, b: DataIndex|
            #[trigger] after.is_order(a) && #[trigger] after.is_order(b) && a
                != b implies after.order_at(a).sequence_number != after.order_at(
            b,
        ).sequence_number by {
            assert(self.is_order(a));
            assert(self.is_order(b));
        }
        if after.bids.len() > 0 && after.asks.len() > 0 {
            let first = after.book(side)[0];
            let old_first = book[0];
            assert(self.is_order(old_first));
            assert(self.is_order(self.book(!side)[0]));
            assert(self.is_order(self.book(true)[0]));
            assert(self.is_order(self.book(false)[0]));
            if at == 0 {
                assert(first == book[1]);
                assert(self.is_order(book[1]));
                assert(order_before(side, self.order_at(book[0]), self.order_at(book[1])));
            } else {
                assert(first == book[0]);
            }
        }
        assert(after.books_ok());
    }
}

/// Where a posted order went: its block and the sequence number it was given.
#[derive(Clone, Copy, Debug, PartialEq, Eq, Structural)]
pub struct PostedOrder {
    pub index: DataIndex,
    pub sequence_number: u64,
}

impl Market {
    /// The order held in block `index`, if that block holds one.
    pub fn order(&self, index: DataIndex) -> (order: Option<RestingOrder>)
        ensures
            order == if self@.is_order(index) {
                Some(self@.order_at(index))
            } else {
                None
            },
    {
        if (index as usize) < self.blocks.len() {
            match self.blocks[index as usize] {
                Block::Order(order) => Some(order),
                _ => None,
            }
        } else {
            None
        }
    }

    /// The order in a block that is known to hold one.
    pub(crate) fn order_in(&self, index: DataIndex) -> (order: RestingOrder)
        requires
            self@.is_order(index),
        ensures
            order == self@.order_at(index),
    {
        match self.blocks[index as usize] {
            Block::Order(order) => order,
            _ => unreached(),
        }
    }

    /// The seat in a block that is known to hold one.
    pub(crate) fn seat_in(&self, index: DataIndex) -> (seat: ClaimedSeat)
        requires
            self@.is_seat(index),
        ensures
            seat == self@.seat_at(index),
    {
        match self.blocks[index as usize] {
            Block::Seat(seat) => seat,
            _ => unreached(),
        }
    }

    /// The blocks of the resting bids, best first.
    pub fn bid_indices(&self) -> (indices: Vec<DataIndex>)
        ensures
            indices@ == self@.bids,
    {
        self.bids.clone()
    }

    /// The blocks of the resting asks, best first.
    pub fn ask_indices(&self) -> (indices: Vec<DataIndex>)
        ensures
            indices@ == self@.asks,
    {
        self.asks.clone()
    }

    /// Block of the best bid, or `NIL` when no bid rests.
    pub fn get_bids_best_index(&self) -> (index: DataIndex)
        requires
            self.wf(),
        ensures
            index == if self@.bids.len() > 0 {
                self@.bids[0]
            } else {
                NIL
            },
            index != NIL <==> self@.bids.len() > 0,
            index != NIL ==> self@.is_order(index),
    {
        if self.bids.len() > 0 {
            assert(self@.is_order(self@.book(true)[0]));
            self.bids[0]
        } else {
            tree_nil()
        }
    }

    /// Block of the best ask, or `NIL` when no ask rests.
    pub fn get_asks_best_index(&self) -> (index: DataIndex)
        requires
            self.wf(),
        ensures
            index == if self@.asks.len() > 0 {
                self@.asks[0]
            } else {
                NIL
            },
            index != NIL <==> self@.asks.len() > 0,
            index != NIL ==> self@.is_order(index),
    {
        if self.asks.len() > 0 {
            assert(self@.is_order(self@.book(false)[0]));
            self.asks[0]
        } else {
            tree_nil()
        }
    }

    /// Whether a new order at `price` would match the best order of the other side.
    pub(crate) fn crossing(&self, is_bid: bool, price: &Price) -> (r: bool)
        requires
            self.wf(),
        ensures
            r == self@.crosses(is_bid, *price),
    {
        let best: DataIndex = if is_bid {
            self.get_asks_best_index()
        } else {
            self.get_bids_best_index()
        };
        if best == NIL {
            return false;
        }
        assert(self@.is_order(self@.book(!is_bid)[0]));
        let resting: RestingOrder = self.order_in(best);
        if is_bid {
            resting.price.value_le(price)
        } else {
            price.value_le(&resting.price)
        }
    }

    /// Position that a new order at `price` takes in its book.
    fn find_slot(&self, is_bid: bool, price: &Price) -> (slot: usize)
        requires
            self.wf(),
        ensures
            slot == self@.slot(is_bid, *price),
            slot <= self@.book(is_bid).len(),
    {
        let book: &Vec<DataIndex> = if is_bid {
            &self.bids
        } else {
            &self.asks
        };
        let mut k: usize = 0;
        while k < book.len()
            invariant
                k <= book.len(),
                book@ == self@.book(is_bid),
                self.wf(),
                self@.slot_from(is_bid, *price, k as int) == self@.slot(is_bid, *price),
            decreases book.len() - k,
        {
            assert(self@.is_order(self@.book(is_bid)[k as int]));
            let resting: RestingOrder = self.order_in(book[k]);
            let ahead: bool = if is_bid {
                price.value_le(&resting.price)
            } else {
                resting.price.value_le(price)
            };
            if !ahead {
                return k;
            }
            k = k + 1;
        }
        k
    }

    /// Posts an order that must rest, and returns its block and sequence number.
    ///
    /// Fails with `NotFound` when `trader_index` holds no seat; with
    /// `InvalidArgument` for an empty order, an order of a type that never
    /// rests, or one that would match the other side; with `Expired` when its last
    /// valid slot has passed; with `Overflow` when the quote to hold back
    /// needs more than 64 bits or the sequence numbers are used up; with
    /// `InsufficientFunds` when the seat cannot cover what the order holds
    /// back; and with `Capacity` when the free list is empty.
    pub fn post_order(
        &mut self,
        trader_index: DataIndex,
        is_bid: bool,
        num_base_atoms: u64,
        price: Price,
        order_type: OrderType,
        last_valid_slot: u32,
        reverse_spread: u32,
        current_slot: u32,
    ) -> (r: Result<PostedOrder, MarketError>)
        requires
            old(self).wf(),
        ensures
            final(self).wf(),
            match old(self)@.post_order(
                trader_index,
                is_bid,
                num_base_atoms,
                price,
                order_type,
                last_valid_slot,
                reverse_spread,
                current_slot,
            ) {
                Ok(after) => final(self)@ == after && r == Ok::<PostedOrder, MarketError>(
                    PostedOrder {
                        index: old(self)@.free[0],
                        sequence_number: old(self)@.header.next_sequence_number,
                    },
                ),
                Err(e) => r == Err::<PostedOrder, MarketError>(e) && final(self)@ == old(self)@,
            },
    {
        let seat: ClaimedSeat = match self.seat(trader_index) {
            Some(seat) => seat,
            None => {
                return Err(MarketError::NotFound);
            },
        };
        if num_base_atoms == 0 || !order_type.can_rest() {
            return Err(MarketError::InvalidArgument);
        }
        if last_valid_slot != 0 && last_valid_slot < current_slot {
            return Err(MarketError::Expired);
        }
        if self.crossing(is_bid, &price) {
            return Err(MarketError::InvalidArgument);
        }
        let sequence_number: u64 = self.header.next_sequence_number;
        let order = RestingOrder {
            trader_index,
            sequence_number,
            price,
            num_base_atoms,
            is_bid,
            order_type,
            last_valid_slot,
            reverse_spread,
        };
        let held_quote: u64 = if is_bid && order_type != OrderType::Global {
            match price.checked_quote_for_base(num_base_atoms, true) {
                Ok(quote) => quote,
                Err(_) => {
                    return Err(MarketError::Overflow);
                },
            }
        } else {
            0
        };
        let held_base: u64 = if !is_bid && order_type != OrderType::Global {
            num_base_atoms
        } else {
            0
        };
        if held_quote > seat.quote_withdrawable_balance || held_base
            > seat.base_withdrawable_balance {
            return Err(MarketError::InsufficientFunds);
        }
        let index: DataIndex = self.header.free_list_head;
        if index == NIL {
            return Err(MarketError::Capacity);
        }
        if sequence_number == u64::MAX {
            return Err(MarketError::Overflow);
        }
        let funded = ClaimedSeat {
            base_withdrawable_balance: seat.base_withdrawable_balance - held_base,
            quote_withdrawable_balance: seat.quote_withdrawable_balance - held_quote,
            ..seat
        };
        proof {
            self@.lemma_with_seat_wf(trader_index, funded);
        }
        self.blocks.set(trader_index as usize, Block::Seat(funded));
        self.insert_order(order);
        Ok(PostedOrder { index, sequence_number })
    }

    /// Writes `order` to the head of the free list and lists it at its slot.
    pub(crate) fn insert_order(&mut self, order: RestingOrder)
        requires
            old(self).wf(),
            old(self)@.free.len() > 0,
            old(self)@.is_seat(order.trader_index),
            order.sequence_number == old(self)@.header.next_sequence_number,
            order.sequence_number < u64::MAX,
            order.num_base_atoms > 0,
            !old(self)@.outbids(order.is_bid, order.price),
        ensures
            final(self).wf(),
            final(self)@ == old(self)@.order_inserted(order),
    {
        let index: DataIndex = self.header.free_list_head;
        let slot: usize = self.find_slot(order.is_bid, &order.price);
        proof {
            assert(self@.is_free(self@.free[0]));
            self@.lemma_order_inserted_wf(order);
        }
        let next: DataIndex = match self.blocks[index as usize] {
            Block::Free { next } => next,
            _ => unreached(),
        };
        self.blocks.set(index as usize, Block::Order(order));
        self.header.free_list_head = next;
        self.header.next_sequence_number = order.sequence_number + 1;
        if order.is_bid {
            self.bids.insert(slot, index);
        } else {
            self.asks.insert(slot, index);
        }
        self.free = Ghost(self.free@.drop_first());
    }

    /// Whether a new order at `price` would be priced through the best
    /// order of the other side.
    pub(crate) fn outbids(&self, is_bid: bool, price: &Price) -> (r: bool)
        requires
            self.wf(),
        ensures
            r == self@.outbids(is_bid, *price),
    {
        let best: DataIndex = if is_bid {
            self.get_asks_best_index()
        } else {
            self.get_bids_best_index()
        };
        if best == NIL {
            return false;
        }
        let resting: RestingOrder = self.order_in(best);
        if is_bid {
            resting.price.value_lt(price)
        } else {
            price.value_lt(&resting.price)
        }
    }

    /// Cancels the order in block `index`.
    ///
    /// Fails with `NotFound` when the block holds no order, and with
    /// `Overflow` when the returned funds would push a balance past 64 bits.
    pub fn cancel_order_by_index(&mut self, index: DataIndex) -> (r: Result<(), MarketError>)
        requires
            old(self).wf(),
        ensures
            final(self).wf(),
            match old(self)@.cancel_order_by_index(index) {
                Ok(after) => r is Ok && final(self)@ == after,
                Err(e) => r == Err::<(), MarketError>(e) && final(self)@ == old(self)@,
            },
    {
        let order: RestingOrder = match self.order(index) {
            Some(order) => order,
            None => {
                return Err(MarketError::NotFound);
            },
        };
        assert(self@.is_seat(order.trader_index));
        let seat: ClaimedSeat = self.seat_in(order.trader_index);
        let held_quote: u64 = if order.is_bid && order.order_type != OrderType::Global {
            match order.price.checked_quote_for_base(order.num_base_atoms, true) {
                Ok(quote) => quote,
                Err(_) => {
                    return Err(MarketError::Overflow);
                },
            }
        } else {
            0
        };
        let held_base: u64 = if !order.is_bid && order.order_type != OrderType::Global {
            order.num_base_atoms
        } else {
            0
        };
        let base: u64 = match seat.base_withdrawable_balance.checked_add(held_base) {
            Some(base) => base,
            None => {
                return Err(MarketError::Overflow);
            },
        };
        let quote: u64 = match seat.quote_withdrawable_balance.checked_add(held_quote) {
            Some(quote) => quote,
            None => {
                return Err(MarketError::Overflow);
            },
        };
        let refunded = ClaimedSeat {
            base_withdrawable_balance: base,
            quote_withdrawable_balance: quote,
            ..seat
        };
        proof {
            self@.lemma_with_seat_wf(order.trader_index, refunded);
        }
        self.blocks.set(order.trader_index as usize, Block::Seat(refunded));
        self.remove_order(index);
        Ok(())
    }

    /// Block of the order of the seat at `trader_index` that carries
    /// `sequence_number`, or `NIL` when the seat has no such order.
    pub fn find_order(&self, trader_index: DataIndex, sequence_number: u64) -> (index: DataIndex)
        requires
            self.wf(),
        ensures
            index == self@.order_index(trader_index, sequence_number),
            index != NIL ==> self@.is_order_of(index, trader_index, sequence_number),
    {
        proof {
            self@.lemma_order_index(trader_index, sequence_number);
        }
        let found: DataIndex = self.find_in_book(true, trader_index, sequence_number);
        if found != NIL {
            return found;
        }
        let found: DataIndex = self.find_in_book(false, trader_index, sequence_number);
        proof {
            if found == NIL && exists|b: DataIndex| self@.is_order_of(b, trader_index, sequence_number) {
                let b = choose|b: DataIndex| self@.is_order_of(b, trader_index, sequence_number);
                assert(self@.is_order(b));
                assert(self@.book(self@.order_at(b).is_bid).contains(b));
            }
        }
        found
    }

    /// The first order on one side that belongs to the seat at
    /// `trader_index` and carries `sequence_number`, or `NIL`.
    fn find_in_book(&self, is_bid: bool, trader_index: DataIndex, sequence_number: u64) -> (index: DataIndex)
        requires
            self.wf(),
        ensures
            index != NIL ==> self@.is_order_of(index, trader_index, sequence_number),
            index == NIL ==> forall|b: DataIndex|
                self@.book(is_bid).contains(b) ==> !self@.is_order_of(
                    b,
                    trader_index,
                    sequence_number,
                ),
    {
        let book: &Vec<DataIndex> = if is_bid {
            &self.bids
        } else {
            &self.asks
        };
        let mut k: usize = 0;
        while k < book.len()
            invariant
                k <= book.len(),
                book@ == self@.book(is_bid),
                self.wf(),
                forall|j: int|
                    0 <= j < k ==> !self@.is_order_of(
                        #[trigger] book@[j],
                        trader_index,
                        sequence_number,
                    ),
            decreases book.len() - k,
        {
            assert(self@.is_order(self@.book(is_bid)[k as int]));
            let order: RestingOrder = self.order_in(book[k]);
            if order.trader_index == trader_index && order.sequence_number == sequence_number {
                return book[k];
            }
            k = k + 1;
        }
        tree_nil()
    }

    /// Cancels the order of the seat at `trader_index` that carries
    /// `sequence_number`.
    ///
    /// Fails with `NotFound` when the seat has no such order, and with
    /// `Overflow` when the returned funds would push a balance past 64 bits.
    pub fn cancel_order(&mut self, trader_index: DataIndex, sequence_number: u64) -> (r: Result<
        (),
        MarketError,
    >)
        requires
            old(self).wf(),
        ensures
            final(self).wf(),
            match old(self)@.cancel_order(trader_index, sequence_number) {
                Ok(after) => r is Ok && final(self)@ == after,
                Err(e) => r == Err::<(), MarketError>(e) && final(self)@ == old(self)@,
            },
    {
        let index: DataIndex = self.find_order(trader_index, sequence_number);
        if index == NIL {
            return Err(MarketError::NotFound);
        }
        self.cancel_order_by_index(index)
    }

    /// Takes the order in block `index` out of its book and frees the block.
    pub(crate) fn remove_order(&mut self, index: DataIndex)
        requires
            old(self).wf(),
            old(self)@.is_order(index),
        ensures
            final(self).wf(),
            final(self)@ == old(self)@.order_removed(index),
    {
        let order: RestingOrder = self.order_in(index);
        proof {
            self@.lemma_order_removed_wf(index);
            assert(self@.book(order.is_bid).contains(index));
        }
        let at: usize = if order.is_bid {
            position_of(&self.bids, index)
        } else {
            position_of(&self.asks, index)
        };
        if order.is_bid {
            self.bids.remove(at);
        } else {
            self.asks.remove(at);
        }
        self.blocks.set(index as usize, Block::Free { next: self.header.free_list_head });
        self.header.free_list_head = index;
        self.free = Ghost(seq![index] + self.free@);
    }
}

/// Position of `value` in a list that holds it exactly once.
fn position_of(list: &Vec<DataIndex>, value: u32) -> (at: usize)
    requires
        list@.contains(value),
        list@.no_duplicates(),
    ensures
        at < list@.len(),
        at == list@.index_of(value),
{
    let mut k: usize = 0;
    while k < list.len()
        invariant
            k <= list.len(),
            list@.contains(value),
            list@.no_duplicates(),
            forall|j: int| 0 <= j < k ==> list@[j] != value,
        decreases list.len() - k,
    {
        if list[k] == value {
            return k;
        }
        k = k + 1;
    }
    proof {
        let j = choose|j: int| 0 <= j < list@.len() && list@[j] == value;
        assert(false);
    }
    unreached()
}

} // verus!
