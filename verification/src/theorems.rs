//! What holds of every well-formed market, and of operations taken together.

use vstd::prelude::*;
use hypertree::DataIndex;
use crate::book::prices_cross;
use crate::error::MarketError;
use crate::funding::FundingCrank;
use crate::global::GlobalAccountsView;
use crate::matching::{Budget, Fill, MatchStep, MatchSummary, TakerTerms};
use crate::orders::{order_terms, swap_budget, swap_terms};
use crate::pool::lemma_net_position;
use crate::price::Price;
use crate::state::{net_position, Block, MarketHeader, MarketView, OrderType};

verus! {

impl MarketView {
    /// The positions of all seats add up to the header's long total less its
    /// short total.
    pub proof fn theorem_positions_net_out(self)
        requires
            self.wf(),
        ensures
            net_position(self.blocks) == self.header.total_long_base_atoms
                - self.header.total_short_base_atoms,
    {
        lemma_net_position(self.blocks);
    }

    /// No block leaks: the free blocks and the used blocks are the whole
    /// pool, and every block is listed under the one role it plays.
    pub proof fn theorem_blocks_accounted_for(self)
        requires
            self.wf(),
        ensures
            self.free.len() + self.used_blocks() == self.blocks.len(),
            forall|b: DataIndex|
                b < self.blocks.len() ==> match #[trigger] self.blocks[b as int] {
                    Block::Free { .. } => self.free.contains(b),
                    Block::Seat(_) => self.seats.contains(b),
                    Block::Order(order) => self.book(order.is_bid).contains(b),
                },
    {
        assert forall|b: DataIndex| b < self.blocks.len() implies match #[trigger] self.blocks[b as int] {
            Block::Free { .. } => self.free.contains(b),
            Block::Seat(_) => self.seats.contains(b),
            Block::Order(order) => self.book(order.is_bid).contains(b),
        } by {
            assert(self.is_free(b) || self.is_seat(b) || self.is_order(b));
        }
    }

    /// The books do not cross: the best bid is priced no higher than the best ask.
    pub proof fn theorem_books_do_not_cross(self)
        requires
            self.wf(),
            self.bids.len() > 0,
            self.asks.len() > 0,
        ensures
            self.order_at(self.bids[0]).price.scaled() <= self.order_at(
                self.asks[0],
            ).price.scaled(),
    {
    }

    /// Every resting order carries a sequence number of its own, below the
    /// next one the market hands out.
    pub proof fn theorem_sequence_numbers_distinct(self, a: u32, b: u32)
        requires
            self.wf(),
            self.is_order(a),
            self.is_order(b),
            a != b,
        ensures
            self.order_at(a).sequence_number != self.order_at(b).sequence_number,
            self.order_at(a).sequence_number < self.header.next_sequence_number,
    {
    }

    /// A deposit followed by a withdrawal of the same amount leaves the
    /// market as it was.
    pub proof fn theorem_deposit_then_withdraw(self, index: DataIndex, is_base: bool, amount: u64)
        requires
            self.wf(),
            self.deposit(index, is_base, amount) is Ok,
        ensures
            self.deposit(index, is_base, amount).unwrap().withdraw(index, is_base, amount) == Ok::<
                MarketView,
                MarketError,
            >(self),
    {
        let funded = self.deposit(index, is_base, amount).unwrap();
        let back = funded.withdraw(index, is_base, amount).unwrap();
        assert(back.blocks =~= self.blocks);
    }

    /// An order that is posted and then cancelled returns to its seat
    /// exactly what it held back: the market is as it was, but for the
    /// sequence number that the order used up.
    #[verifier::rlimit(40)]
    pub proof fn theorem_post_then_cancel(
        self,
        trader_index: DataIndex,
        is_bid: bool,
        num_base_atoms: u64,
        price: Price,
        order_type: OrderType,
        last_valid_slot: u32,
        reverse_spread: u32,
        current_slot: u32,
    )
        requires
            self.wf(),
            self.post_order(
                trader_index,
                is_bid,
                num_base_atoms,
                price,
                order_type,
                last_valid_slot,
                reverse_spread,
                current_slot,
            ) is Ok,
        ensures
            self.post_order(
                trader_index,
                is_bid,
                num_base_atoms,
                price,
                order_type,
                last_valid_slot,
                reverse_spread,
                current_slot,
            ).unwrap().cancel_order_by_index(self.free[0]) == Ok::<MarketView, MarketError>(
                MarketView {
                    header: MarketHeader {
                        next_sequence_number: (self.header.next_sequence_number + 1) as u64,
                        ..self.header
                    },
                    ..self
                },
            ),
    {
        let index = self.free[0];
        let posted = self.post_order(
            trader_index,
            is_bid,
            num_base_atoms,
            price,
            order_type,
            last_valid_slot,
            reverse_spread,
            current_slot,
        ).unwrap();
        let expected = MarketView {
            header: MarketHeader {
                next_sequence_number: (self.header.next_sequence_number + 1) as u64,
                ..self.header
            },
            ..self
        };
        assert(self.is_free(index));
        assert(self.blocks[index as int] == Block::Free { next: self.free_next(0) });
        assert(index != trader_index);
        let slot = self.slot(is_bid, price);
        self.lemma_slot_from(is_bid, price, 0);
        let book = self.book(is_bid);
        let funded = MarketView {
            blocks: posted.blocks.update(index as int, self.blocks[index as int]),
            ..self
        };
        assert forall|k: int| 0 <= k < book.len() implies funded.order_at(#[trigger] book[k]).price
            == self.order_at(book[k]).price by {
            assert(self.is_order(book[k]));
        }
        self.lemma_slot_from_kept(funded, is_bid, price, 0);
        assert(funded.blocks =~= self.blocks.update(
            trader_index as int,
            posted.blocks[trader_index as int],
        ));
        let listed = book.insert(slot, index);
        book.insert_ensures(slot, index);
        assert(posted.book(is_bid) == listed);
        assert(posted.is_order(index));
        assert(listed[slot] == index);
        assert forall|k: int| 0 <= k < listed.len() && k != slot implies listed[k] != index by {
            if k < slot {
                assert(self.is_order(book[k]));
            } else {
                assert(listed[(k - 1) + 1] == book[k - 1]);
                assert(self.is_order(book[k - 1]));
            }
        }
        assert(listed.index_of(index) == slot);
        assert(listed.remove(slot) =~= book);
        let cancelled = posted.cancel_order_by_index(index).unwrap();
        assert(cancelled.blocks =~= self.blocks);
        assert(cancelled.free =~= self.free);
        assert(cancelled.bids =~= self.bids);
        assert(cancelled.asks =~= self.asks);
        assert(cancelled.header == expected.header);
    }

    /// The same holds when the order is cancelled under the sequence number
    /// that posting it returned.
    pub proof fn theorem_post_then_cancel_by_number(
        self,
        trader_index: DataIndex,
        is_bid: bool,
        num_base_atoms: u64,
        price: Price,
        order_type: OrderType,
        last_valid_slot: u32,
        reverse_spread: u32,
        current_slot: u32,
    )
        requires
            self.wf(),
            self.post_order(
                trader_index,
                is_bid,
                num_base_atoms,
                price,
                order_type,
                last_valid_slot,
                reverse_spread,
                current_slot,
            ) is Ok,
        ensures
            self.post_order(
                trader_index,
                is_bid,
                num_base_atoms,
                price,
                order_type,
                last_valid_slot,
                reverse_spread,
                current_slot,
            ).unwrap().cancel_order(trader_index, self.header.next_sequence_number) == Ok::<
                MarketView,
                MarketError,
            >(
                MarketView {
                    header: MarketHeader {
                        next_sequence_number: (self.header.next_sequence_number + 1) as u64,
                        ..self.header
                    },
                    ..self
                },
            ),
    {
        let posted = self.post_order(
            trader_index,
            is_bid,
            num_base_atoms,
            price,
            order_type,
            last_valid_slot,
            reverse_spread,
            current_slot,
        ).unwrap();
        self.theorem_post_then_cancel(
            trader_index,
            is_bid,
            num_base_atoms,
            price,
            order_type,
            last_valid_slot,
            reverse_spread,
            current_slot,
        );
        self.lemma_post_order_succeeds(
            trader_index,
            is_bid,
            num_base_atoms,
            price,
            order_type,
            last_valid_slot,
            reverse_spread,
            current_slot,
        );
        assert(self.is_free(self.free[0]));
        assert(posted.is_order_of(self.free[0], trader_index, self.header.next_sequence_number));
        posted.lemma_order_index(trader_index, self.header.next_sequence_number);
    }

    /// Cancelling what rests of a placed order returns exactly what resting
    /// it held back: the market is as if the order had been placed to trade
    /// at once and drop the rest, but for the sequence number that was used up.
    pub proof fn theorem_place_then_cancel(
        self,
        trader_index: DataIndex,
        is_bid: bool,
        num_base_atoms: u64,
        price: Price,
        order_type: OrderType,
        last_valid_slot: u32,
        reverse_spread: u32,
        globals: GlobalAccountsView,
        current_slot: u32,
    )
        requires
            self.wf(),
            order_type != OrderType::PostOnly,
            self.place_order(
                trader_index,
                is_bid,
                num_base_atoms,
                price,
                order_type,
                last_valid_slot,
                reverse_spread,
                globals,
                current_slot,
            ) is Ok,
            self.place_order(
                trader_index,
                is_bid,
                num_base_atoms,
                price,
                order_type,
                last_valid_slot,
                reverse_spread,
                globals,
                current_slot,
            ).unwrap().2.resting is Some,
        ensures
            ({
                let (rested, accounts, outcome, fills) = self.place_order(
                    trader_index,
                    is_bid,
                    num_base_atoms,
                    price,
                    order_type,
                    last_valid_slot,
                    reverse_spread,
                    globals,
                    current_slot,
                ).unwrap();
                let at_once = self.place_order(
                    trader_index,
                    is_bid,
                    num_base_atoms,
                    price,
                    OrderType::ImmediateOrCancel,
                    last_valid_slot,
                    reverse_spread,
                    globals,
                    current_slot,
                );
                &&& at_once is Ok
                &&& at_once.unwrap().1 == accounts
                &&& at_once.unwrap().3 == fills
                &&& rested.cancel_order(trader_index, outcome.resting.unwrap().sequence_number)
                    == Ok::<MarketView, MarketError>(
                    MarketView {
                        header: MarketHeader {
                            next_sequence_number: (at_once.unwrap().0.header.next_sequence_number
                                + 1) as u64,
                            ..at_once.unwrap().0.header
                        },
                        ..at_once.unwrap().0
                    },
                )
            }),
    {
        let start = MatchSummary {
            base_atoms: 0,
            quote_atoms: 0,
            remaining: Budget::Base(num_base_atoms),
            out_of_blocks: false,
        };
        self.lemma_match_from(order_terms(is_bid, price), globals, current_slot, start, Seq::empty());
        let (matched, accounts, summary, fills) = self.matched(
            order_terms(is_bid, price),
            Budget::Base(num_base_atoms),
            globals,
            current_slot,
        ).unwrap();
        let settled = matched.taker_settled(
            trader_index,
            is_bid,
            summary.base_atoms,
            summary.quote_atoms,
        ).unwrap();
        assert(matched.is_seat(trader_index));
        matched.lemma_with_seat_wf(trader_index, settled.seat_at(trader_index));
        let left = (num_base_atoms - summary.base_atoms) as u64;
        settled.theorem_post_then_cancel_by_number(
            trader_index,
            is_bid,
            left,
            price,
            order_type,
            last_valid_slot,
            reverse_spread,
            current_slot,
        );
    }

    /// A walk along the book never fills an order for zero atoms of either
    /// asset.
    pub proof fn theorem_fills_move_atoms(
        self,
        taker: TakerTerms,
        budget: Budget,
        globals: GlobalAccountsView,
        current_slot: u32,
    )
        requires
            self.wf(),
            self.matched(taker, budget, globals, current_slot) is Ok,
        ensures
            forall|i: int|
                0 <= i < self.matched(taker, budget, globals, current_slot).unwrap().3.len() ==> (
                #[trigger] self.matched(
                    taker,
                    budget,
                    globals,
                    current_slot,
                ).unwrap().3[i]).base_atoms > 0 && self.matched(
                    taker,
                    budget,
                    globals,
                    current_slot,
                ).unwrap().3[i].quote_atoms > 0,
    {
        self.lemma_match_from(
            taker,
            globals,
            current_slot,
            MatchSummary {
                base_atoms: 0,
                quote_atoms: 0,
                remaining: budget,
                out_of_blocks: false,
            },
            Seq::empty(),
        );
    }

    /// A second funding crank at the same time, with the same oracle record,
    /// changes nothing.
    pub proof fn theorem_crank_twice(self, oracle: Seq<u8>, now: i64)
        requires
            self.wf(),
            self.crank_funding(oracle, now) is Ok,
        ensures
            self.crank_funding(oracle, now).unwrap().0.crank_funding(oracle, now) == Ok::<
                (MarketView, Option<FundingCrank>),
                MarketError,
            >((self.crank_funding(oracle, now).unwrap().0, None)),
    {
        let once = self.crank_funding(oracle, now).unwrap().0;
        let twice = once.crank_funding(oracle, now).unwrap().0;
        assert(twice.header == once.header);
    }

    /// A market never crosses orders that rest: an order is only posted at a
    /// price that the best order of the other side does not match.
    pub proof fn theorem_posted_order_does_not_match(
        self,
        trader_index: DataIndex,
        is_bid: bool,
        num_base_atoms: u64,
        price: Price,
        order_type: OrderType,
        last_valid_slot: u32,
        reverse_spread: u32,
        current_slot: u32,
    )
        requires
            self.wf(),
            self.post_order(
                trader_index,
                is_bid,
                num_base_atoms,
                price,
                order_type,
                last_valid_slot,
                reverse_spread,
                current_slot,
            ) is Ok,
            self.book(!is_bid).len() > 0,
        ensures
            !prices_cross(is_bid, price, self.order_at(self.book(!is_bid)[0]).price),
    {
    }

    /// A walk that ends for want of a free block ends before the maker that
    /// it could not fill. A walk that meets such a maker at its first step
    /// changes nothing. Any walk keeps the fills made on the way, and where
    /// it reports that it ran out of blocks, the market that it leaves is
    /// the one those fills left: no block is free in it, its best opposing
    /// maker is a reverse order that what is left of the budget would fill
    /// in part, and that maker rests as it was.
    pub proof fn theorem_out_of_blocks_ends_the_walk(
        self,
        taker: TakerTerms,
        globals: GlobalAccountsView,
        current_slot: u32,
        so_far: MatchSummary,
        fills: Seq<Fill>,
    )
        requires
            !so_far.out_of_blocks,
        ensures
            self.match_step(taker, so_far.remaining, globals, current_slot) is OutOfBlocks
                ==> self.match_from(taker, globals, current_slot, so_far, fills) == Ok::<
                (MarketView, GlobalAccountsView, MatchSummary, Seq<Fill>),
                MarketError,
            >((self, globals, MatchSummary { out_of_blocks: true, ..so_far }, fills)),
            match self.match_from(taker, globals, current_slot, so_far, fills) {
                Ok((market, accounts, summary, all)) => {
                    &&& fills.is_prefix_of(all)
                    &&& summary.out_of_blocks ==> {
                        let maker = market.order_at(market.book(!taker.is_bid)[0]);
                        &&& market.blocked_by_reverse_maker(taker.is_bid)
                        &&& 0 < summary.remaining.wanted_base(maker) < maker.num_base_atoms
                        &&& market.match_step(
                            taker,
                            summary.remaining,
                            accounts,
                            current_slot,
                        ) is OutOfBlocks
                    }
                },
                Err(_) => true,
            },
        decreases self.book(!taker.is_bid).len(),
    {
        match self.match_step(taker, so_far.remaining, globals, current_slot) {
            MatchStep::Removed(market) => {
                if market.book(!taker.is_bid).len() < self.book(!taker.is_bid).len() {
                    market.theorem_out_of_blocks_ends_the_walk(
                        taker,
                        globals,
                        current_slot,
                        so_far,
                        fills,
                    );
                }
            },
            MatchStep::Traded { market, globals: accounts, fill, remaining } => {
                if !(so_far.base_atoms + fill.base_atoms > u64::MAX || so_far.quote_atoms
                    + fill.quote_atoms > u64::MAX) {
                    let summed = MatchSummary {
                        base_atoms: (so_far.base_atoms + fill.base_atoms) as u64,
                        quote_atoms: (so_far.quote_atoms + fill.quote_atoms) as u64,
                        remaining,
                        out_of_blocks: false,
                    };
                    let more = fills.push(fill);
                    assert(fills.is_prefix_of(more));
                    if market.book(!taker.is_bid).len() < self.book(!taker.is_bid).len() {
                        market.theorem_out_of_blocks_ends_the_walk(
                            taker,
                            accounts,
                            current_slot,
                            summed,
                            more,
                        );
                    }
                }
            },
            _ => {},
        }
    }

    /// A swap that reports that it ran out of blocks leaves the taker before
    /// a reverse maker: no block is free, and the best maker of the opposing
    /// book is a reverse order.
    pub proof fn theorem_swap_out_of_blocks(
        self,
        amount_in: u64,
        amount_out: u64,
        is_base_in: bool,
        is_exact_in: bool,
        globals: GlobalAccountsView,
        current_slot: u32,
    )
        ensures
            match self.swap(amount_in, amount_out, is_base_in, is_exact_in, globals, current_slot) {
                Ok((market, _, outcome, _)) => outcome.out_of_blocks
                    ==> market.blocked_by_reverse_maker(!is_base_in),
                Err(_) => true,
            },
    {
        self.theorem_out_of_blocks_ends_the_walk(
            swap_terms(is_base_in),
            globals,
            current_slot,
            MatchSummary {
                base_atoms: 0,
                quote_atoms: 0,
                remaining: swap_budget(amount_in, amount_out, is_base_in, is_exact_in),
                out_of_blocks: false,
            },
            Seq::empty(),
        );
    }

    /// A placed order that reports that it ran out of blocks leaves the
    /// taker before a reverse maker, and rests nothing.
    pub proof fn theorem_place_order_out_of_blocks(
        self,
        trader_index: DataIndex,
        is_bid: bool,
        num_base_atoms: u64,
        price: Price,
        order_type: OrderType,
        last_valid_slot: u32,
        reverse_spread: u32,
        globals: GlobalAccountsView,
        current_slot: u32,
    )
        requires
            self.wf(),
        ensures
            match self.place_order(
                trader_index,
                is_bid,
                num_base_atoms,
                price,
                order_type,
                last_valid_slot,
                reverse_spread,
                globals,
                current_slot,
            ) {
                Ok((market, _, outcome, _)) => outcome.out_of_blocks ==> outcome.resting is None
                    && market.blocked_by_reverse_maker(is_bid),
                Err(_) => true,
            },
    {
        let placed = self.place_order(
            trader_index,
            is_bid,
            num_base_atoms,
            price,
            order_type,
            last_valid_slot,
            reverse_spread,
            globals,
            current_slot,
        );
        if placed is Ok && placed.unwrap().2.out_of_blocks {
            let start = MatchSummary {
                base_atoms: 0,
                quote_atoms: 0,
                remaining: Budget::Base(num_base_atoms),
                out_of_blocks: false,
            };
            self.theorem_out_of_blocks_ends_the_walk(
                order_terms(is_bid, price),
                globals,
                current_slot,
                start,
                Seq::empty(),
            );
            self.lemma_match_from(order_terms(is_bid, price), globals, current_slot, start, Seq::empty());
            let (matched, _, _, _) = self.matched(
                order_terms(is_bid, price),
                Budget::Base(num_base_atoms),
                globals,
                current_slot,
            ).unwrap();
            let best = matched.book(!is_bid)[0];
            assert(matched.is_order(best));
            assert(matched.is_seat(trader_index));
        }
    }

    /// An order that may rest and that the opposing book does not match is
    /// placed by posting it: nothing trades, and the market is the one that
    /// posting gives, or the order fails as posting fails. The best opposing
    /// maker must not have expired, for a maker that has leaves the book
    /// when an order is placed.
    pub proof fn theorem_place_without_match_posts(
        self,
        trader_index: DataIndex,
        is_bid: bool,
        num_base_atoms: u64,
        price: Price,
        order_type: OrderType,
        last_valid_slot: u32,
        reverse_spread: u32,
        globals: GlobalAccountsView,
        current_slot: u32,
    )
        requires
            self.wf(),
            order_type.rests(),
            !self.crosses(is_bid, price),
            self.book(!is_bid).len() > 0 ==> !self.order_at(self.book(!is_bid)[0]).expired_at(
                current_slot,
            ),
        ensures
            match self.post_order(
                trader_index,
                is_bid,
                num_base_atoms,
                price,
                order_type,
                last_valid_slot,
                reverse_spread,
                current_slot,
            ) {
                Ok(posted) => match self.place_order(
                    trader_index,
                    is_bid,
                    num_base_atoms,
                    price,
                    order_type,
                    last_valid_slot,
                    reverse_spread,
                    globals,
                    current_slot,
                ) {
                    Ok((market, accounts, outcome, fills)) => {
                        &&& market == posted
                        &&& accounts == globals
                        &&& outcome.base_atoms_traded == 0
                        &&& outcome.quote_atoms_traded == 0
                        &&& outcome.resting is Some
                        &&& !outcome.out_of_blocks
                        &&& fills.len() == 0
                    },
                    Err(_) => false,
                },
                Err(e) => self.place_order(
                    trader_index,
                    is_bid,
                    num_base_atoms,
                    price,
                    order_type,
                    last_valid_slot,
                    reverse_spread,
                    globals,
                    current_slot,
                ) is Err && self.place_order(
                    trader_index,
                    is_bid,
                    num_base_atoms,
                    price,
                    order_type,
                    last_valid_slot,
                    reverse_spread,
                    globals,
                    current_slot,
                )->Err_0 == e,
            },
    {
        if self.is_seat(trader_index) && order_type != OrderType::PostOnly {
            let settled = self.taker_settled(trader_index, is_bid, 0, 0).unwrap();
            assert(settled.blocks =~= self.blocks);
            assert(settled == self);
        }
    }
}

} // verus!
