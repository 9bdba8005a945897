//! Placing orders and swapping: the operations that take from the books.
//!
//! An order is placed for a seat. It is matched against the opposing book
//! up to its limit price, the seat pays and receives what was traded, and
//! what is left rests if the order's type lets it. A swap has no seat: it
//! trades an exact amount in for at least a given amount out, or an amount
//! in of at most a given size for an exact amount out, and leaves it to the
//! caller to move the funds.

use vstd::prelude::*;
use hypertree::DataIndex;
use crate::book::PostedOrder;
use crate::error::MarketError;
use crate::global::{GlobalAccounts, GlobalAccountsView};
use crate::matching::{Budget, Fill, MatchSummary, TakerTerms};
use crate::price::Price;
use crate::state::{Block, ClaimedSeat, Market, MarketView, OrderType};

verus! {

/// What placing an order did.
#[derive(Clone, Copy, Debug, PartialEq, Eq)]
pub struct PlaceOutcome {
    /// Base atoms that the order traded at once.
    pub base_atoms_traded: u64,
    /// Quote atoms that the order traded at once.
    pub quote_atoms_traded: u64,
    /// Where what was left of the order rests, if it rests.
    pub resting: Option<PostedOrder>,
    /// Whether matching ended for want of a free block: the capacity of
    /// the pool was reached, and what had traded before stands.
    pub out_of_blocks: bool,
}

/// What a swap did.
#[derive(Clone, Copy, Debug, PartialEq, Eq, Structural)]
pub struct SwapOutcome {
    /// Atoms that the taker owes the market.
    pub atoms_in: u64,
    /// Atoms that the market owes the taker.
    pub atoms_out: u64,
    /// Whether matching ended for want of a free block: the capacity of
    /// the pool was reached, and what had traded before stands.
    pub out_of_blocks: bool,
}

/// The terms of an order that a seat places at a limit price.
pub open spec fn order_terms(is_bid: bool, price: Price) -> TakerTerms {
    TakerTerms { is_bid, has_limit: true, limit: price, rounds_toward_taker: false }
}

/// The terms of a swap: no limit price, and rounding in the taker's favour.
pub open spec fn swap_terms(is_base_in: bool) -> TakerTerms {
    TakerTerms {
        is_bid: !is_base_in,
        has_limit: false,
        limit: Price { mantissa: 0, exponent: 0 },
        rounds_toward_taker: true,
    }
}

/// The budget of a swap: the amount that is exact, in the asset it is in.
pub open spec fn swap_budget(amount_in: u64, amount_out: u64, is_base_in: bool, is_exact_in: bool)
    -> Budget {
    if is_exact_in {
        if is_base_in {
            Budget::Base(amount_in)
        } else {
            Budget::Quote(amount_in)
        }
    } else {
        if is_base_in {
            Budget::Quote(amount_out)
        } else {
            Budget::Base(amount_out)
        }
    }
}

impl MarketView {
    /// What it comes to when the seat at `trader_index` pays and receives
    /// what its order traded.
    pub open spec fn taker_settled(
        self,
        trader_index: DataIndex,
        is_bid: bool,
        base_atoms: u64,
        quote_atoms: u64,
    ) -> Result<MarketView, MarketError> {
        let seat = self.seat_at(trader_index);
        let base = if is_bid {
            seat.base_withdrawable_balance + base_atoms
        } else {
            seat.base_withdrawable_balance - base_atoms
        };
        let quote = if is_bid {
            seat.quote_withdrawable_balance - quote_atoms
        } else {
            seat.quote_withdrawable_balance + quote_atoms
        };
        if base < 0 || quote < 0 {
            Err(MarketError::InsufficientFunds)
        } else if base > u64::MAX || quote > u64::MAX {
            Err(MarketError::Overflow)
        } else {
            Ok(
                self.with_seat(
                    trader_index,
                    ClaimedSeat {
                        base_withdrawable_balance: base as u64,
                        quote_withdrawable_balance: quote as u64,
                        ..seat
                    },
                ),
            )
        }
    }

    /// Whether what is left of an order rests after matching: there must be
    /// something left, the order's type must let it rest, matching must not
    /// have run out of blocks, and the opposing book must not match it.
    pub open spec fn residue_rests(
        self,
        is_bid: bool,
        left: u64,
        price: Price,
        order_type: OrderType,
        out_of_blocks: bool,
    ) -> bool {
        left > 0 && order_type.rests() && !out_of_blocks && !self.crosses(is_bid, price)
    }

    /// What placing an order for the seat at `trader_index` comes to.
    ///
    /// A post-only order rests or fails. Any other order is matched first;
    /// a fill-or-kill order that is not filled in full fails with
    /// `Slippage`.
    pub open spec fn place_order(
        self,
        trader_index: DataIndex,
        is_bid: bool,
        num_base_atoms: u64,
        price: Price,
        order_type: OrderType,
        last_valid_slot: u32,
        reverse_spread: u32,
        globals: GlobalAccountsView,
        current_slot: u32,
    ) -> Result<(MarketView, GlobalAccountsView, PlaceOutcome, Seq<Fill>), MarketError> {
        if !self.is_seat(trader_index) {
            Err(MarketError::NotFound)
        } else if num_base_atoms == 0 {
            Err(MarketError::InvalidArgument)
        } else if last_valid_slot != 0 && last_valid_slot < current_slot {
            Err(MarketError::Expired)
        } else if order_type == OrderType::PostOnly {
            match self.post_order(
                trader_index,
                is_bid,
                num_base_atoms,
                price,
                order_type,
                last_valid_slot,
                reverse_spread,
                current_slot,
            ) {
                Ok(market) => Ok(
                    (
                        market,
                        globals,
                        PlaceOutcome {
                            base_atoms_traded: 0,
                            quote_atoms_traded: 0,
                            resting: Some(
                                PostedOrder {
                                    index: self.free[0],
                                    sequence_number: self.header.next_sequence_number,
                                },
                            ),
                            out_of_blocks: false,
                        },
                        Seq::empty(),
                    ),
                ),
                Err(e) => Err(e),
            }
        } else {
            match self.matched(
                order_terms(is_bid, price),
                Budget::Base(num_base_atoms),
                globals,
                current_slot,
            ) {
                Err(e) => Err(e),
                Ok((matched, accounts, summary, fills)) => match matched.taker_settled(
                    trader_index,
                    is_bid,
                    summary.base_atoms,
                    summary.quote_atoms,
                ) {
                    Err(e) => Err(e),
                    Ok(settled) => {
                        let left = (num_base_atoms - summary.base_atoms) as u64;
                        if order_type == OrderType::FillOrKill && left > 0 {
                            Err(MarketError::Slippage)
                        } else if settled.residue_rests(
                            is_bid,
                            left,
                            price,
                            order_type,
                            summary.out_of_blocks,
                        ) {
                            match settled.post_order(
                                trader_index,
                                is_bid,
                                left,
                                price,
                                order_type,
                                last_valid_slot,
                                reverse_spread,
                                current_slot,
                            ) {
                                Ok(market) => Ok(
                                    (
                                        market,
                                        accounts,
                                        PlaceOutcome {
                                            base_atoms_traded: summary.base_atoms,
                                            quote_atoms_traded: summary.quote_atoms,
                                            resting: Some(
                                                PostedOrder {
                                                    index: settled.free[0],
                                                    sequence_number: settled.header.next_sequence_number,
                                                },
                                            ),
                                            out_of_blocks: false,
                                        },
                                        fills,
                                    ),
                                ),
                                Err(e) => Err(e),
                            }
                        } else {
                            Ok(
                                (
                                    settled,
                                    accounts,
                                    PlaceOutcome {
                                        base_atoms_traded: summary.base_atoms,
                                        quote_atoms_traded: summary.quote_atoms,
                                        resting: None,
                                        out_of_blocks: summary.out_of_blocks,
                                    },
                                    fills,
                                ),
                            )
                        }
                    },
                },
            }
        }
    }

    /// What a swap comes to.
    ///
    /// With an exact amount in, the taker gives up to `amount_in` and must
    /// receive at least `amount_out`. With an exact amount out, the taker
    /// must receive `amount_out` and give no more than `amount_in`. A swap
    /// that falls short fails with `Slippage`.
    pub open spec fn swap(
        self,
        amount_in: u64,
        amount_out: u64,
        is_base_in: bool,
        is_exact_in: bool,
        globals: GlobalAccountsView,
        current_slot: u32,
    ) -> Result<(MarketView, GlobalAccountsView, SwapOutcome, Seq<Fill>), MarketError> {
        match self.matched(
            swap_terms(is_base_in),
            swap_budget(amount_in, amount_out, is_base_in, is_exact_in),
            globals,
            current_slot,
        ) {
            Err(e) => Err(e),
            Ok((market, accounts, summary, fills)) => {
                let atoms_in = if is_base_in {
                    summary.base_atoms
                } else {
                    summary.quote_atoms
                };
                let atoms_out = if is_base_in {
                    summary.quote_atoms
                } else {
                    summary.base_atoms
                };
                if atoms_out < amount_out || atoms_in > amount_in {
                    Err(MarketError::Slippage)
                } else {
                    Ok(
                        (
                            market,
                            accounts,
                            SwapOutcome { atoms_in, atoms_out, out_of_blocks: summary.out_of_blocks },
                            fills,
                        ),
                    )
                }
            },
        }
    }
}

impl MarketView {
    /// A placed order gives a market that succeeds the old one, and none
    /// of its fills moves zero atoms of either asset.
    pub proof fn lemma_place_order_succeeds(
        self,
        trader_index: DataIndex,
        is_bid: bool,
        num_base_atoms: u64,
        price: Price,
        order_type: OrderType,
        last_valid_slot: u32,
        reverse_spread: u32,
        globals: GlobalAccountsView,
        current_slot: u32,
    )
        requires
            self.wf(),
            self.place_order(
                trader_index,
                is_bid,
                num_base_atoms,
                price,
                order_type,
                last_valid_slot,
                reverse_spread,
                globals,
                current_slot,
            ) is Ok,
        ensures
            self.place_order(
                trader_index,
                is_bid,
                num_base_atoms,
                price,
                order_type,
                last_valid_slot,
                reverse_spread,
                globals,
                current_slot,
            ).unwrap().0.succeeds(self),
            forall|i: int|
                0 <= i < self.place_order(
                    trader_index,
                    is_bid,
                    num_base_atoms,
                    price,
                    order_type,
                    last_valid_slot,
                    reverse_spread,
                    globals,
                    current_slot,
                ).unwrap().3.len() ==> (#[trigger] self.place_order(
                    trader_index,
                    is_bid,
                    num_base_atoms,
                    price,
                    order_type,
                    last_valid_slot,
                    reverse_spread,
                    globals,
                    current_slot,
                ).unwrap().3[i]).base_atoms > 0 && self.place_order(
                    trader_index,
                    is_bid,
                    num_base_atoms,
                    price,
                    order_type,
                    last_valid_slot,
                    reverse_spread,
                    globals,
                    current_slot,
                ).unwrap().3[i].quote_atoms > 0,
    {
        if order_type == OrderType::PostOnly {
            self.lemma_post_order_succeeds(
                trader_index,
                is_bid,
                num_base_atoms,
                price,
                order_type,
                last_valid_slot,
                reverse_spread,
                current_slot,
            );
        } else {
            let start = MatchSummary {
                base_atoms: 0,
                quote_atoms: 0,
                remaining: Budget::Base(num_base_atoms),
                out_of_blocks: false,
            };
            self.lemma_match_from(
                order_terms(is_bid, price),
                globals,
                current_slot,
                start,
                Seq::empty(),
            );
            let (matched, accounts, summary, fills) = self.matched(
                order_terms(is_bid, price),
                Budget::Base(num_base_atoms),
                globals,
                current_slot,
            ).unwrap();
            let settled = matched.taker_settled(
                trader_index,
                is_bid,
                summary.base_atoms,
                summary.quote_atoms,
            ).unwrap();
            assert(matched.is_seat(trader_index));
            matched.lemma_with_seat_succeeds(trader_index, settled.seat_at(trader_index));
            self.lemma_succeeds_chain(matched, settled);
            let left = (num_base_atoms - summary.base_atoms) as u64;
            if settled.residue_rests(is_bid, left, price, order_type, summary.out_of_blocks) {
                settled.lemma_post_order_succeeds(
                    trader_index,
                    is_bid,
                    left,
                    price,
                    order_type,
                    last_valid_slot,
                    reverse_spread,
                    current_slot,
                );
                self.lemma_succeeds_chain(
                    settled,
                    settled.post_order(
                        trader_index,
                        is_bid,
                        left,
                        price,
                        order_type,
                        last_valid_slot,
                        reverse_spread,
                        current_slot,
                    ).unwrap(),
                );
            }
        }
    }

    /// A swap gives a market that succeeds the old one, and none of its
    /// fills moves zero atoms of either asset.
    pub proof fn lemma_swap_succeeds(
        self,
        amount_in: u64,
        amount_out: u64,
        is_base_in: bool,
        is_exact_in: bool,
        globals: GlobalAccountsView,
        current_slot: u32,
    )
        requires
            self.wf(),
            self.swap(amount_in, amount_out, is_base_in, is_exact_in, globals, current_slot) is Ok,
        ensures
            self.swap(
                amount_in,
                amount_out,
                is_base_in,
                is_exact_in,
                globals,
                current_slot,
            ).unwrap().0.succeeds(self),
            forall|i: int|
                0 <= i < self.swap(
                    amount_in,
                    amount_out,
                    is_base_in,
                    is_exact_in,
                    globals,
                    current_slot,
                ).unwrap().3.len() ==> (#[trigger] self.swap(
                    amount_in,
                    amount_out,
                    is_base_in,
                    is_exact_in,
                    globals,
                    current_slot,
                ).unwrap().3[i]).base_atoms > 0 && self.swap(
                    amount_in,
                    amount_out,
                    is_base_in,
                    is_exact_in,
                    globals,
                    current_slot,
                ).unwrap().3[i].quote_atoms > 0,
    {
        self.lemma_match_from(
            swap_terms(is_base_in),
            globals,
            current_slot,
            MatchSummary {
                base_atoms: 0,
                quote_atoms: 0,
                remaining: swap_budget(amount_in, amount_out, is_base_in, is_exact_in),
                out_of_blocks: false,
            },
            Seq::empty(),
        );
    }
}

impl Market {
    /// Places an order for the seat at `trader_index`, appends its fills to
    /// `fills` and returns what it traded and where the rest of it rests.
    ///
    /// Fails with `NotFound` when `trader_index` holds no seat; with
    /// `InvalidArgument` for an empty order or a post-only order that would
    /// match; with `Expired` when the order's last valid slot has passed;
    /// with `InsufficientFunds` when the seat cannot pay for what was traded
    /// or cover what rests; with `Capacity` when what is left should rest and
    /// no block is free; with `Slippage` when a fill-or-kill order is not
    /// filled in full; and with `Overflow` when a balance or a total would
    /// exceed 64 bits. A failed order changes nothing, neither in the market
    /// nor in the global accounts nor in `fills`.
    pub fn place_order(
        &mut self,
        trader_index: DataIndex,
        is_bid: bool,
        num_base_atoms: u64,
        price: Price,
        order_type: OrderType,
        last_valid_slot: u32,
        reverse_spread: u32,
        globals: &mut GlobalAccounts,
        current_slot: u32,
        fills: &mut Vec<Fill>,
    ) -> (r: Result<PlaceOutcome, MarketError>)
        requires
            old(self).wf(),
        ensures
            final(self).wf(),
            match old(self)@.place_order(
                trader_index,
                is_bid,
                num_base_atoms,
                price,
                order_type,
                last_valid_slot,
                reverse_spread,
                old(globals)@,
                current_slot,
            ) {
                Ok((market, accounts, outcome, all)) => {
                    &&& r == Ok::<PlaceOutcome, MarketError>(outcome)
                    &&& final(self)@ == market
                    &&& final(globals)@ == accounts
                    &&& final(fills)@ == old(fills)@ + all
                },
                Err(e) => {
                    &&& r == Err::<PlaceOutcome, MarketError>(e)
                    &&& final(self)@ == old(self)@
                    &&& final(globals)@ == old(globals)@
                    &&& final(fills)@ == old(fills)@
                },
            },
    {
        assert(fills@ + Seq::<Fill>::empty() =~= fills@);
        if self.seat(trader_index).is_none() {
            return Err(MarketError::NotFound);
        }
        if num_base_atoms == 0 {
            return Err(MarketError::InvalidArgument);
        }
        if last_valid_slot != 0 && last_valid_slot < current_slot {
            return Err(MarketError::Expired);
        }
        if order_type == OrderType::PostOnly {
            return match self.post_order(
                trader_index,
                is_bid,
                num_base_atoms,
                price,
                order_type,
                last_valid_slot,
                reverse_spread,
                current_slot,
            ) {
                Ok(posted) => Ok(
                    PlaceOutcome {
                        base_atoms_traded: 0,
                        quote_atoms_traded: 0,
                        resting: Some(posted),
                        out_of_blocks: false,
                    },
                ),
                Err(e) => Err(e),
            };
        }
        let market_backup: Market = self.duplicate();
        let globals_backup: GlobalAccounts = globals.duplicate();
        let mut found: Vec<Fill> = Vec::new();
        match self.place_matched(
            trader_index,
            is_bid,
            num_base_atoms,
            price,
            order_type,
            last_valid_slot,
            reverse_spread,
            globals,
            current_slot,
            &mut found,
        ) {
            Ok(outcome) => {
                fills.append(&mut found);
                Ok(outcome)
            },
            Err(e) => {
                *self = market_backup;
                *globals = globals_backup;
                Err(e)
            },
        }
    }

    /// Matches an order and rests what is left of it. On failure the market,
    /// the accounts and `fills` may be left part of the way.
    fn place_matched(
        &mut self,
        trader_index: DataIndex,
        is_bid: bool,
        num_base_atoms: u64,
        price: Price,
        order_type: OrderType,
        last_valid_slot: u32,
        reverse_spread: u32,
        globals: &mut GlobalAccounts,
        current_slot: u32,
        fills: &mut Vec<Fill>,
    ) -> (r: Result<PlaceOutcome, MarketError>)
        requires
            old(self).wf(),
            old(fills)@.len() == 0,
            old(self)@.is_seat(trader_index),
            num_base_atoms > 0,
            !(last_valid_slot != 0 && last_valid_slot < current_slot),
            order_type != OrderType::PostOnly,
        ensures
            final(self).wf(),
            match old(self)@.place_order(
                trader_index,
                is_bid,
                num_base_atoms,
                price,
                order_type,
                last_valid_slot,
                reverse_spread,
                old(globals)@,
                current_slot,
            ) {
                Ok((market, accounts, outcome, all)) => {
                    &&& r == Ok::<PlaceOutcome, MarketError>(outcome)
                    &&& final(self)@ == market
                    &&& final(globals)@ == accounts
                    &&& final(fills)@ == all
                },
                Err(e) => r == Err::<PlaceOutcome, MarketError>(e),
            },
    {
        let terms = TakerTerms { is_bid, has_limit: true, limit: price, rounds_toward_taker: false };
        proof {
            old(self)@.lemma_match_from(
                terms,
                old(globals)@,
                current_slot,
                MatchSummary {
                    base_atoms: 0,
                    quote_atoms: 0,
                    remaining: Budget::Base(num_base_atoms),
                    out_of_blocks: false,
                },
                Seq::empty(),
            );
            old(self)@.lemma_base_budget(
                terms,
                old(globals)@,
                current_slot,
                MatchSummary {
                    base_atoms: 0,
                    quote_atoms: 0,
                    remaining: Budget::Base(num_base_atoms),
                    out_of_blocks: false,
                },
                Seq::empty(),
                num_base_atoms,
            );
        }
        let summary: MatchSummary = match self.run_match(
            &terms,
            Budget::Base(num_base_atoms),
            globals,
            current_slot,
            fills,
        ) {
            Ok(summary) => summary,
            Err(e) => {
                return Err(e);
            },
        };
        assert(self@.is_seat(trader_index));
        let seat: ClaimedSeat = self.seat_in(trader_index);
        let (pays, has, receives, holds): (u64, u64, u64, u64) = if is_bid {
            (
                summary.quote_atoms,
                seat.quote_withdrawable_balance,
                summary.base_atoms,
                seat.base_withdrawable_balance,
            )
        } else {
            (
                summary.base_atoms,
                seat.base_withdrawable_balance,
                summary.quote_atoms,
                seat.quote_withdrawable_balance,
            )
        };
        if pays > has {
            return Err(MarketError::InsufficientFunds);
        }
        let gained: u64 = match holds.checked_add(receives) {
            Some(gained) => gained,
            None => {
                return Err(MarketError::Overflow);
            },
        };
        let settled: ClaimedSeat = if is_bid {
            ClaimedSeat {
                base_withdrawable_balance: gained,
                quote_withdrawable_balance: has - pays,
                ..seat
            }
        } else {
            ClaimedSeat {
                base_withdrawable_balance: has - pays,
                quote_withdrawable_balance: gained,
                ..seat
            }
        };
        proof {
            self@.lemma_with_seat_wf(trader_index, settled);
        }
        assert(trader_index < self.blocks@.len());
        self.blocks.set(trader_index as usize, Block::Seat(settled));
        let left: u64 = num_base_atoms - summary.base_atoms;
        if order_type == OrderType::FillOrKill && left > 0 {
            return Err(MarketError::Slippage);
        }
        if left > 0 && order_type.can_rest() && !summary.out_of_blocks && !self.crossing(
            is_bid,
            &price,
        ) {
            match self.post_order(
                trader_index,
                is_bid,
                left,
                price,
                order_type,
                last_valid_slot,
                reverse_spread,
                current_slot,
            ) {
                Ok(posted) => Ok(
                    PlaceOutcome {
                        base_atoms_traded: summary.base_atoms,
                        quote_atoms_traded: summary.quote_atoms,
                        resting: Some(posted),
                        out_of_blocks: false,
                    },
                ),
                Err(e) => Err(e),
            }
        } else {
            Ok(
                PlaceOutcome {
                    base_atoms_traded: summary.base_atoms,
                    quote_atoms_traded: summary.quote_atoms,
                    resting: None,
                    out_of_blocks: summary.out_of_blocks,
                },
            )
        }
    }

    /// Swaps against the books, appends the fills to `fills` and returns
    /// what the taker owes and is owed.
    ///
    /// Fails with `Slippage` when the amount out falls short of `amount_out`
    /// or, for an exact amount out, the amount in would exceed `amount_in`;
    /// and with `Overflow` when a balance or a total would exceed 64 bits.
    /// A failed swap changes nothing, neither in the market nor in the
    /// global accounts nor in `fills`.
    pub fn swap(
        &mut self,
        amount_in: u64,
        amount_out: u64,
        is_base_in: bool,
        is_exact_in: bool,
        globals: &mut GlobalAccounts,
        current_slot: u32,
        fills: &mut Vec<Fill>,
    ) -> (r: Result<SwapOutcome, MarketError>)
        requires
            old(self).wf(),
        ensures
            final(self).wf(),
            match old(self)@.swap(
                amount_in,
                amount_out,
                is_base_in,
                is_exact_in,
                old(globals)@,
                current_slot,
            ) {
                Ok((market, accounts, outcome, all)) => {
                    &&& r == Ok::<SwapOutcome, MarketError>(outcome)
                    &&& final(self)@ == market
                    &&& final(globals)@ == accounts
                    &&& final(fills)@ == old(fills)@ + all
                },
                Err(e) => {
                    &&& r == Err::<SwapOutcome, MarketError>(e)
                    &&& final(self)@ == old(self)@
                    &&& final(globals)@ == old(globals)@
                    &&& final(fills)@ == old(fills)@
                },
            },
    {
        let terms = TakerTerms {
            is_bid: !is_base_in,
            has_limit: false,
            limit: Price::new(0, 0),
            rounds_toward_taker: true,
        };
        let budget: Budget = if is_exact_in {
            if is_base_in {
                Budget::Base(amount_in)
            } else {
                Budget::Quote(amount_in)
            }
        } else {
            if is_base_in {
                Budget::Quote(amount_out)
            } else {
                Budget::Base(amount_out)
            }
        };
        let market_backup: Market = self.duplicate();
        let globals_backup: GlobalAccounts = globals.duplicate();
        let mut found: Vec<Fill> = Vec::new();
        let summary: MatchSummary = match self.run_match(
            &terms,
            budget,
            globals,
            current_slot,
            &mut found,
        ) {
            Ok(summary) => summary,
            Err(e) => {
                *self = market_backup;
                *globals = globals_backup;
                return Err(e);
            },
        };
        let (atoms_in, atoms_out): (u64, u64) = if is_base_in {
            (summary.base_atoms, summary.quote_atoms)
        } else {
            (summary.quote_atoms, summary.base_atoms)
        };
        if atoms_out < amount_out || atoms_in > amount_in {
            *self = market_backup;
            *globals = globals_backup;
            return Err(MarketError::Slippage);
        }
        fills.append(&mut found);
        Ok(SwapOutcome { atoms_in, atoms_out, out_of_blocks: summary.out_of_blocks })
    }
}

} // verus!
