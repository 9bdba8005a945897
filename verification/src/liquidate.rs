//! Liquidation of a position whose margin no longer covers it.
//!
//! All open orders of the trader are cancelled first, which returns the funds
//! they held back. The position is then valued at the mark price. If the
//! trader's equity, that is margin plus unrealized profit or loss, is below
//! the maintenance requirement, the position is closed: profit or loss is
//! settled into the margin, the liquidator earns a share of what is left, and
//! the header's totals give up the position.

use vstd::prelude::*;
use hypertree::DataIndex;
use solana_program::pubkey::Pubkey;
use crate::error::MarketError;
use crate::keys::{identity_of, pubkey_bytes};
use crate::pool::{lemma_totals_bound, lemma_totals_update};
use crate::seats::magnitude;
use crate::state::{
    long_of, short_of, Block, ClaimedSeat, Identity, Market, MarketHeader, MarketView, NIL,
};

verus! {

/// Share of the settled margin that the liquidator earns, in basis points.
pub const LIQUIDATOR_REWARD_BPS: u64 = 250;

/// Basis points in one whole.
pub const BPS_PER_WHOLE: u64 = 10_000;

/// Names the trader whose position is to be liquidated.
pub struct LiquidateParams {
    pub trader_to_liquidate: Pubkey,
}

impl LiquidateParams {
    /// Names `trader_to_liquidate` for liquidation.
    pub fn new(trader_to_liquidate: Pubkey) -> (params: Self)
        ensures
            params.trader_to_liquidate == trader_to_liquidate,
    {
        LiquidateParams { trader_to_liquidate }
    }
}

/// What a liquidation settled.
#[derive(Clone, Copy, Debug, PartialEq, Eq, Structural)]
pub struct Liquidation {
    /// The position that was closed, in base atoms.
    pub position_size: i64,
    /// Its value at the mark price, in quote atoms.
    pub settlement_value: u64,
    /// The profit or loss that was settled, in quote atoms.
    pub pnl: i128,
    /// The margin after settlement, before the liquidator's share.
    pub settled_margin: u64,
    /// The liquidator's share.
    pub reward: u64,
}

/// The size of a signed amount.
pub open spec fn size_of(amount: int) -> nat {
    if amount >= 0 {
        amount as nat
    } else {
        (-amount) as nat
    }
}

/// Profit or loss of a position worth `value` that cost `cost_basis`: a long
/// gains what the value exceeds the cost by, a short what it falls short by.
pub open spec fn unrealized_pnl(position_size: int, value: int, cost_basis: int) -> int {
    if position_size > 0 {
        value - cost_basis
    } else {
        cost_basis - value
    }
}

/// The equity that a position of the given value must keep.
pub open spec fn maintenance_requirement(value: nat, margin_bps: nat) -> nat {
    value * margin_bps / (BPS_PER_WHOLE as nat)
}

/// The liquidator's share of a settled margin.
pub open spec fn liquidator_reward(settled_margin: nat) -> nat {
    settled_margin * (LIQUIDATOR_REWARD_BPS as nat) / (BPS_PER_WHOLE as nat)
}

/// `amount` brought into the range of an unsigned 64-bit balance.
pub open spec fn clamp_u64(amount: int) -> u64 {
    if amount < 0 {
        0
    } else if amount > u64::MAX {
        u64::MAX
    } else {
        amount as u64
    }
}

impl MarketView {
    /// The orders on `list` that belong to the seat at `owner`, in list order.
    pub open spec fn owned_in(self, list: Seq<DataIndex>, owner: DataIndex) -> Seq<DataIndex>
        decreases list.len(),
    {
        if list.len() == 0 {
            Seq::empty()
        } else {
            let rest = self.owned_in(list.drop_last(), owner);
            if self.order_at(list.last()).trader_index == owner {
                rest.push(list.last())
            } else {
                rest
            }
        }
    }

    /// All orders of the seat at `owner`: its bids, then its asks, each in book order.
    pub open spec fn orders_of(self, owner: DataIndex) -> Seq<DataIndex> {
        self.owned_in(self.bids, owner) + self.owned_in(self.asks, owner)
    }

    /// What cancelling the orders on `list` one after the other comes to.
    pub open spec fn cancel_listed(self, list: Seq<DataIndex>) -> Result<MarketView, MarketError>
        decreases list.len(),
    {
        if list.len() == 0 {
            Ok(self)
        } else {
            match self.cancel_order_by_index(list[0]) {
                Ok(after) => after.cancel_listed(list.drop_first()),
                Err(e) => Err(e),
            }
        }
    }

    /// What cancelling every order of the seat at `owner` comes to.
    pub open spec fn cancel_all(self, owner: DataIndex) -> Result<MarketView, MarketError> {
        self.cancel_listed(self.orders_of(owner))
    }

    /// The market with the position of the seat at `index` closed: margin set
    /// to `margin`, position and cost basis zeroed, and the position taken
    /// off the header's long or short total, which in a well-formed market
    /// is no smaller than the position.
    pub open spec fn position_closed(self, index: DataIndex, margin: u64) -> MarketView {
        let seat = self.seat_at(index);
        let size = size_of(seat.position_size as int);
        let long = self.header.total_long_base_atoms;
        let short = self.header.total_short_base_atoms;
        MarketView {
            header: MarketHeader {
                total_long_base_atoms: if seat.position_size > 0 {
                    (long - size) as u64
                } else {
                    long
                },
                total_short_base_atoms: if seat.position_size > 0 {
                    short
                } else {
                    (short - size) as u64
                },
                ..self.header
            },
            ..self.with_seat(
                index,
                ClaimedSeat {
                    quote_withdrawable_balance: margin,
                    position_size: 0,
                    quote_cost_basis: 0,
                    ..seat
                },
            )
        }
    }

    /// What adding `reward` to the margin of `liquidator`'s seat comes to.
    /// Nothing changes when the reward is zero or the liquidator has no
    /// seat; a margin that would pass the largest balance is an overflow.
    pub open spec fn reward_paid(self, liquidator: Seq<u8>, reward: u64) -> Result<
        MarketView,
        MarketError,
    > {
        let payee = self.trader_index(liquidator);
        if reward > 0 && payee != NIL {
            let seat = self.seat_at(payee);
            if seat.quote_withdrawable_balance + reward > u64::MAX {
                Err(MarketError::Overflow)
            } else {
                Ok(
                    self.with_seat(
                        payee,
                        ClaimedSeat {
                            quote_withdrawable_balance: (seat.quote_withdrawable_balance
                                + reward) as u64,
                            ..seat
                        },
                    ),
                )
            }
        } else {
            Ok(self)
        }
    }

    /// What settling the position of the seat at `index` comes to, once its
    /// orders are out of the way.
    ///
    /// A long is valued rounding down and a short rounding up, so that
    /// rounding never favours the trader. The settled margin is the equity,
    /// or nothing where the equity is negative; an equity or a liquidator's
    /// margin beyond the largest balance is an overflow.
    pub open spec fn settle_liquidation(self, index: DataIndex, liquidator: Seq<u8>) -> Result<
        (MarketView, Liquidation),
        MarketError,
    > {
        let seat = self.seat_at(index);
        match self.mark_price() {
            Err(e) => Err(e),
            Ok(mark) => {
                let value = mark.quote_for_base(
                    size_of(seat.position_size as int),
                    seat.position_size < 0,
                );
                if value > u64::MAX {
                    Err(MarketError::Overflow)
                } else {
                    let pnl = unrealized_pnl(
                        seat.position_size as int,
                        value as int,
                        seat.quote_cost_basis as int,
                    );
                    let equity = seat.quote_withdrawable_balance + pnl;
                    if equity >= maintenance_requirement(
                        value,
                        self.header.maintenance_margin_bps as nat,
                    ) {
                        Err(MarketError::NotLiquidatable)
                    } else if equity > u64::MAX {
                        Err(MarketError::Overflow)
                    } else {
                        let settled_margin = clamp_u64(equity);
                        let reward = liquidator_reward(settled_margin as nat) as u64;
                        match self.position_closed(
                            index,
                            (settled_margin - reward) as u64,
                        ).reward_paid(liquidator, reward) {
                            Err(e) => Err(e),
                            Ok(after) => Ok(
                                (
                                    after,
                                    Liquidation {
                                        position_size: seat.position_size,
                                        settlement_value: value as u64,
                                        pnl: pnl as i128,
                                        settled_margin,
                                        reward,
                                    },
                                ),
                            ),
                        }
                    }
                }
            },
        }
    }

    /// What liquidating `trader` on behalf of `liquidator` comes to.
    pub open spec fn liquidate(self, trader: Seq<u8>, liquidator: Seq<u8>) -> Result<
        (MarketView, Liquidation),
        MarketError,
    > {
        let index = self.trader_index(trader);
        if index == NIL {
            Err(MarketError::NotFound)
        } else if self.seat_at(index).position_size == 0 {
            Err(MarketError::NotLiquidatable)
        } else {
            match self.cancel_all(index) {
                Err(e) => Err(e),
                Ok(cleared) => cleared.settle_liquidation(index, liquidator),
            }
        }
    }

    /// A cancellation keeps the invariant, and leaves every seat with its
    /// trader, its position and its cost basis.
    pub proof fn lemma_cancel_keeps_seats(self, index: DataIndex)
        requires
            self.wf(),
            self.cancel_order_by_index(index) is Ok,
        ensures
            self.cancel_order_by_index(index).unwrap().wf(),
            self.cancel_order_by_index(index).unwrap().keeps_seats_of(self),
    {
        self.lemma_cancel_succeeds(index);
    }

    /// A run of cancellations keeps the invariant, and leaves every seat
    /// with its trader, its position and its cost basis.
    pub proof fn lemma_cancel_listed_keeps_seats(self, list: Seq<DataIndex>)
        requires
            self.wf(),
            self.cancel_listed(list) is Ok,
        ensures
            self.cancel_listed(list).unwrap().wf(),
            self.cancel_listed(list).unwrap().keeps_seats_of(self),
        decreases list.len(),
    {
        if list.len() > 0 {
            let after = self.cancel_order_by_index(list[0]).unwrap();
            self.lemma_cancel_keeps_seats(list[0]);
            after.lemma_cancel_listed_keeps_seats(list.drop_first());
            let last = self.cancel_listed(list).unwrap();
            assert forall|b: DataIndex| #[trigger] last.is_seat(b) <==> self.is_seat(b) by {
                assert(after.is_seat(b) <==> self.is_seat(b));
            }
            assert forall|b: DataIndex| #[trigger] self.is_seat(b) implies {
                &&& last.seat_at(b).trader@ == self.seat_at(b).trader@
                &&& last.seat_at(b).position_size == self.seat_at(b).position_size
                &&& last.seat_at(b).quote_cost_basis == self.seat_at(b).quote_cost_basis
            } by {
                assert(after.is_seat(b));
            }
        }
    }

    /// A run of cancellations gives a market that succeeds the old one.
    pub proof fn lemma_cancel_listed_succeeds(self, list: Seq<DataIndex>)
        requires
            self.wf(),
            self.cancel_listed(list) is Ok,
        ensures
            self.cancel_listed(list).unwrap().succeeds(self),
        decreases list.len(),
    {
        if list.len() > 0 {
            let after = self.cancel_order_by_index(list[0]).unwrap();
            self.lemma_cancel_succeeds(list[0]);
            after.lemma_cancel_listed_succeeds(list.drop_first());
            self.lemma_succeeds_chain(after, self.cancel_listed(list).unwrap());
        } else {
            self.lemma_succeeds_itself();
        }
    }

    /// A liquidation keeps the invariant and the sequence of orders.
    pub proof fn lemma_liquidate_wf(self, trader: Seq<u8>, liquidator: Seq<u8>)
        requires
            self.wf(),
            self.liquidate(trader, liquidator) is Ok,
        ensures
            self.liquidate(trader, liquidator).unwrap().0.wf(),
            self.sequence_continues(self.liquidate(trader, liquidator).unwrap().0),
    {
        let index = self.trader_index(trader);
        self.lemma_trader_index(trader);
        let cleared = self.cancel_all(index).unwrap();
        self.lemma_cancel_listed_succeeds(self.orders_of(index));
        let (after, outcome) = cleared.settle_liquidation(index, liquidator).unwrap();
        let margin = (outcome.settled_margin - outcome.reward) as u64;
        let closed = cleared.position_closed(index, margin);
        assert(cleared.is_seat(index));
        cleared.lemma_position_closed_wf(index, margin);
        closed.lemma_reward_paid_wf(liquidator, outcome.reward);
        assert(after == closed.reward_paid(liquidator, outcome.reward).unwrap());
        assert forall|b: DataIndex| #[trigger] after.is_order(b) implies cleared.is_order(b)
            && cleared.order_at(b).sequence_number == after.order_at(b).sequence_number by {
            closed.lemma_trader_index(liquidator);
            assert(closed.is_order(b));
        }
    }

    /// Closing a position keeps the invariant.
    pub proof fn lemma_position_closed_wf(self, index: DataIndex, margin: u64)
        requires
            self.wf(),
            self.is_seat(index),
        ensures
            self.position_closed(index, margin).wf(),
            self.position_closed(index, margin).is_seat(index),
            forall|trader: Seq<u8>|
                self.position_closed(index, margin).trader_index(trader) == self.trader_index(
                    trader,
                ),
    {
        let after = self.position_closed(index, margin);
        lemma_totals_bound(self.blocks, index as int);
        lemma_totals_update(self.blocks, index as int, after.blocks[index as int]);
        self.lemma_one_block_same_shape(after, index as int);
        self.lemma_same_shape_wf(after);
        assert forall|trader: Seq<u8>| after.trader_index(trader) == self.trader_index(
            trader,
        ) by {
            assert forall|b: DataIndex| #[trigger] after.is_seat(b) <==> self.is_seat(b) by {
                if b != index && b < self.blocks.len() {
                    assert(after.blocks[b as int] == self.blocks[b as int]);
                }
            }
            assert forall|b: DataIndex| #[trigger] self.is_seat(b) implies after.seat_at(b).trader@
                == self.seat_at(b).trader@ by {
                if b != index {
                    assert(after.blocks[b as int] == self.blocks[b as int]);
                }
            }
            self.lemma_trader_index(trader);
            after.lemma_trader_index(trader);
            if self.has_trader(trader) {
                let b = self.trader_index(trader);
                assert(after.is_seat(b));
            } else if after.has_trader(trader) {
                let b = after.trader_index(trader);
                assert(self.is_seat(b));
            }
        }
    }

    /// Paying the liquidator keeps the invariant.
    pub proof fn lemma_reward_paid_wf(self, liquidator: Seq<u8>, reward: u64)
        requires
            self.wf(),
            self.reward_paid(liquidator, reward) is Ok,
        ensures
            self.reward_paid(liquidator, reward).unwrap().wf(),
    {
        self.lemma_trader_index(liquidator);
        let payee = self.trader_index(liquidator);
        if reward > 0 && payee != NIL {
            let seat = self.seat_at(payee);
            self.lemma_with_seat_wf(
                payee,
                ClaimedSeat {
                    quote_withdrawable_balance: (seat.quote_withdrawable_balance + reward) as u64,
                    ..seat
                },
            );
        }
    }
}

/// Profit or loss of a position worth `value` that cost `cost_basis`.
pub fn compute_unrealized_pnl(position_size: i64, value: u64, cost_basis: u64) -> (pnl: i128)
    ensures
        pnl == unrealized_pnl(position_size as int, value as int, cost_basis as int),
{
    if position_size > 0 {
        value as i128 - cost_basis as i128
    } else {
        cost_basis as i128 - value as i128
    }
}

/// The equity that a position of the given value must keep.
pub fn compute_maintenance_requirement(value: u64, margin_bps: u64) -> (required: u128)
    ensures
        required == maintenance_requirement(value as nat, margin_bps as nat),
        required <= i128::MAX,
{
    let wide_value: u128 = value as u128;
    let wide_bps: u128 = margin_bps as u128;
    assert(wide_value * wide_bps <= u128::MAX) by (nonlinear_arith)
        requires
            wide_value <= u64::MAX,
            wide_bps <= u64::MAX,
    {}
    wide_value * wide_bps / (BPS_PER_WHOLE as u128)
}

/// The liquidator's share of a settled margin.
pub fn compute_liquidator_reward(settled_margin: u64) -> (reward: u64)
    ensures
        reward == liquidator_reward(settled_margin as nat),
        reward <= settled_margin,
{
    let share: u128 = LIQUIDATOR_REWARD_BPS as u128;
    let whole: u128 = BPS_PER_WHOLE as u128;
    let reward: u128 = settled_margin as u128 * share / whole;
    reward as u64
}

/// `amount` brought into the range of an unsigned 64-bit balance.
pub fn clamp_to_u64(amount: i128) -> (r: u64)
    ensures
        r == clamp_u64(amount as int),
{
    if amount < 0 {
        0
    } else if amount > u64::MAX as i128 {
        u64::MAX
    } else {
        amount as u64
    }
}

impl Market {
    /// The orders on one side that belong to the seat at `owner`, in book order.
    fn owned_orders(&self, is_bid: bool, owner: DataIndex) -> (found: Vec<DataIndex>)
        requires
            self.wf(),
        ensures
            found@ == self@.owned_in(self@.book(is_bid), owner),
    {
        let book: &Vec<DataIndex> = if is_bid {
            &self.bids
        } else {
            &self.asks
        };
        let mut found: Vec<DataIndex> = Vec::new();
        let mut k: usize = 0;
        while k < book.len()
            invariant
                k <= book.len(),
                book@ == self@.book(is_bid),
                self.wf(),
                found@ == self@.owned_in(book@.subrange(0, k as int), owner),
            decreases book.len() - k,
        {
            assert(self@.is_order(self@.book(is_bid)[k as int]));
            assert(book@.subrange(0, k + 1).drop_last() =~= book@.subrange(0, k as int));
            let order = self.order_in(book[k]);
            if order.trader_index == owner {
                found.push(book[k]);
            }
            k = k + 1;
        }
        assert(book@.subrange(0, k as int) =~= book@);
        found
    }

    /// Cancels every order of the seat at `owner`. On failure the market may
    /// be left with some of them cancelled.
    fn cancel_all_orders(&mut self, owner: DataIndex) -> (r: Result<(), MarketError>)
        requires
            old(self).wf(),
        ensures
            final(self).wf(),
            match old(self)@.cancel_all(owner) {
                Ok(after) => r is Ok && final(self)@ == after,
                Err(e) => r == Err::<(), MarketError>(e),
            },
    {
        let mut list: Vec<DataIndex> = self.owned_orders(true, owner);
        let asks: Vec<DataIndex> = self.owned_orders(false, owner);
        let ghost bids_part = list@;
        let mut j: usize = 0;
        while j < asks.len()
            invariant
                j <= asks.len(),
                list@ == bids_part + asks@.subrange(0, j as int),
            decreases asks.len() - j,
        {
            list.push(asks[j]);
            j = j + 1;
            assert(list@ =~= bids_part + asks@.subrange(0, j as int));
        }
        assert(asks@.subrange(0, j as int) =~= asks@);
        assert(list@ == self@.orders_of(owner));
        let mut k: usize = 0;
        assert(list@.subrange(0, list@.len() as int) =~= list@);
        while k < list.len()
            invariant
                k <= list.len(),
                self.wf(),
                self@.cancel_listed(list@.subrange(k as int, list@.len() as int)) == old(self)@.cancel_all(owner),
            decreases list.len() - k,
        {
            let ghost rest = list@.subrange(k as int, list@.len() as int);
            assert(rest[0] == list@[k as int]);
            assert(rest.drop_first() =~= list@.subrange(k + 1, list@.len() as int));
            match self.cancel_order_by_index(list[k]) {
                Ok(()) => {},
                Err(e) => {
                    return Err(e);
                },
            }
            k = k + 1;
        }
        Ok(())
    }

    /// Settles the position of the seat at `index`. On failure the market is
    /// left as it was.
    fn settle_liquidation(&mut self, index: DataIndex, liquidator: &Identity) -> (r: Result<
        Liquidation,
        MarketError,
    >)
        requires
            old(self).wf(),
            old(self)@.is_seat(index),
        ensures
            final(self).wf(),
            match old(self)@.settle_liquidation(index, liquidator@) {
                Ok((after, outcome)) => r == Ok::<Liquidation, MarketError>(outcome) && final(self)@ == after,
                Err(e) => r == Err::<Liquidation, MarketError>(e) && final(self)@ == old(self)@,
            },
    {
        let seat: ClaimedSeat = self.seat_in(index);
        let mark = match self.compute_mark_price() {
            Ok(mark) => mark,
            Err(e) => {
                return Err(e);
            },
        };
        let size: u64 = magnitude(seat.position_size);
        let value: u64 = match mark.checked_quote_for_base(size, seat.position_size < 0) {
            Ok(value) => value,
            Err(e) => {
                return Err(e);
            },
        };
        let pnl: i128 = compute_unrealized_pnl(seat.position_size, value, seat.quote_cost_basis);
        let equity: i128 = seat.quote_withdrawable_balance as i128 + pnl;
        let required: u128 = compute_maintenance_requirement(
            value,
            self.header.maintenance_margin_bps,
        );
        if equity >= required as i128 {
            return Err(MarketError::NotLiquidatable);
        }
        if equity > u64::MAX as i128 {
            return Err(MarketError::Overflow);
        }
        let settled_margin: u64 = clamp_to_u64(equity);
        let reward: u64 = compute_liquidator_reward(settled_margin);
        let saved: MarketHeader = self.header;
        let ghost closed = self@.position_closed(index, (settled_margin - reward) as u64);
        proof {
            lemma_totals_bound(self@.blocks, index as int);
            self@.lemma_position_closed_wf(index, (settled_margin - reward) as u64);
            if closed.reward_paid(liquidator@, reward) is Ok {
                closed.lemma_reward_paid_wf(liquidator@, reward);
            }
        }
        self.blocks.set(
            index as usize,
            Block::Seat(
                ClaimedSeat {
                    quote_withdrawable_balance: settled_margin - reward,
                    position_size: 0,
                    quote_cost_basis: 0,
                    ..seat
                },
            ),
        );
        if seat.position_size > 0 {
            self.header.total_long_base_atoms = self.header.total_long_base_atoms - size;
        } else {
            self.header.total_short_base_atoms = self.header.total_short_base_atoms - size;
        }
        assert(self@ == closed);
        if reward > 0 {
            let payee: DataIndex = self.get_trader_index(liquidator);
            if payee != NIL {
                let payee_seat: ClaimedSeat = self.seat_in(payee);
                if payee_seat.quote_withdrawable_balance > u64::MAX - reward {
                    self.blocks.set(index as usize, Block::Seat(seat));
                    self.header = saved;
                    assert(self@.blocks =~= old(self)@.blocks);
                    assert(self@ == old(self)@);
                    return Err(MarketError::Overflow);
                }
                self.blocks.set(
                    payee as usize,
                    Block::Seat(
                        ClaimedSeat {
                            quote_withdrawable_balance: payee_seat.quote_withdrawable_balance
                                + reward,
                            ..payee_seat
                        },
                    ),
                );
            }
        }
        Ok(
            Liquidation {
                position_size: seat.position_size,
                settlement_value: value,
                pnl,
                settled_margin,
                reward,
            },
        )
    }

    /// Liquidates the position of `trader` and pays the reward to `liquidator`.
    ///
    /// Fails with `NotFound` when the trader has no seat; with
    /// `NotLiquidatable` when the seat has no position, or its equity after
    /// all its orders are cancelled is at least the maintenance requirement;
    /// with `InvalidOracle` when there is no mark price; and with `Overflow`
    /// when returned funds, the position's value, the equity or the
    /// liquidator's margin with the reward exceed 64 bits. A failed
    /// liquidation cancels nothing.
    pub fn liquidate(&mut self, trader: &Identity, liquidator: &Identity) -> (r: Result<
        Liquidation,
        MarketError,
    >)
        requires
            old(self).wf(),
        ensures
            final(self).wf(),
            match old(self)@.liquidate(trader@, liquidator@) {
                Ok((after, outcome)) => r == Ok::<Liquidation, MarketError>(outcome) && final(self)@ == after,
                Err(e) => r == Err::<Liquidation, MarketError>(e) && final(self)@ == old(self)@,
            },
    {
        let index: DataIndex = self.get_trader_index(trader);
        if index == NIL {
            return Err(MarketError::NotFound);
        }
        let seat: ClaimedSeat = self.seat_in(index);
        if seat.position_size == 0 {
            return Err(MarketError::NotLiquidatable);
        }
        let backup: Market = self.duplicate();
        match self.cancel_all_orders(index) {
            Ok(()) => {},
            Err(e) => {
                *self = backup;
                return Err(e);
            },
        }
        proof {
            old(self)@.lemma_cancel_listed_keeps_seats(old(self)@.orders_of(index));
        }
        match self.settle_liquidation(index, liquidator) {
            Ok(outcome) => Ok(outcome),
            Err(e) => {
                *self = backup;
                Err(e)
            },
        }
    }

    /// Liquidates the position of the trader that `params` names, on behalf
    /// of the holder of `liquidator`.
    ///
    /// The keys are read as identities; everything else is `liquidate`.
    pub fn process_liquidate(&mut self, liquidator: &Pubkey, params: &LiquidateParams) -> (r:
        Result<Liquidation, MarketError>)
        requires
            old(self).wf(),
        ensures
            final(self).wf(),
            match old(self)@.liquidate(
                pubkey_bytes(params.trader_to_liquidate),
                pubkey_bytes(*liquidator),
            ) {
                Ok((after, outcome)) => r == Ok::<Liquidation, MarketError>(outcome) && final(self)@ == after,
                Err(e) => r == Err::<Liquidation, MarketError>(e) && final(self)@ == old(self)@,
            },
    {
        let trader: Identity = identity_of(&params.trader_to_liquidate);
        let payee: Identity = identity_of(liquidator);
        self.liquidate(&trader, &payee)
    }
}

} // verus!
