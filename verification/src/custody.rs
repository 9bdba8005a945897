//! What the market holds for its traders.
//!
//! Every atom in the market's custody is either withdrawable by a seat or
//! held back by a resting order. Deposits add to the custody and withdrawals
//! take from it; posting and cancelling orders only move atoms between the
//! two forms. A vault that receives each deposit and pays each withdrawal
//! therefore always holds what the market owes.
//!
//! Trading moves atoms between seats and orders as well; a global maker
//! brings in what it delivers from its reservation. So an order that a seat
//! places leaves the sum of custody and reservations as it was, and a swap
//! changes that sum by what the taker brings in and takes out.
//!
//! A liquidation settles a position in quote atoms: the base in custody
//! stays, and the quote in custody changes by what the trader's margin gains
//! or loses in the settlement. A funding crank moves quote between margins
//! and leaves the base in custody and every order as it was.

use vstd::prelude::*;
use hypertree::DataIndex;
use crate::batch::{CancelOrderParams, PlaceOrderParams};
use crate::book::prices_cross;
use crate::global::{deposit_position, deposited, withdrawn, GlobalAccountsView, GlobalDeposit};
use crate::liquidate::clamp_u64;
use crate::matching::{Budget, Fill, MatchStep, MatchSummary, TakerTerms};
use crate::orders::{order_terms, swap_budget, swap_terms, PlaceOutcome};
use crate::price::{
    lemma_div_round_small, lemma_pow10_positive, lemma_quote_monotonic, pow10, Price,
};
use crate::state::{Block, ClaimedSeat, Identity, MarketView, OrderType, RestingOrder, NIL};

verus! {

/// Base atoms that a block accounts for.
pub open spec fn base_in(block: Block) -> nat {
    match block {
        Block::Seat(seat) => seat.base_withdrawable_balance as nat,
        Block::Order(order) => order.locked_base(),
        Block::Free { .. } => 0,
    }
}

/// Quote atoms that a block accounts for.
pub open spec fn quote_in(block: Block) -> nat {
    match block {
        Block::Seat(seat) => seat.quote_withdrawable_balance as nat,
        Block::Order(order) => order.locked_quote(),
        Block::Free { .. } => 0,
    }
}

/// Base atoms in custody: withdrawable by seats or held back by asks.
pub open spec fn base_held(blocks: Seq<Block>) -> nat
    decreases blocks.len(),
{
    if blocks.len() == 0 {
        0
    } else {
        base_held(blocks.drop_last()) + base_in(blocks.last())
    }
}

/// Quote atoms in custody: withdrawable by seats or held back by bids.
pub open spec fn quote_held(blocks: Seq<Block>) -> nat
    decreases blocks.len(),
{
    if blocks.len() == 0 {
        0
    } else {
        quote_held(blocks.drop_last()) + quote_in(blocks.last())
    }
}

/// Replacing one block changes the custody by the difference of what the
/// two blocks account for.
pub proof fn lemma_held_update(blocks: Seq<Block>, at: int, block: Block)
    requires
        0 <= at < blocks.len(),
    ensures
        base_held(blocks.update(at, block)) == base_held(blocks) - base_in(blocks[at]) + base_in(
            block,
        ),
        quote_held(blocks.update(at, block)) == quote_held(blocks) - quote_in(blocks[at])
            + quote_in(block),
    decreases blocks.len(),
{
    let updated = blocks.update(at, block);
    if at == blocks.len() - 1 {
        assert(updated.drop_last() =~= blocks.drop_last());
    } else {
        assert(updated.drop_last() =~= blocks.drop_last().update(at, block));
        lemma_held_update(blocks.drop_last(), at, block);
    }
}

/// Pools whose blocks account for the same base atoms hold the same base atoms.
pub proof fn lemma_base_held_alike(one: Seq<Block>, other: Seq<Block>)
    requires
        one.len() == other.len(),
        forall|i: int| 0 <= i < one.len() ==> base_in(#[trigger] one[i]) == base_in(other[i]),
    ensures
        base_held(one) == base_held(other),
    decreases one.len(),
{
    if one.len() > 0 {
        assert forall|i: int| 0 <= i < one.drop_last().len() implies base_in(
            #[trigger] one.drop_last()[i],
        ) == base_in(other.drop_last()[i]) by {
            assert(one.drop_last()[i] == one[i]);
            assert(other.drop_last()[i] == other[i]);
        }
        lemma_base_held_alike(one.drop_last(), other.drop_last());
        assert(one.last() == one[one.len() - 1]);
        assert(other.last() == other[other.len() - 1]);
    }
}

/// Appending a block adds what it accounts for.
pub proof fn lemma_held_push(blocks: Seq<Block>, block: Block)
    ensures
        base_held(blocks.push(block)) == base_held(blocks) + base_in(block),
        quote_held(blocks.push(block)) == quote_held(blocks) + quote_in(block),
{
    assert(blocks.push(block).drop_last() =~= blocks);
}

impl MarketView {
    /// Growing the pool adds nothing to the custody.
    pub proof fn theorem_expand_conserves(self, count: nat)
        ensures
            base_held(self.expanded(count).blocks) == base_held(self.blocks),
            quote_held(self.expanded(count).blocks) == quote_held(self.blocks),
        decreases count,
    {
        if count > 0 {
            let before = self.expanded((count - 1) as nat);
            before.theorem_expand_conserves((count - 1) as nat);
            self.theorem_expand_conserves((count - 1) as nat);
            lemma_held_push(before.blocks, Block::Free { next: before.header.free_list_head });
        }
    }

    /// A new seat adds nothing to the custody.
    pub proof fn theorem_claim_seat_conserves(self, trader: Identity)
        requires
            self.wf(),
            self.claim_seat(trader) is Ok,
        ensures
            base_held(self.claim_seat(trader).unwrap().blocks) == base_held(self.blocks),
            quote_held(self.claim_seat(trader).unwrap().blocks) == quote_held(self.blocks),
    {
        let index = self.free[0];
        assert(self.is_free(index));
        lemma_held_update(
            self.blocks,
            index as int,
            self.claim_seat(trader).unwrap().blocks[index as int],
        );
    }

    /// A deposit adds its amount to the custody of its asset and nothing to
    /// the other.
    pub proof fn theorem_deposit_adds(self, index: DataIndex, is_base: bool, amount: u64)
        requires
            self.deposit(index, is_base, amount) is Ok,
        ensures
            base_held(self.deposit(index, is_base, amount).unwrap().blocks) == base_held(
                self.blocks,
            ) + if is_base {
                amount as nat
            } else {
                0
            },
            quote_held(self.deposit(index, is_base, amount).unwrap().blocks) == quote_held(
                self.blocks,
            ) + if is_base {
                0
            } else {
                amount as nat
            },
    {
        lemma_held_update(
            self.blocks,
            index as int,
            self.deposit(index, is_base, amount).unwrap().blocks[index as int],
        );
    }

    /// A withdrawal takes its amount from the custody of its asset and
    /// nothing from the other.
    pub proof fn theorem_withdraw_takes(self, index: DataIndex, is_base: bool, amount: u64)
        requires
            self.withdraw(index, is_base, amount) is Ok,
        ensures
            base_held(self.withdraw(index, is_base, amount).unwrap().blocks) == base_held(
                self.blocks,
            ) - if is_base {
                amount as nat
            } else {
                0
            },
            quote_held(self.withdraw(index, is_base, amount).unwrap().blocks) == quote_held(
                self.blocks,
            ) - if is_base {
                0
            } else {
                amount as nat
            },
    {
        lemma_held_update(
            self.blocks,
            index as int,
            self.withdraw(index, is_base, amount).unwrap().blocks[index as int],
        );
    }

    /// Posting an order moves atoms from the seat to the order and leaves
    /// the custody as it was.
    pub proof fn theorem_post_order_conserves(
        self,
        trader_index: DataIndex,
        is_bid: bool,
        num_base_atoms: u64,
        price: Price,
        order_type: OrderType,
        last_valid_slot: u32,
        reverse_spread: u32,
        current_slot: u32,
    )
        requires
            self.wf(),
            self.post_order(
                trader_index,
                is_bid,
                num_base_atoms,
                price,
                order_type,
                last_valid_slot,
                reverse_spread,
                current_slot,
            ) is Ok,
        ensures
            base_held(
                self.post_order(
                    trader_index,
                    is_bid,
                    num_base_atoms,
                    price,
                    order_type,
                    last_valid_slot,
                    reverse_spread,
                    current_slot,
                ).unwrap().blocks,
            ) == base_held(self.blocks),
            quote_held(
                self.post_order(
                    trader_index,
                    is_bid,
                    num_base_atoms,
                    price,
                    order_type,
                    last_valid_slot,
                    reverse_spread,
                    current_slot,
                ).unwrap().blocks,
            ) == quote_held(self.blocks),
    {
        let posted = self.post_order(
            trader_index,
            is_bid,
            num_base_atoms,
            price,
            order_type,
            last_valid_slot,
            reverse_spread,
            current_slot,
        ).unwrap();
        let index = self.free[0];
        assert(self.is_free(index));
        let funded = self.blocks.update(trader_index as int, posted.blocks[trader_index as int]);
        lemma_held_update(self.blocks, trader_index as int, posted.blocks[trader_index as int]);
        lemma_held_update(funded, index as int, posted.blocks[index as int]);
        assert(posted.blocks =~= funded.update(index as int, posted.blocks[index as int]));
    }

    /// Cancelling an order moves atoms from the order back to its seat and
    /// leaves the custody as it was.
    pub proof fn theorem_cancel_conserves(self, index: DataIndex)
        requires
            self.wf(),
            self.cancel_order_by_index(index) is Ok,
        ensures
            base_held(self.cancel_order_by_index(index).unwrap().blocks) == base_held(self.blocks),
            quote_held(self.cancel_order_by_index(index).unwrap().blocks) == quote_held(
                self.blocks,
            ),
    {
        let cancelled = self.cancel_order_by_index(index).unwrap();
        let owner = self.order_at(index).trader_index;
        assert(self.is_seat(owner));
        let refunded = self.blocks.update(owner as int, cancelled.blocks[owner as int]);
        lemma_held_update(self.blocks, owner as int, cancelled.blocks[owner as int]);
        lemma_held_update(refunded, index as int, cancelled.blocks[index as int]);
        assert(cancelled.blocks =~= refunded.update(index as int, cancelled.blocks[index as int]));
    }
}

impl MarketView {
    /// A run of cancellations by index leaves the custody as it was.
    pub proof fn lemma_cancel_listed_conserves(self, list: Seq<DataIndex>)
        requires
            self.wf(),
            self.cancel_listed(list) is Ok,
        ensures
            base_held(self.cancel_listed(list).unwrap().blocks) == base_held(self.blocks),
            quote_held(self.cancel_listed(list).unwrap().blocks) == quote_held(self.blocks),
        decreases list.len(),
    {
        if list.len() > 0 {
            let after = self.cancel_order_by_index(list[0]).unwrap();
            self.theorem_cancel_conserves(list[0]);
            self.lemma_cancel_succeeds(list[0]);
            after.lemma_cancel_listed_conserves(list.drop_first());
        }
    }

    /// A funding crank leaves the base in custody as it was, and every order
    /// with it: funding moves quote between margins and nothing else.
    pub proof fn theorem_crank_funding_keeps_base(self, oracle: Seq<u8>, now: i64)
        requires
            self.crank_funding(oracle, now) is Ok,
        ensures
            ({
                let after = self.crank_funding(oracle, now).unwrap().0;
                &&& base_held(after.blocks) == base_held(self.blocks)
                &&& after.bids == self.bids
                &&& after.asks == self.asks
                &&& forall|b: DataIndex| #[trigger]
                    after.is_order(b) <==> self.is_order(b)
                &&& forall|b: DataIndex| #[trigger]
                    self.is_order(b) ==> after.order_at(b) == self.order_at(b)
            }),
    {
        let after = self.crank_funding(oracle, now).unwrap().0;
        assert(after.blocks.len() == self.blocks.len());
        assert forall|i: int| 0 <= i < self.blocks.len() implies base_in(
            #[trigger] self.blocks[i],
        ) == base_in(after.blocks[i]) by {}
        lemma_base_held_alike(self.blocks, after.blocks);
    }

    /// A liquidation leaves the base in custody as it was. Of the quote in
    /// custody only the trader's margin changes hands. Once the trader's
    /// orders are cancelled the margin is all the quote that the market held
    /// for the trader; it becomes the settled margin, which is that margin
    /// with the profit or loss, or nothing where the loss is greater. The
    /// reward is part of the settled margin and goes to the liquidator's
    /// seat; it leaves the custody when the liquidator has no seat. So a
    /// position that settles at a loss never adds to the custody.
    pub proof fn theorem_liquidate_settles_in_quote(self, trader: Seq<u8>, liquidator: Seq<u8>)
        requires
            self.wf(),
            self.liquidate(trader, liquidator) is Ok,
        ensures
            ({
                let (after, outcome) = self.liquidate(trader, liquidator).unwrap();
                let index = self.trader_index(trader);
                let margin = self.cancel_all(index).unwrap().seat_at(
                    index,
                ).quote_withdrawable_balance;
                let unpaid = if self.has_trader(liquidator) {
                    0
                } else {
                    outcome.reward as int
                };
                &&& base_held(after.blocks) == base_held(self.blocks)
                &&& margin == self.quote_holdings(index)
                &&& outcome.settled_margin == clamp_u64(margin + outcome.pnl)
                &&& outcome.reward <= outcome.settled_margin
                &&& quote_held(after.blocks) == quote_held(self.blocks) - margin
                    + outcome.settled_margin - unpaid
                &&& outcome.pnl <= 0 ==> quote_held(after.blocks) <= quote_held(self.blocks)
            }),
    {
        let index = self.trader_index(trader);
        self.lemma_trader_index(trader);
        let cleared = self.cancel_all(index).unwrap();
        self.lemma_cancel_listed_conserves(self.orders_of(index));
        self.lemma_cancel_listed_keeps_seats(self.orders_of(index));
        self.theorem_cancel_all_returns_holdings(index);
        assert(cleared.is_seat(index));
        let (after, outcome) = cleared.settle_liquidation(index, liquidator).unwrap();
        let left = (outcome.settled_margin - outcome.reward) as u64;
        let closed = cleared.position_closed(index, left);
        cleared.lemma_position_closed_wf(index, left);
        lemma_held_update(cleared.blocks, index as int, closed.blocks[index as int]);
        assert(closed.blocks =~= cleared.blocks.update(index as int, closed.blocks[index as int]));
        closed.lemma_trader_index(liquidator);
        cleared.lemma_trader_index(liquidator);
        let payee = closed.trader_index(liquidator);
        if self.has_trader(liquidator) {
            let b = choose|b: DataIndex| self.is_seat(b) && self.seat_at(b).trader@ == liquidator;
            assert(cleared.is_seat(b) && cleared.seat_at(b).trader@ == liquidator);
            assert(cleared.has_trader(liquidator));
        } else if cleared.has_trader(liquidator) {
            let b = choose|b: DataIndex|
                cleared.is_seat(b) && cleared.seat_at(b).trader@ == liquidator;
            assert(self.is_seat(b) && self.seat_at(b).trader@ == liquidator);
        }
        if outcome.reward > 0 && payee != NIL {
            lemma_held_update(closed.blocks, payee as int, after.blocks[payee as int]);
            assert(after.blocks =~= closed.blocks.update(payee as int, after.blocks[payee as int]));
        }
    }
}

/// Atoms that an account holds in all its deposits.
pub open spec fn reserved(deposits: Seq<GlobalDeposit>) -> nat
    decreases deposits.len(),
{
    if deposits.len() == 0 {
        0
    } else {
        reserved(deposits.drop_last()) + deposits.last().atoms as nat
    }
}

/// Replacing one deposit changes what the account holds by the difference
/// of the two.
pub proof fn lemma_reserved_update(deposits: Seq<GlobalDeposit>, at: int, deposit: GlobalDeposit)
    requires
        0 <= at < deposits.len(),
    ensures
        reserved(deposits.update(at, deposit)) == reserved(deposits) - deposits[at].atoms
            + deposit.atoms,
    decreases deposits.len(),
{
    let updated = deposits.update(at, deposit);
    if at == deposits.len() - 1 {
        assert(updated.drop_last() =~= deposits.drop_last());
    } else {
        assert(updated.drop_last() =~= deposits.drop_last().update(at, deposit));
        lemma_reserved_update(deposits.drop_last(), at, deposit);
    }
}

/// The first deposit of a trader lies in the account or right behind it.
pub proof fn lemma_deposit_position(deposits: Seq<GlobalDeposit>, trader: Seq<u8>, from: int)
    requires
        0 <= from <= deposits.len(),
    ensures
        from <= deposit_position(deposits, trader, from) <= deposits.len(),
    decreases deposits.len() - from,
{
    if from < deposits.len() && deposits[from].trader@ != trader {
        lemma_deposit_position(deposits, trader, from + 1);
    }
}

impl GlobalAccountsView {
    /// Atoms of one asset that the accounts hold in all.
    pub open spec fn reserved(self, is_base: bool) -> nat {
        match self.account(is_base) {
            Some(deposits) => reserved(deposits),
            None => 0,
        }
    }

    /// Taking atoms that a trader has takes as many from what the accounts
    /// hold of that asset, and nothing of the other.
    pub proof fn lemma_debited(self, is_base: bool, trader: Seq<u8>, atoms: nat)
        requires
            atoms <= self.backing(is_base, trader),
        ensures
            self.debited(is_base, trader, atoms).reserved(is_base) == self.reserved(is_base)
                - atoms,
            self.debited(is_base, trader, atoms).reserved(!is_base) == self.reserved(!is_base),
    {
        match self.account(is_base) {
            Some(deposits) => {
                lemma_deposit_position(deposits, trader, 0);
                let at = deposit_position(deposits, trader, 0);
                if at < deposits.len() {
                    lemma_reserved_update(
                        deposits,
                        at,
                        GlobalDeposit { atoms: (deposits[at].atoms - atoms) as u64, ..deposits[at] },
                    );
                }
            },
            None => {},
        }
    }
}

/// Base atoms in custody or reserved for global orders.
pub open spec fn base_total(market: MarketView, globals: GlobalAccountsView) -> int {
    (base_held(market.blocks) + globals.reserved(true)) as int
}

/// Quote atoms in custody or reserved for global orders.
pub open spec fn quote_total(market: MarketView, globals: GlobalAccountsView) -> int {
    (quote_held(market.blocks) + globals.reserved(false)) as int
}

/// Base atoms that a taker has given the market on balance.
pub open spec fn base_given(taker_is_bid: bool, summary: MatchSummary) -> int {
    if taker_is_bid {
        -summary.base_atoms
    } else {
        summary.base_atoms as int
    }
}

/// Quote atoms that a taker has given the market on balance.
pub open spec fn quote_given(taker_is_bid: bool, summary: MatchSummary) -> int {
    if taker_is_bid {
        summary.quote_atoms as int
    } else {
        -summary.quote_atoms
    }
}

impl MarketView {
    /// What a reverse maker posts again stays in custody.
    pub proof fn lemma_flipped_conserves(self, maker: RestingOrder, base_atoms: nat)
        requires
            self.wf(),
            self.is_seat(maker.trader_index),
        ensures
            base_held(self.flipped(maker, base_atoms).blocks) == base_held(self.blocks),
            quote_held(self.flipped(maker, base_atoms).blocks) == quote_held(self.blocks),
    {
        match self.flip_order(maker, base_atoms) {
            Some(order) => {
                if self.can_flip(order) {
                    let after = self.flipped(maker, base_atoms);
                    let index = self.free[0];
                    assert(self.is_free(index));
                    let owner = order.trader_index;
                    let funded = self.blocks.update(owner as int, after.blocks[owner as int]);
                    lemma_held_update(self.blocks, owner as int, after.blocks[owner as int]);
                    lemma_held_update(funded, index as int, after.blocks[index as int]);
                    assert(after.blocks =~= funded.update(index as int, after.blocks[index as int]));
                }
            },
            None => {},
        }
    }

    /// A fill takes from the sum of custody and reservations what the maker
    /// delivers, and adds to it what the maker receives.
    pub proof fn lemma_trade_conserves(
        self,
        index: DataIndex,
        base_atoms: nat,
        quote_atoms: nat,
        budget: Budget,
        globals: GlobalAccountsView,
    )
        requires
            self.wf(),
            self.is_order(index),
            0 < base_atoms <= self.order_at(index).num_base_atoms,
            self.order_at(index).locked_quote() <= u64::MAX,
            self.order_at(index).is_bid && self.order_at(index).order_type != OrderType::Global
                ==> quote_atoms <= self.order_at(index).locked_quote() - self.order_at(index).less(
                base_atoms,
            ).locked_quote() + self.seat_at(
                self.order_at(index).trader_index,
            ).quote_withdrawable_balance,
            self.order_at(index).order_type == OrderType::Global ==> globals.backing(
                !self.order_at(index).is_bid,
                self.seat_at(self.order_at(index).trader_index).trader@,
            ) >= if self.order_at(index).is_bid {
                quote_atoms
            } else {
                base_atoms
            },
        ensures
            match self.trade(index, base_atoms, quote_atoms, budget, globals) {
                MatchStep::Traded { market, globals: accounts, fill, remaining } => {
                    &&& base_total(market, accounts) == base_total(self, globals) + if self.order_at(
                        index,
                    ).is_bid {
                        base_atoms as int
                    } else {
                        -base_atoms
                    }
                    &&& quote_total(market, accounts) == quote_total(self, globals)
                        + if self.order_at(index).is_bid {
                        -quote_atoms
                    } else {
                        quote_atoms as int
                    }
                },
                _ => true,
            },
    {
        let maker = self.order_at(index);
        let owner = maker.trader_index;
        let seat = self.seat_at(owner);
        assert(self.is_seat(owner));
        lemma_quote_monotonic(
            maker.price,
            (maker.num_base_atoms - base_atoms) as nat,
            maker.num_base_atoms as nat,
            true,
        );
        match self.trade(index, base_atoms, quote_atoms, budget, globals) {
            MatchStep::Traded { market, globals: accounts, fill, remaining } => {
                let (base, quote) = self.maker_seat_after(maker, base_atoms, quote_atoms);
                let credited = self.with_seat(
                    owner,
                    ClaimedSeat {
                        base_withdrawable_balance: base as u64,
                        quote_withdrawable_balance: quote as u64,
                        ..seat
                    },
                );
                lemma_held_update(self.blocks, owner as int, credited.blocks[owner as int]);
                self.lemma_with_seat_wf(owner, credited.seat_at(owner));
                let filled = if base_atoms == maker.num_base_atoms {
                    credited.order_removed(index)
                } else {
                    credited.with_order(index, maker.less(base_atoms))
                };
                assert(credited.blocks[index as int] == Block::Order(maker));
                lemma_held_update(credited.blocks, index as int, filled.blocks[index as int]);
                if base_atoms == maker.num_base_atoms {
                    assert(maker.less(base_atoms).num_base_atoms == 0);
                    assert(maker.price.mantissa as nat * 0 == 0);
                    lemma_pow10_positive((-maker.price.exponent) as nat);
                    if maker.price.exponent < 0 {
                        lemma_div_round_small(
                            0,
                            pow10((-maker.price.exponent) as nat),
                            true,
                        );
                    }
                    assert(maker.price.quote_for_base(0, true) == 0) by (nonlinear_arith)
                        requires
                            maker.price.quote_for_base(0, true) == if maker.price.exponent >= 0 {
                                (maker.price.mantissa as nat * 0) * pow10(
                                    maker.price.exponent as nat,
                                )
                            } else {
                                0
                            },
                    {}
                    credited.lemma_order_removed_wf(index);
                } else {
                    credited.lemma_with_order_wf(index, maker.less(base_atoms));
                }
                if maker.order_type == OrderType::Reverse {
                    assert(filled.is_seat(owner));
                    filled.lemma_flipped_conserves(maker, base_atoms);
                }
                if maker.order_type == OrderType::Global {
                    globals.lemma_debited(
                        !maker.is_bid,
                        seat.trader@,
                        if maker.is_bid {
                            quote_atoms
                        } else {
                            base_atoms
                        },
                    );
                }
            },
            _ => {},
        }
    }

    /// Taking an order out of its book takes out of custody what the order
    /// held back.
    pub proof fn lemma_order_removed_held(self, index: DataIndex)
        requires
            self.is_order(index),
        ensures
            base_held(self.order_removed(index).blocks) == base_held(self.blocks)
                - self.order_at(index).locked_base(),
            quote_held(self.order_removed(index).blocks) == quote_held(self.blocks)
                - self.order_at(index).locked_quote(),
    {
        lemma_held_update(
            self.blocks,
            index as int,
            Block::Free { next: self.header.free_list_head },
        );
    }

    /// A step of the walk changes the sum of custody and reservations by
    /// what its fill moves, and by nothing when it fills nobody.
    pub proof fn lemma_match_step_conserves(
        self,
        taker: TakerTerms,
        budget: Budget,
        globals: GlobalAccountsView,
        current_slot: u32,
    )
        requires
            self.wf(),
        ensures
            match self.match_step(taker, budget, globals, current_slot) {
                MatchStep::Removed(market) => base_total(market, globals) == base_total(
                    self,
                    globals,
                ) && quote_total(market, globals) == quote_total(self, globals),
                MatchStep::Traded { market, globals: accounts, fill, remaining } => {
                    &&& base_total(market, accounts) == base_total(self, globals) + if taker.is_bid {
                        -fill.base_atoms
                    } else {
                        fill.base_atoms as int
                    }
                    &&& quote_total(market, accounts) == quote_total(self, globals)
                        + if taker.is_bid {
                        fill.quote_atoms as int
                    } else {
                        -fill.quote_atoms
                    }
                },
                _ => true,
            },
    {
        let book = self.book(!taker.is_bid);
        if book.len() > 0 {
            let index = book[0];
            assert(self.is_order(index));
            let maker = self.order_at(index);
            let base_atoms = budget.wanted_base(maker);
            let quote_atoms = self.fill_quote(taker, budget, maker);
            if maker.expired_at(current_slot) {
                if self.cancel_order_by_index(index) is Ok {
                    self.theorem_cancel_conserves(index);
                }
            } else if taker.has_limit && !prices_cross(
                taker.is_bid,
                taker.limit,
                maker.price,
            ) {
            } else if maker.locked_quote() > u64::MAX {
            } else if base_atoms == 0 || quote_atoms == 0 {
            } else if maker.order_type == OrderType::Global && globals.backing(
                !maker.is_bid,
                self.seat_at(maker.trader_index).trader@,
            ) < if maker.is_bid {
                quote_atoms
            } else {
                base_atoms
            } {
                self.lemma_order_removed_held(index);
            } else if maker.order_type == OrderType::Reverse && base_atoms < maker.num_base_atoms
                && self.free.len() == 0 {
            } else {
                lemma_quote_monotonic(
                    maker.price,
                    (maker.num_base_atoms - base_atoms) as nat,
                    maker.num_base_atoms as nat,
                    true,
                );
                self.lemma_trade_conserves(index, base_atoms, quote_atoms, budget, globals);
                self.lemma_trade(index, base_atoms, quote_atoms, budget, globals);
            }
        }
    }

    /// A walk changes the sum of custody and reservations by what the taker
    /// gives and takes.
    pub proof fn lemma_match_conserves(
        self,
        taker: TakerTerms,
        globals: GlobalAccountsView,
        current_slot: u32,
        so_far: MatchSummary,
        fills: Seq<Fill>,
    )
        requires
            self.wf(),
        ensures
            match self.match_from(taker, globals, current_slot, so_far, fills) {
                Ok((market, accounts, summary, all)) => {
                    &&& base_total(market, accounts) - base_given(taker.is_bid, summary)
                        == base_total(self, globals) - base_given(taker.is_bid, so_far)
                    &&& quote_total(market, accounts) - quote_given(taker.is_bid, summary)
                        == quote_total(self, globals) - quote_given(taker.is_bid, so_far)
                },
                Err(_) => true,
            },
        decreases self.book(!taker.is_bid).len(),
    {
        self.lemma_match_step(taker, so_far.remaining, globals, current_slot);
        self.lemma_match_step_conserves(taker, so_far.remaining, globals, current_slot);
        match self.match_step(taker, so_far.remaining, globals, current_slot) {
            MatchStep::Removed(market) => {
                market.lemma_match_conserves(taker, globals, current_slot, so_far, fills);
            },
            MatchStep::Traded { market, globals: accounts, fill, remaining } => {
                if !(so_far.base_atoms + fill.base_atoms > u64::MAX || so_far.quote_atoms
                    + fill.quote_atoms > u64::MAX) {
                    let summed = MatchSummary {
                        base_atoms: (so_far.base_atoms + fill.base_atoms) as u64,
                        quote_atoms: (so_far.quote_atoms + fill.quote_atoms) as u64,
                        remaining,
                        out_of_blocks: false,
                    };
                    if market.book(!taker.is_bid).len() < self.book(!taker.is_bid).len() {
                        market.lemma_match_conserves(
                            taker,
                            accounts,
                            current_slot,
                            summed,
                            fills.push(fill),
                        );
                    }
                }
            },
            _ => {},
        }
    }

    /// An order that a seat places leaves the sum of custody and
    /// reservations as it was: what the seat pays, the makers receive, and
    /// what it receives, the makers or their reservations give up.
    pub proof fn theorem_place_order_conserves(
        self,
        trader_index: DataIndex,
        is_bid: bool,
        num_base_atoms: u64,
        price: Price,
        order_type: OrderType,
        last_valid_slot: u32,
        reverse_spread: u32,
        globals: GlobalAccountsView,
        current_slot: u32,
    )
        requires
            self.wf(),
            self.place_order(
                trader_index,
                is_bid,
                num_base_atoms,
                price,
                order_type,
                last_valid_slot,
                reverse_spread,
                globals,
                current_slot,
            ) is Ok,
        ensures
            base_total(
                self.place_order(
                    trader_index,
                    is_bid,
                    num_base_atoms,
                    price,
                    order_type,
                    last_valid_slot,
                    reverse_spread,
                    globals,
                    current_slot,
                ).unwrap().0,
                self.place_order(
                    trader_index,
                    is_bid,
                    num_base_atoms,
                    price,
                    order_type,
                    last_valid_slot,
                    reverse_spread,
                    globals,
                    current_slot,
                ).unwrap().1,
            ) == base_total(self, globals),
            quote_total(
                self.place_order(
                    trader_index,
                    is_bid,
                    num_base_atoms,
                    price,
                    order_type,
                    last_valid_slot,
                    reverse_spread,
                    globals,
                    current_slot,
                ).unwrap().0,
                self.place_order(
                    trader_index,
                    is_bid,
                    num_base_atoms,
                    price,
                    order_type,
                    last_valid_slot,
                    reverse_spread,
                    globals,
                    current_slot,
                ).unwrap().1,
            ) == quote_total(self, globals),
    {
        if order_type == OrderType::PostOnly {
            self.theorem_post_order_conserves(
                trader_index,
                is_bid,
                num_base_atoms,
                price,
                order_type,
                last_valid_slot,
                reverse_spread,
                current_slot,
            );
        } else {
            let start = MatchSummary {
                base_atoms: 0,
                quote_atoms: 0,
                remaining: Budget::Base(num_base_atoms),
                out_of_blocks: false,
            };
            self.lemma_match_from(
                order_terms(is_bid, price),
                globals,
                current_slot,
                start,
                Seq::empty(),
            );
            self.lemma_match_conserves(
                order_terms(is_bid, price),
                globals,
                current_slot,
                start,
                Seq::empty(),
            );
            let (matched, accounts, summary, fills) = self.matched(
                order_terms(is_bid, price),
                Budget::Base(num_base_atoms),
                globals,
                current_slot,
            ).unwrap();
            let settled = matched.taker_settled(
                trader_index,
                is_bid,
                summary.base_atoms,
                summary.quote_atoms,
            ).unwrap();
            assert(matched.is_seat(trader_index));
            lemma_held_update(
                matched.blocks,
                trader_index as int,
                settled.blocks[trader_index as int],
            );
            matched.lemma_with_seat_wf(trader_index, settled.seat_at(trader_index));
            let left = (num_base_atoms - summary.base_atoms) as u64;
            if settled.residue_rests(is_bid, left, price, order_type, summary.out_of_blocks) {
                settled.theorem_post_order_conserves(
                    trader_index,
                    is_bid,
                    left,
                    price,
                    order_type,
                    last_valid_slot,
                    reverse_spread,
                    current_slot,
                );
            }
        }
    }

    /// A swap adds to the sum of custody and reservations what the taker
    /// brings in, and takes from it what the taker is owed.
    pub proof fn theorem_swap_conserves(
        self,
        amount_in: u64,
        amount_out: u64,
        is_base_in: bool,
        is_exact_in: bool,
        globals: GlobalAccountsView,
        current_slot: u32,
    )
        requires
            self.wf(),
            self.swap(amount_in, amount_out, is_base_in, is_exact_in, globals, current_slot) is Ok,
        ensures
            ({
                let (market, accounts, outcome, fills) = self.swap(
                    amount_in,
                    amount_out,
                    is_base_in,
                    is_exact_in,
                    globals,
                    current_slot,
                ).unwrap();
                &&& base_total(market, accounts) == base_total(self, globals) + if is_base_in {
                    outcome.atoms_in as int
                } else {
                    -outcome.atoms_out
                }
                &&& quote_total(market, accounts) == quote_total(self, globals) + if is_base_in {
                    -outcome.atoms_out
                } else {
                    outcome.atoms_in as int
                }
            }),
    {
        self.lemma_match_conserves(
            swap_terms(is_base_in),
            globals,
            current_slot,
            MatchSummary {
                base_atoms: 0,
                quote_atoms: 0,
                remaining: swap_budget(amount_in, amount_out, is_base_in, is_exact_in),
                out_of_blocks: false,
            },
            Seq::empty(),
        );
    }

    /// A run of cancellations by sequence number leaves the custody as it was.
    pub proof fn lemma_cancels_applied_conserve(
        self,
        trader_index: DataIndex,
        cancels: Seq<CancelOrderParams>,
    )
        requires
            self.wf(),
            self.cancels_applied(trader_index, cancels) is Ok,
        ensures
            base_held(self.cancels_applied(trader_index, cancels).unwrap().blocks) == base_held(
                self.blocks,
            ),
            quote_held(self.cancels_applied(trader_index, cancels).unwrap().blocks) == quote_held(
                self.blocks,
            ),
        decreases cancels.len(),
    {
        if cancels.len() > 0 {
            let index = self.order_index(trader_index, cancels[0].sequence_number);
            let market = self.cancel_order(trader_index, cancels[0].sequence_number).unwrap();
            self.theorem_cancel_conserves(index);
            self.lemma_cancel_succeeds(index);
            market.lemma_cancels_applied_conserve(trader_index, cancels.drop_first());
        }
    }

    /// A run of placed orders leaves the sum of custody and reservations as
    /// it was.
    pub proof fn lemma_places_applied_conserve(
        self,
        trader_index: DataIndex,
        places: Seq<PlaceOrderParams>,
        globals: GlobalAccountsView,
        current_slot: u32,
        outcomes: Seq<PlaceOutcome>,
        fills: Seq<Fill>,
    )
        requires
            self.wf(),
            self.places_applied(trader_index, places, globals, current_slot, outcomes, fills) is Ok,
        ensures
            ({
                let (market, accounts, all, more) = self.places_applied(
                    trader_index,
                    places,
                    globals,
                    current_slot,
                    outcomes,
                    fills,
                ).unwrap();
                &&& base_total(market, accounts) == base_total(self, globals)
                &&& quote_total(market, accounts) == quote_total(self, globals)
            }),
        decreases places.len(),
    {
        if places.len() > 0 {
            let (market, accounts, outcome, more) = self.place_order(
                trader_index,
                places[0].is_bid,
                places[0].num_base_atoms,
                places[0].price,
                places[0].order_type,
                places[0].last_valid_slot,
                places[0].reverse_spread,
                globals,
                current_slot,
            ).unwrap();
            self.theorem_place_order_conserves(
                trader_index,
                places[0].is_bid,
                places[0].num_base_atoms,
                places[0].price,
                places[0].order_type,
                places[0].last_valid_slot,
                places[0].reverse_spread,
                globals,
                current_slot,
            );
            self.lemma_place_order_succeeds(
                trader_index,
                places[0].is_bid,
                places[0].num_base_atoms,
                places[0].price,
                places[0].order_type,
                places[0].last_valid_slot,
                places[0].reverse_spread,
                globals,
                current_slot,
            );
            market.lemma_places_applied_conserve(
                trader_index,
                places.drop_first(),
                accounts,
                current_slot,
                outcomes.push(outcome),
                fills + more,
            );
        }
    }

    /// A batch update leaves the sum of custody and reservations as it was.
    pub proof fn theorem_batch_update_conserves(
        self,
        trader_index: DataIndex,
        cancels: Seq<CancelOrderParams>,
        places: Seq<PlaceOrderParams>,
        globals: GlobalAccountsView,
        current_slot: u32,
    )
        requires
            self.wf(),
            self.batch_update(trader_index, cancels, places, globals, current_slot) is Ok,
        ensures
            ({
                let (market, accounts, outcomes, fills) = self.batch_update(
                    trader_index,
                    cancels,
                    places,
                    globals,
                    current_slot,
                ).unwrap();
                &&& base_total(market, accounts) == base_total(self, globals)
                &&& quote_total(market, accounts) == quote_total(self, globals)
            }),
    {
        let cleared = self.cancels_applied(trader_index, cancels).unwrap();
        self.lemma_cancels_applied_conserve(trader_index, cancels);
        self.lemma_cancels_applied_succeeds(trader_index, cancels);
        cleared.lemma_places_applied_conserve(
            trader_index,
            places,
            globals,
            current_slot,
            Seq::empty(),
            Seq::empty(),
        );
    }
}

} // verus!
