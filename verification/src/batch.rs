//! Batch updates: a seat cancels some of its orders and places others, all
//! or nothing.

use vstd::prelude::*;
use hypertree::DataIndex;
use crate::error::MarketError;
use crate::global::{GlobalAccounts, GlobalAccountsView};
use crate::matching::Fill;
use crate::orders::PlaceOutcome;
use crate::price::Price;
use crate::state::{Market, MarketView, OrderType};

verus! {

/// An order to place.
#[derive(Clone, Copy, Debug, PartialEq, Eq, Structural)]
pub struct PlaceOrderParams {
    pub is_bid: bool,
    pub num_base_atoms: u64,
    pub price: Price,
    pub order_type: OrderType,
    pub last_valid_slot: u32,
    pub reverse_spread: u32,
}

/// An order to cancel, named by its sequence number.
#[derive(Clone, Copy, Debug, PartialEq, Eq, Structural)]
pub struct CancelOrderParams {
    pub sequence_number: u64,
}

impl PlaceOrderParams {
    /// An order to place, from its parts.
    pub fn new(
        is_bid: bool,
        num_base_atoms: u64,
        price: Price,
        order_type: OrderType,
        last_valid_slot: u32,
        reverse_spread: u32,
    ) -> (params: Self)
        ensures
            params == (PlaceOrderParams {
                is_bid,
                num_base_atoms,
                price,
                order_type,
                last_valid_slot,
                reverse_spread,
            }),
    {
        PlaceOrderParams {
            is_bid,
            num_base_atoms,
            price,
            order_type,
            last_valid_slot,
            reverse_spread,
        }
    }
}

impl CancelOrderParams {
    /// Names the order with `sequence_number` for cancelling.
    pub fn new(sequence_number: u64) -> (params: Self)
        ensures
            params.sequence_number == sequence_number,
    {
        CancelOrderParams { sequence_number }
    }
}

impl MarketView {
    /// What it comes to when the seat at `trader_index` cancels the listed
    /// orders one after the other.
    pub open spec fn cancels_applied(self, trader_index: DataIndex, cancels: Seq<CancelOrderParams>)
        -> Result<MarketView, MarketError>
        decreases cancels.len(),
    {
        if cancels.len() == 0 {
            Ok(self)
        } else {
            match self.cancel_order(trader_index, cancels[0].sequence_number) {
                Ok(market) => market.cancels_applied(trader_index, cancels.drop_first()),
                Err(e) => Err(e),
            }
        }
    }

    /// What it comes to when the seat at `trader_index` places the listed
    /// orders one after the other, given the outcomes and fills so far.
    pub open spec fn places_applied(
        self,
        trader_index: DataIndex,
        places: Seq<PlaceOrderParams>,
        globals: GlobalAccountsView,
        current_slot: u32,
        outcomes: Seq<PlaceOutcome>,
        fills: Seq<Fill>,
    ) -> Result<(MarketView, GlobalAccountsView, Seq<PlaceOutcome>, Seq<Fill>), MarketError>
        decreases places.len(),
    {
        if places.len() == 0 {
            Ok((self, globals, outcomes, fills))
        } else {
            match self.place_order(
                trader_index,
                places[0].is_bid,
                places[0].num_base_atoms,
                places[0].price,
                places[0].order_type,
                places[0].last_valid_slot,
                places[0].reverse_spread,
                globals,
                current_slot,
            ) {
                Ok((market, accounts, outcome, more)) => market.places_applied(
                    trader_index,
                    places.drop_first(),
                    accounts,
                    current_slot,
                    outcomes.push(outcome),
                    fills + more,
                ),
                Err(e) => Err(e),
            }
        }
    }

    /// What a batch update comes to: the cancellations first, then the
    /// orders.
    pub open spec fn batch_update(
        self,
        trader_index: DataIndex,
        cancels: Seq<CancelOrderParams>,
        places: Seq<PlaceOrderParams>,
        globals: GlobalAccountsView,
        current_slot: u32,
    ) -> Result<(MarketView, GlobalAccountsView, Seq<PlaceOutcome>, Seq<Fill>), MarketError> {
        match self.cancels_applied(trader_index, cancels) {
            Ok(market) => market.places_applied(
                trader_index,
                places,
                globals,
                current_slot,
                Seq::empty(),
                Seq::empty(),
            ),
            Err(e) => Err(e),
        }
    }
}

impl MarketView {
    /// A run of cancellations by sequence number gives a market that
    /// succeeds the old one.
    pub proof fn lemma_cancels_applied_succeeds(
        self,
        trader_index: DataIndex,
        cancels: Seq<CancelOrderParams>,
    )
        requires
            self.wf(),
            self.cancels_applied(trader_index, cancels) is Ok,
        ensures
            self.cancels_applied(trader_index, cancels).unwrap().succeeds(self),
        decreases cancels.len(),
    {
        if cancels.len() == 0 {
            self.lemma_succeeds_itself();
        } else {
            let index = self.order_index(trader_index, cancels[0].sequence_number);
            let market = self.cancel_order(trader_index, cancels[0].sequence_number).unwrap();
            self.lemma_cancel_succeeds(index);
            market.lemma_cancels_applied_succeeds(trader_index, cancels.drop_first());
            self.lemma_succeeds_chain(
                market,
                self.cancels_applied(trader_index, cancels).unwrap(),
            );
        }
    }

    /// A run of placed orders gives a market that succeeds the old one.
    pub proof fn lemma_places_applied_succeeds(
        self,
        trader_index: DataIndex,
        places: Seq<PlaceOrderParams>,
        globals: GlobalAccountsView,
        current_slot: u32,
        outcomes: Seq<PlaceOutcome>,
        fills: Seq<Fill>,
    )
        requires
            self.wf(),
            self.places_applied(trader_index, places, globals, current_slot, outcomes, fills) is Ok,
        ensures
            self.places_applied(
                trader_index,
                places,
                globals,
                current_slot,
                outcomes,
                fills,
            ).unwrap().0.succeeds(self),
        decreases places.len(),
    {
        if places.len() == 0 {
            self.lemma_succeeds_itself();
        } else {
            let (market, accounts, outcome, more) = self.place_order(
                trader_index,
                places[0].is_bid,
                places[0].num_base_atoms,
                places[0].price,
                places[0].order_type,
                places[0].last_valid_slot,
                places[0].reverse_spread,
                globals,
                current_slot,
            ).unwrap();
            self.lemma_place_order_succeeds(
                trader_index,
                places[0].is_bid,
                places[0].num_base_atoms,
                places[0].price,
                places[0].order_type,
                places[0].last_valid_slot,
                places[0].reverse_spread,
                globals,
                current_slot,
            );
            market.lemma_places_applied_succeeds(
                trader_index,
                places.drop_first(),
                accounts,
                current_slot,
                outcomes.push(outcome),
                fills + more,
            );
            self.lemma_succeeds_chain(
                market,
                self.places_applied(
                    trader_index,
                    places,
                    globals,
                    current_slot,
                    outcomes,
                    fills,
                ).unwrap().0,
            );
        }
    }

    /// A batch update gives a market that succeeds the old one.
    pub proof fn lemma_batch_update_succeeds(
        self,
        trader_index: DataIndex,
        cancels: Seq<CancelOrderParams>,
        places: Seq<PlaceOrderParams>,
        globals: GlobalAccountsView,
        current_slot: u32,
    )
        requires
            self.wf(),
            self.batch_update(trader_index, cancels, places, globals, current_slot) is Ok,
        ensures
            self.batch_update(
                trader_index,
                cancels,
                places,
                globals,
                current_slot,
            ).unwrap().0.succeeds(self),
    {
        let cleared = self.cancels_applied(trader_index, cancels).unwrap();
        self.lemma_cancels_applied_succeeds(trader_index, cancels);
        cleared.lemma_places_applied_succeeds(
            trader_index,
            places,
            globals,
            current_slot,
            Seq::empty(),
            Seq::empty(),
        );
        self.lemma_succeeds_chain(
            cleared,
            self.batch_update(trader_index, cancels, places, globals, current_slot).unwrap().0,
        );
    }
}

impl Market {
    /// Cancels the listed orders of the seat at `trader_index`, then places
    /// the listed orders for it. Appends all fills to `fills` and returns
    /// what each placed order did.
    ///
    /// Fails with the failure of the first cancellation or order that
    /// fails. A failed batch changes nothing, neither in the market nor in
    /// the global accounts nor in `fills`.
    pub fn batch_update(
        &mut self,
        trader_index: DataIndex,
        cancels: &Vec<CancelOrderParams>,
        places: &Vec<PlaceOrderParams>,
        globals: &mut GlobalAccounts,
        current_slot: u32,
        fills: &mut Vec<Fill>,
    ) -> (r: Result<Vec<PlaceOutcome>, MarketError>)
        requires
            old(self).wf(),
        ensures
            final(self).wf(),
            match old(self)@.batch_update(
                trader_index,
                cancels@,
                places@,
                old(globals)@,
                current_slot,
            ) {
                Ok((market, accounts, outcomes, all)) => {
                    &&& r is Ok
                    &&& r->Ok_0@ == outcomes
                    &&& final(self)@ == market
                    &&& final(globals)@ == accounts
                    &&& final(fills)@ == old(fills)@ + all
                },
                Err(e) => {
                    &&& r is Err
                    &&& r->Err_0 == e
                    &&& final(self)@ == old(self)@
                    &&& final(globals)@ == old(globals)@
                    &&& final(fills)@ == old(fills)@
                },
            },
    {
        let market_backup: Market = self.duplicate();
        let globals_backup: GlobalAccounts = globals.duplicate();
        let mut found: Vec<Fill> = Vec::new();
        match self.apply_batch(trader_index, cancels, places, globals, current_slot, &mut found) {
            Ok(outcomes) => {
                fills.append(&mut found);
                Ok(outcomes)
            },
            Err(e) => {
                *self = market_backup;
                *globals = globals_backup;
                Err(e)
            },
        }
    }

    /// Applies a batch. On failure the market, the accounts and `fills` may
    /// be left part of the way.
    fn apply_batch(
        &mut self,
        trader_index: DataIndex,
        cancels: &Vec<CancelOrderParams>,
        places: &Vec<PlaceOrderParams>,
        globals: &mut GlobalAccounts,
        current_slot: u32,
        fills: &mut Vec<Fill>,
    ) -> (r: Result<Vec<PlaceOutcome>, MarketError>)
        requires
            old(self).wf(),
            old(fills)@.len() == 0,
        ensures
            final(self).wf(),
            match old(self)@.batch_update(
                trader_index,
                cancels@,
                places@,
                old(globals)@,
                current_slot,
            ) {
                Ok((market, accounts, outcomes, all)) => {
                    &&& r is Ok
                    &&& r->Ok_0@ == outcomes
                    &&& final(self)@ == market
                    &&& final(globals)@ == accounts
                    &&& final(fills)@ == all
                },
                Err(e) => r is Err && r->Err_0 == e,
            },
    {
        let mut k: usize = 0;
        assert(cancels@.subrange(0, cancels@.len() as int) =~= cancels@);
        while k < cancels.len()
            invariant
                k <= cancels.len(),
                self.wf(),
                self@.cancels_applied(
                    trader_index,
                    cancels@.subrange(k as int, cancels@.len() as int),
                ) == old(self)@.cancels_applied(trader_index, cancels@),
            decreases cancels.len() - k,
        {
            let ghost rest = cancels@.subrange(k as int, cancels@.len() as int);
            assert(rest[0] == cancels@[k as int]);
            assert(rest.drop_first() =~= cancels@.subrange(k + 1, cancels@.len() as int));
            match self.cancel_order(trader_index, cancels[k].sequence_number) {
                Ok(()) => {},
                Err(e) => {
                    return Err(e);
                },
            }
            k = k + 1;
        }
        let mut outcomes: Vec<PlaceOutcome> = Vec::new();
        let mut k: usize = 0;
        assert(places@.subrange(0, places@.len() as int) =~= places@);
        assert(fills@ =~= Seq::empty());
        assert(outcomes@ =~= Seq::empty());
        while k < places.len()
            invariant
                k <= places.len(),
                self.wf(),
                old(self)@.cancels_applied(trader_index, cancels@) is Ok,
                self@.places_applied(
                    trader_index,
                    places@.subrange(k as int, places@.len() as int),
                    globals@,
                    current_slot,
                    outcomes@,
                    fills@,
                ) == old(self)@.batch_update(
                    trader_index,
                    cancels@,
                    places@,
                    old(globals)@,
                    current_slot,
                ),
            decreases places.len() - k,
        {
            let ghost rest = places@.subrange(k as int, places@.len() as int);
            assert(rest[0] == places@[k as int]);
            assert(rest.drop_first() =~= places@.subrange(k + 1, places@.len() as int));
            let order: PlaceOrderParams = places[k];
            match self.place_order(
                trader_index,
                order.is_bid,
                order.num_base_atoms,
                order.price,
                order.order_type,
                order.last_valid_slot,
                order.reverse_spread,
                globals,
                current_slot,
                fills,
            ) {
                Ok(outcome) => {
                    outcomes.push(outcome);
                },
                Err(e) => {
                    return Err(e);
                },
            }
            k = k + 1;
        }
        Ok(outcomes)
    }
}

} // verus!
