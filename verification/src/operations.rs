//! The operations of the market, taken as one family.
//!
//! Each operation has its own function and its own contract. Here they are
//! listed side by side, so that what holds after any operation can be said
//! once.

use vstd::prelude::*;
use hypertree::DataIndex;
use crate::batch::{CancelOrderParams, PlaceOrderParams};
use crate::error::MarketError;
use crate::global::GlobalAccountsView;
use crate::price::Price;
use crate::state::{Identity, MarketView, OrderType};

verus! {

/// One operation on the market, with its arguments.
pub enum Operation {
    Expand { count: u32 },
    ClaimSeat { trader: Identity },
    Deposit { index: DataIndex, is_base: bool, amount: u64 },
    Withdraw { index: DataIndex, is_base: bool, amount: u64 },
    SetPosition { index: DataIndex, position_size: i64, quote_cost_basis: u64 },
    PostOrder {
        trader_index: DataIndex,
        is_bid: bool,
        num_base_atoms: u64,
        price: Price,
        order_type: OrderType,
        last_valid_slot: u32,
        reverse_spread: u32,
        current_slot: u32,
    },
    PlaceOrder {
        trader_index: DataIndex,
        is_bid: bool,
        num_base_atoms: u64,
        price: Price,
        order_type: OrderType,
        last_valid_slot: u32,
        reverse_spread: u32,
        globals: GlobalAccountsView,
        current_slot: u32,
    },
    Swap {
        amount_in: u64,
        amount_out: u64,
        is_base_in: bool,
        is_exact_in: bool,
        globals: GlobalAccountsView,
        current_slot: u32,
    },
    CancelOrderByIndex { index: DataIndex },
    CancelOrder { trader_index: DataIndex, sequence_number: u64 },
    BatchUpdate {
        trader_index: DataIndex,
        cancels: Seq<CancelOrderParams>,
        places: Seq<PlaceOrderParams>,
        globals: GlobalAccountsView,
        current_slot: u32,
    },
    Liquidate { liquidated: Seq<u8>, liquidator: Seq<u8> },
    CrankFunding { oracle: Seq<u8>, now: i64 },
}

impl MarketView {
    /// The market that an operation leaves behind, or why it fails.
    pub open spec fn apply(self, operation: Operation) -> Result<MarketView, MarketError> {
        match operation {
            Operation::Expand { count } => Ok(
                self.expanded(
                    if count <= self.room() {
                        count as nat
                    } else {
                        self.room()
                    },
                ),
            ),
            Operation::ClaimSeat { trader } => self.claim_seat(trader),
            Operation::Deposit { index, is_base, amount } => self.deposit(index, is_base, amount),
            Operation::Withdraw { index, is_base, amount } => self.withdraw(
                index,
                is_base,
                amount,
            ),
            Operation::SetPosition { index, position_size, quote_cost_basis } => self.set_position(
                index,
                position_size,
                quote_cost_basis,
            ),
            Operation::PostOrder {
                trader_index,
                is_bid,
                num_base_atoms,
                price,
                order_type,
                last_valid_slot,
                reverse_spread,
                current_slot,
            } => self.post_order(
                trader_index,
                is_bid,
                num_base_atoms,
                price,
                order_type,
                last_valid_slot,
                reverse_spread,
                current_slot,
            ),
            Operation::PlaceOrder {
                trader_index,
                is_bid,
                num_base_atoms,
                price,
                order_type,
                last_valid_slot,
                reverse_spread,
                globals,
                current_slot,
            } => match self.place_order(
                trader_index,
                is_bid,
                num_base_atoms,
                price,
                order_type,
                last_valid_slot,
                reverse_spread,
                globals,
                current_slot,
            ) {
                Ok((market, _, _, _)) => Ok(market),
                Err(e) => Err(e),
            },
            Operation::Swap {
                amount_in,
                amount_out,
                is_base_in,
                is_exact_in,
                globals,
                current_slot,
            } => match self.swap(
                amount_in,
                amount_out,
                is_base_in,
                is_exact_in,
                globals,
                current_slot,
            ) {
                Ok((market, _, _, _)) => Ok(market),
                Err(e) => Err(e),
            },
            Operation::CancelOrderByIndex { index } => self.cancel_order_by_index(index),
            Operation::CancelOrder { trader_index, sequence_number } => self.cancel_order(
                trader_index,
                sequence_number,
            ),
            Operation::BatchUpdate {
                trader_index,
                cancels,
                places,
                globals,
                current_slot,
            } => match self.batch_update(trader_index, cancels, places, globals, current_slot) {
                Ok((market, _, _, _)) => Ok(market),
                Err(e) => Err(e),
            },
            Operation::Liquidate { liquidated, liquidator } => match self.liquidate(
                liquidated,
                liquidator,
            ) {
                Ok((market, _)) => Ok(market),
                Err(e) => Err(e),
            },
            Operation::CrankFunding { oracle, now } => match self.crank_funding(oracle, now) {
                Ok((market, _)) => Ok(market),
                Err(e) => Err(e),
            },
        }
    }

    /// Every operation keeps the invariant and continues the sequence of
    /// orders: the books stay sorted and uncrossed, the header's totals stay
    /// the sums of the positions, no block leaks, and no sequence number is
    /// handed out twice.
    pub proof fn theorem_operations_keep_the_invariant(self, operation: Operation)
        requires
            self.wf(),
            self.apply(operation) is Ok,
        ensures
            self.apply(operation).unwrap().wf(),
            self.sequence_continues(self.apply(operation).unwrap()),
    {
        let after = self.apply(operation).unwrap();
        match operation {
            Operation::Expand { count } => {
                let appended = if count <= self.room() {
                    count as nat
                } else {
                    self.room()
                };
                self.lemma_expanded_wf(appended);
                self.lemma_expanded_keeps_blocks(appended);
            },
            Operation::ClaimSeat { trader } => {
                self.lemma_seat_claimed_wf(trader);
                assert(self.is_free(self.free[0]));
            },
            Operation::Deposit { index, is_base, amount } => {
                self.lemma_with_seat_wf(index, after.seat_at(index));
            },
            Operation::Withdraw { index, is_base, amount } => {
                self.lemma_with_seat_wf(index, after.seat_at(index));
            },
            Operation::SetPosition { index, position_size, quote_cost_basis } => {
                self.lemma_set_position_wf(index, position_size, quote_cost_basis);
            },
            Operation::PostOrder {
                trader_index,
                is_bid,
                num_base_atoms,
                price,
                order_type,
                last_valid_slot,
                reverse_spread,
                current_slot,
            } => {
                self.lemma_post_order_succeeds(
                    trader_index,
                    is_bid,
                    num_base_atoms,
                    price,
                    order_type,
                    last_valid_slot,
                    reverse_spread,
                    current_slot,
                );
            },
            Operation::PlaceOrder {
                trader_index,
                is_bid,
                num_base_atoms,
                price,
                order_type,
                last_valid_slot,
                reverse_spread,
                globals,
                current_slot,
            } => {
                self.lemma_place_order_succeeds(
                    trader_index,
                    is_bid,
                    num_base_atoms,
                    price,
                    order_type,
                    last_valid_slot,
                    reverse_spread,
                    globals,
                    current_slot,
                );
            },
            Operation::Swap {
                amount_in,
                amount_out,
                is_base_in,
                is_exact_in,
                globals,
                current_slot,
            } => {
                self.lemma_swap_succeeds(
                    amount_in,
                    amount_out,
                    is_base_in,
                    is_exact_in,
                    globals,
                    current_slot,
                );
            },
            Operation::CancelOrderByIndex { index } => {
                self.lemma_cancel_succeeds(index);
            },
            Operation::CancelOrder { trader_index, sequence_number } => {
                self.lemma_cancel_succeeds(self.order_index(trader_index, sequence_number));
            },
            Operation::BatchUpdate { trader_index, cancels, places, globals, current_slot } => {
                self.lemma_batch_update_succeeds(
                    trader_index,
                    cancels,
                    places,
                    globals,
                    current_slot,
                );
            },
            Operation::Liquidate { liquidated, liquidator } => {
                self.lemma_liquidate_wf(liquidated, liquidator);
            },
            Operation::CrankFunding { oracle, now } => {
                self.lemma_crank_funding_wf(oracle, now);
            },
        }
    }
}

} // verus!
