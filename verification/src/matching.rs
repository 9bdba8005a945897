//! The matching engine: pairing a taker with the makers that rest in the
//! opposing book.
//!
//! The taker walks the opposing book from its best order. A maker whose last
//! valid slot has passed is cancelled and skipped; so is a global maker whose
//! reservation does not cover the fill. The walk ends at the first maker that
//! the taker's limit price does not reach, when the taker's budget is spent,
//! or when nothing more can be traded. A fill never moves zero atoms of
//! either asset.
//!
//! The quote of a fill is the maker's price times the base, rounded. An
//! order that takes bears the rounding: it pays the quote rounded up and
//! receives it rounded down. A swap is rounded the other way, and so is any
//! fill of a reverse maker. A bid pays out of what it held back; when
//! rounding up asks for more than the fill releases, the difference comes
//! from the maker's withdrawable balance as far as that goes.
//!
//! Whatever a reverse maker is filled for is posted again on the other side,
//! at the maker's price moved away from the book by the maker's spread. A
//! partly filled reverse maker needs a free block for that; without one the
//! walk ends before the fill and says so, and the earlier fills stand.

use vstd::prelude::*;
use vstd::pervasive::unreached;
use hypertree::DataIndex;
use crate::book::prices_cross;
use crate::error::MarketError;
use crate::global::{GlobalAccounts, GlobalAccountsView};
use crate::pool::lemma_totals_update;
use crate::price::{lemma_quote_monotonic, Price};
use crate::state::{Block, ClaimedSeat, Market, MarketView, OrderType, RestingOrder, NIL};

verus! {

/// The terms on which a taker trades.
#[derive(Clone, Copy, Debug, PartialEq, Eq, Structural)]
pub struct TakerTerms {
    /// Whether the taker buys base.
    pub is_bid: bool,
    /// Whether the taker accepts only prices up to `limit`.
    pub has_limit: bool,
    /// The worst price that a taker with a limit accepts.
    pub limit: Price,
    /// Whether fills are rounded in the taker's favour.
    pub rounds_toward_taker: bool,
}

/// What a taker may still trade: so many atoms of base, or of quote.
#[derive(Clone, Copy, Debug, PartialEq, Eq, Structural)]
pub enum Budget {
    Base(u64),
    Quote(u64),
}

/// One fill: the maker and what moved.
#[derive(Clone, Copy, Debug, PartialEq, Eq, Structural)]
pub struct Fill {
    pub maker_index: DataIndex,
    pub maker_sequence_number: u64,
    pub base_atoms: u64,
    pub quote_atoms: u64,
}

/// The sum of a walk along the book.
#[derive(Clone, Copy, Debug, PartialEq, Eq, Structural)]
pub struct MatchSummary {
    /// Base atoms traded so far.
    pub base_atoms: u64,
    /// Quote atoms traded so far.
    pub quote_atoms: u64,
    /// What the taker may still trade.
    pub remaining: Budget,
    /// Whether the walk ended for want of a free block: the capacity of the
    /// pool was reached, and what had traded before stands.
    pub out_of_blocks: bool,
}

/// What one step of the walk does.
pub enum MatchStep {
    /// Nothing more can be traded.
    Stop,
    /// The best maker is a reverse order that would be filled in part, and
    /// there is no free block for what it would post again.
    OutOfBlocks,
    /// The best maker left the book without a fill.
    Removed(MarketView),
    /// The best maker was filled.
    Traded { market: MarketView, globals: GlobalAccountsView, fill: Fill, remaining: Budget },
    /// The step cannot be taken.
    Failed(MarketError),
}

/// Units of the reverse spread in one whole.
pub const SPREAD_PER_WHOLE: u32 = 100_000;

/// The smaller of two numbers.
pub open spec fn least(a: int, b: int) -> int {
    if a <= b {
        a
    } else {
        b
    }
}

/// Drops low digits of `mantissa`, raising `exponent` by one for each, until
/// the mantissa fits 32 bits.
pub open spec fn shortened(mantissa: nat, exponent: int) -> (nat, int)
    decreases mantissa,
{
    if mantissa > u32::MAX {
        shortened(mantissa / 10, exponent + 1)
    } else {
        (mantissa, exponent)
    }
}

/// The price at which a reverse order posts again what it was filled for:
/// the price of a filled bid raised by the spread, the price of a filled ask
/// lowered by it. There is none when the result is no price.
pub open spec fn mirrored_price(price: Price, spread: u32, filled_bid: bool) -> Option<Price> {
    let factor: int = if filled_bid {
        SPREAD_PER_WHOLE + spread
    } else if spread <= SPREAD_PER_WHOLE {
        SPREAD_PER_WHOLE - spread
    } else {
        0
    };
    let (mantissa, exponent) = shortened((price.mantissa * factor) as nat, price.exponent - 5);
    if i8::MIN <= exponent <= i8::MAX {
        Some(Price { mantissa: mantissa as u32, exponent: exponent as i8 })
    } else {
        None
    }
}

impl RestingOrder {
    /// Whether the order's last valid slot has passed.
    pub open spec fn expired_at(self, current_slot: u32) -> bool {
        self.last_valid_slot != 0 && current_slot > self.last_valid_slot
    }

    /// The order with `base_atoms` fewer to fill.
    pub open spec fn less(self, base_atoms: nat) -> RestingOrder {
        RestingOrder { num_base_atoms: (self.num_base_atoms - base_atoms) as u64, ..self }
    }
}

impl Budget {
    /// Base atoms that the budget takes from a maker: all the maker has, or
    /// as many as the budget reaches for.
    pub open spec fn wanted_base(self, maker: RestingOrder) -> nat {
        match self {
            Budget::Base(atoms) => least(atoms as int, maker.num_base_atoms as int) as nat,
            Budget::Quote(atoms) => if maker.price.mantissa == 0 {
                0
            } else {
                least(
                    maker.price.base_for_quote(atoms as nat, false) as int,
                    maker.num_base_atoms as int,
                ) as nat
            },
        }
    }

    /// Quote atoms that the budget allows for a fill: as many as asked, or
    /// as many as the budget has.
    pub open spec fn allowed_quote(self, asked: nat) -> nat {
        match self {
            Budget::Base(_) => asked,
            Budget::Quote(atoms) => least(asked as int, atoms as int) as nat,
        }
    }

    /// The budget after a fill.
    pub open spec fn after(self, base_atoms: nat, quote_atoms: nat) -> Budget {
        match self {
            Budget::Base(atoms) => Budget::Base((atoms - base_atoms) as u64),
            Budget::Quote(atoms) => Budget::Quote((atoms - quote_atoms) as u64),
        }
    }
}

/// Whether the quote of a fill is rounded up.
pub open spec fn fill_rounds_up(taker: TakerTerms, maker: RestingOrder) -> bool {
    if taker.rounds_toward_taker || maker.order_type == OrderType::Reverse {
        !taker.is_bid
    } else {
        taker.is_bid
    }
}

impl MarketView {
    /// The market with the order at `index` replaced.
    pub open spec fn with_order(self, index: DataIndex, order: RestingOrder) -> MarketView {
        MarketView { blocks: self.blocks.update(index as int, Block::Order(order)), ..self }
    }

    /// The order that a reverse maker posts for `base_atoms` it was filled
    /// for, if its mirrored price is a price.
    pub open spec fn flip_order(self, maker: RestingOrder, base_atoms: nat) -> Option<RestingOrder> {
        match mirrored_price(maker.price, maker.reverse_spread, maker.is_bid) {
            Some(price) => Some(
                RestingOrder {
                    trader_index: maker.trader_index,
                    sequence_number: self.header.next_sequence_number,
                    price,
                    num_base_atoms: base_atoms as u64,
                    is_bid: !maker.is_bid,
                    order_type: OrderType::Reverse,
                    last_valid_slot: maker.last_valid_slot,
                    reverse_spread: maker.reverse_spread,
                },
            ),
            None => None,
        }
    }

    /// Whether the market can post `order` for its seat: a free block and a
    /// sequence number are left, the seat covers what the order holds back,
    /// and the order is not priced through the other side.
    pub open spec fn can_flip(self, order: RestingOrder) -> bool {
        let seat = self.seat_at(order.trader_index);
        &&& self.free.len() > 0
        &&& self.header.next_sequence_number < u64::MAX
        &&& order.locked_quote() <= seat.quote_withdrawable_balance
        &&& order.locked_base() <= seat.base_withdrawable_balance
        &&& !self.outbids(order.is_bid, order.price)
    }

    /// The market after a reverse maker posted again what it was filled for,
    /// or as it is when the maker cannot.
    pub open spec fn flipped(self, maker: RestingOrder, base_atoms: nat) -> MarketView {
        match self.flip_order(maker, base_atoms) {
            Some(order) => if self.can_flip(order) {
                let seat = self.seat_at(order.trader_index);
                self.with_seat(
                    order.trader_index,
                    ClaimedSeat {
                        base_withdrawable_balance: (seat.base_withdrawable_balance
                            - order.locked_base()) as u64,
                        quote_withdrawable_balance: (seat.quote_withdrawable_balance
                            - order.locked_quote()) as u64,
                        ..seat
                    },
                ).order_inserted(order)
            } else {
                self
            },
            None => self,
        }
    }

    /// Quote atoms that a maker gives or takes for `base_atoms` at its price.
    ///
    /// A bid that holds its quote back pays no more than the fill releases
    /// and its seat can add.
    pub open spec fn fill_quote(self, taker: TakerTerms, budget: Budget, maker: RestingOrder) -> nat {
        let base_atoms = budget.wanted_base(maker);
        let asked = budget.allowed_quote(
            maker.price.quote_for_base(base_atoms, fill_rounds_up(taker, maker)),
        );
        if maker.is_bid && maker.order_type != OrderType::Global {
            let released = maker.locked_quote() - maker.less(base_atoms).locked_quote();
            least(
                asked as int,
                released + self.seat_at(maker.trader_index).quote_withdrawable_balance,
            ) as nat
        } else {
            asked
        }
    }

    /// The seat of a maker after a fill: a bid receives the base and pays the
    /// quote, less what its order releases; an ask receives the quote. A
    /// global maker pays out of its reservation, not out of its seat.
    pub open spec fn maker_seat_after(self, maker: RestingOrder, base_atoms: nat, quote_atoms: nat) -> (
        int,
        int,
    ) {
        let seat = self.seat_at(maker.trader_index);
        if maker.is_bid {
            let paid = if maker.order_type == OrderType::Global {
                0
            } else {
                quote_atoms - (maker.locked_quote() - maker.less(base_atoms).locked_quote())
            };
            (seat.base_withdrawable_balance + base_atoms, seat.quote_withdrawable_balance - paid)
        } else {
            (seat.base_withdrawable_balance as int, seat.quote_withdrawable_balance + quote_atoms)
        }
    }

    /// What filling the maker at `index` for `base_atoms` against
    /// `quote_atoms` comes to.
    pub open spec fn trade(
        self,
        index: DataIndex,
        base_atoms: nat,
        quote_atoms: nat,
        budget: Budget,
        globals: GlobalAccountsView,
    ) -> MatchStep {
        let maker = self.order_at(index);
        let seat = self.seat_at(maker.trader_index);
        let (base, quote) = self.maker_seat_after(maker, base_atoms, quote_atoms);
        if quote_atoms > u64::MAX || base > u64::MAX || quote > u64::MAX {
            MatchStep::Failed(MarketError::Overflow)
        } else {
            let credited = self.with_seat(
                maker.trader_index,
                ClaimedSeat {
                    base_withdrawable_balance: base as u64,
                    quote_withdrawable_balance: quote as u64,
                    ..seat
                },
            );
            let filled = if base_atoms == maker.num_base_atoms {
                credited.order_removed(index)
            } else {
                credited.with_order(index, maker.less(base_atoms))
            };
            MatchStep::Traded {
                market: if maker.order_type == OrderType::Reverse {
                    filled.flipped(maker, base_atoms)
                } else {
                    filled
                },
                globals: if maker.order_type == OrderType::Global {
                    globals.debited(
                        !maker.is_bid,
                        seat.trader@,
                        if maker.is_bid {
                            quote_atoms
                        } else {
                            base_atoms
                        },
                    )
                } else {
                    globals
                },
                fill: Fill {
                    maker_index: index,
                    maker_sequence_number: maker.sequence_number,
                    base_atoms: base_atoms as u64,
                    quote_atoms: quote_atoms as u64,
                },
                remaining: budget.after(base_atoms, quote_atoms),
            }
        }
    }

    /// What one step of the walk comes to.
    pub open spec fn match_step(
        self,
        taker: TakerTerms,
        budget: Budget,
        globals: GlobalAccountsView,
        current_slot: u32,
    ) -> MatchStep {
        let book = self.book(!taker.is_bid);
        if book.len() == 0 {
            MatchStep::Stop
        } else {
            let index = book[0];
            let maker = self.order_at(index);
            let base_atoms = budget.wanted_base(maker);
            let quote_atoms = self.fill_quote(taker, budget, maker);
            if maker.expired_at(current_slot) {
                match self.cancel_order_by_index(index) {
                    Ok(market) => MatchStep::Removed(market),
                    Err(e) => MatchStep::Failed(e),
                }
            } else if taker.has_limit && !prices_cross(taker.is_bid, taker.limit, maker.price) {
                MatchStep::Stop
            } else if maker.locked_quote() > u64::MAX {
                MatchStep::Failed(MarketError::Overflow)
            } else if base_atoms == 0 || quote_atoms == 0 {
                MatchStep::Stop
            } else if maker.order_type == OrderType::Global && globals.backing(
                !maker.is_bid,
                self.seat_at(maker.trader_index).trader@,
            ) < if maker.is_bid {
                quote_atoms
            } else {
                base_atoms
            } {
                MatchStep::Removed(self.order_removed(index))
            } else if maker.order_type == OrderType::Reverse && base_atoms < maker.num_base_atoms
                && self.free.len() == 0 {
                MatchStep::OutOfBlocks
            } else {
                self.trade(index, base_atoms, quote_atoms, budget, globals)
            }
        }
    }

    /// Whether a taker stands before a reverse maker that has no block to
    /// post again in: no block is free, and the best maker of the opposing
    /// book is a reverse order.
    pub open spec fn blocked_by_reverse_maker(self, taker_is_bid: bool) -> bool {
        let book = self.book(!taker_is_bid);
        &&& self.free.len() == 0
        &&& book.len() > 0
        &&& self.order_at(book[0]).order_type == OrderType::Reverse
    }

    /// What walking the opposing book comes to, given what the walk has
    /// summed up so far.
    pub open spec fn match_from(
        self,
        taker: TakerTerms,
        globals: GlobalAccountsView,
        current_slot: u32,
        so_far: MatchSummary,
        fills: Seq<Fill>,
    ) -> Result<(MarketView, GlobalAccountsView, MatchSummary, Seq<Fill>), MarketError>
        decreases self.book(!taker.is_bid).len(),
    {
        match self.match_step(taker, so_far.remaining, globals, current_slot) {
            MatchStep::Stop => Ok((self, globals, so_far, fills)),
            MatchStep::OutOfBlocks => Ok(
                (self, globals, MatchSummary { out_of_blocks: true, ..so_far }, fills),
            ),
            MatchStep::Failed(e) => Err(e),
            MatchStep::Removed(market) => if market.book(!taker.is_bid).len() < self.book(
                !taker.is_bid,
            ).len() {
                market.match_from(taker, globals, current_slot, so_far, fills)
            } else {
                Ok((market, globals, so_far, fills))
            },
            MatchStep::Traded { market, globals, fill, remaining } => {
                if so_far.base_atoms + fill.base_atoms > u64::MAX || so_far.quote_atoms
                    + fill.quote_atoms > u64::MAX {
                    Err(MarketError::Overflow)
                } else {
                    let summed = MatchSummary {
                        base_atoms: (so_far.base_atoms + fill.base_atoms) as u64,
                        quote_atoms: (so_far.quote_atoms + fill.quote_atoms) as u64,
                        remaining,
                        out_of_blocks: false,
                    };
                    if market.book(!taker.is_bid).len() < self.book(!taker.is_bid).len() {
                        market.match_from(taker, globals, current_slot, summed, fills.push(fill))
                    } else {
                        Ok((market, globals, summed, fills.push(fill)))
                    }
                }
            },
        }
    }

    /// What matching a taker with `budget` against the opposing book comes to.
    pub open spec fn matched(
        self,
        taker: TakerTerms,
        budget: Budget,
        globals: GlobalAccountsView,
        current_slot: u32,
    ) -> Result<(MarketView, GlobalAccountsView, MatchSummary, Seq<Fill>), MarketError> {
        self.match_from(
            taker,
            globals,
            current_slot,
            MatchSummary { base_atoms: 0, quote_atoms: 0, remaining: budget, out_of_blocks: false },
            Seq::empty(),
        )
    }
}

/// What one step of the walk did.
pub(crate) enum StepOutcome {
    Stop,
    OutOfBlocks,
    Removed,
    Traded(Fill, Budget),
    Failed(MarketError),
}

/// Whether `found` stands for the exact amount `exact`: it is that amount,
/// or it is missing because the amount needs more than 64 bits.
pub open spec fn stands_for(found: Option<u64>, exact: nat) -> bool {
    match found {
        Some(atoms) => atoms == exact,
        None => exact > u64::MAX,
    }
}

/// The price at which a reverse order posts again what it was filled for.
pub fn mirror_price(price: Price, spread: u32, filled_bid: bool) -> (r: Option<Price>)
    ensures
        r == mirrored_price(price, spread, filled_bid),
{
    let factor: u128 = if filled_bid {
        SPREAD_PER_WHOLE as u128 + spread as u128
    } else if spread <= SPREAD_PER_WHOLE {
        (SPREAD_PER_WHOLE - spread) as u128
    } else {
        0
    };
    let wide: u128 = price.mantissa as u128;
    assert(wide * factor <= 0x2_0000_0000_0000_0000) by (nonlinear_arith)
        requires
            wide <= 0xFFFF_FFFF,
            factor <= 0x1_0001_86A0,
    {}
    let mut mantissa: u128 = wide * factor;
    let mut exponent: i128 = price.exponent as i128 - 5;
    let ghost start_mantissa = mantissa;
    let ghost start_exponent = exponent;
    while mantissa > u32::MAX as u128
        invariant
            shortened(mantissa as nat, exponent as int) == shortened(
                start_mantissa as nat,
                start_exponent as int,
            ),
            exponent + mantissa <= start_exponent + start_mantissa,
            start_mantissa <= 0x2_0000_0000_0000_0000,
            start_exponent <= 200,
        decreases mantissa,
    {
        mantissa = mantissa / 10;
        exponent = exponent + 1;
    }
    if exponent >= i8::MIN as i128 && exponent <= i8::MAX as i128 {
        Some(Price::new(mantissa as u32, exponent as i8))
    } else {
        None
    }
}

impl Budget {
    /// Base atoms that the budget takes from a maker.
    pub(crate) fn base_from(&self, maker: &RestingOrder) -> (atoms: u64)
        ensures
            atoms == self.wanted_base(*maker),
    {
        match self {
            Budget::Base(atoms) => if *atoms <= maker.num_base_atoms {
                *atoms
            } else {
                maker.num_base_atoms
            },
            Budget::Quote(atoms) => if maker.price.mantissa == 0 {
                0
            } else {
                match maker.price.checked_base_for_quote(*atoms, false) {
                    Ok(reach) => if reach <= maker.num_base_atoms {
                        reach
                    } else {
                        maker.num_base_atoms
                    },
                    Err(_) => maker.num_base_atoms,
                }
            },
        }
    }
}

/// Whether what a step did is what the step comes to.
pub(crate) open spec fn step_agrees(
    expected: MatchStep,
    outcome: StepOutcome,
    before: MarketView,
    globals_before: GlobalAccountsView,
    after: MarketView,
    globals_after: GlobalAccountsView,
) -> bool {
    match expected {
        MatchStep::Stop => outcome is Stop && after == before && globals_after == globals_before,
        MatchStep::OutOfBlocks => outcome is OutOfBlocks && after == before && globals_after
            == globals_before,
        MatchStep::Removed(market) => outcome is Removed && after == market && globals_after
            == globals_before,
        MatchStep::Traded { market, globals, fill, remaining } => {
            &&& outcome == StepOutcome::Traded(fill, remaining)
            &&& after == market
            &&& globals_after == globals
        },
        MatchStep::Failed(e) => outcome == StepOutcome::Failed(e) && after == before
            && globals_after == globals_before,
    }
}

impl MarketView {
    /// Rewriting what an order has left to fill keeps the invariant.
    pub proof fn lemma_with_order_wf(self, index: DataIndex, order: RestingOrder)
        requires
            self.wf(),
            self.is_order(index),
            order.num_base_atoms > 0,
            order == (RestingOrder { num_base_atoms: order.num_base_atoms, ..self.order_at(index) }),
        ensures
            self.with_order(index, order).wf(),
    {
        let after = self.with_order(index, order);
        lemma_totals_update(self.blocks, index as int, Block::Order(order));
        self.lemma_one_block_same_shape(after, index as int);
        self.lemma_same_shape_wf(after);
    }
}

impl MarketView {
    /// Rewriting what an order has left to fill gives a market that
    /// succeeds the old one.
    pub proof fn lemma_with_order_succeeds(self, index: DataIndex, order: RestingOrder)
        requires
            self.wf(),
            self.is_order(index),
            order.num_base_atoms > 0,
            order == (RestingOrder { num_base_atoms: order.num_base_atoms, ..self.order_at(index) }),
        ensures
            self.with_order(index, order).succeeds(self),
    {
        let after = self.with_order(index, order);
        lemma_totals_update(self.blocks, index as int, Block::Order(order));
        self.lemma_one_block_same_shape(after, index as int);
        assert forall|b: DataIndex| #[trigger] self.is_seat(b) implies after.seat_at(b).position_size
            == self.seat_at(b).position_size && after.seat_at(b).quote_cost_basis == self.seat_at(
            b,
        ).quote_cost_basis by {
            assert(after.blocks[b as int] == self.blocks[b as int]);
        }
        self.lemma_same_shape_succeeds(after);
    }

    /// What a reverse maker posts again gives a market that succeeds the
    /// old one, and leaves the maker's own book alone.
    pub proof fn lemma_flipped_succeeds(self, maker: RestingOrder, base_atoms: nat)
        requires
            self.wf(),
            self.is_seat(maker.trader_index),
            0 < base_atoms <= u64::MAX,
        ensures
            self.flipped(maker, base_atoms).succeeds(self),
            self.flipped(maker, base_atoms).book(maker.is_bid) == self.book(maker.is_bid),
    {
        match self.flip_order(maker, base_atoms) {
            Some(order) => {
                if self.can_flip(order) {
                    let seat = self.seat_at(order.trader_index);
                    let funded = self.with_seat(
                        order.trader_index,
                        ClaimedSeat {
                            base_withdrawable_balance: (seat.base_withdrawable_balance
                                - order.locked_base()) as u64,
                            quote_withdrawable_balance: (seat.quote_withdrawable_balance
                                - order.locked_quote()) as u64,
                            ..seat
                        },
                    );
                    self.lemma_with_seat_succeeds(order.trader_index, funded.seat_at(order.trader_index));
                    if self.book(!order.is_bid).len() > 0 {
                        assert(self.is_order(self.book(!order.is_bid)[0]));
                    }
                    funded.lemma_order_inserted_succeeds(order);
                    self.lemma_succeeds_chain(funded, funded.order_inserted(order));
                } else {
                    self.lemma_succeeds_itself();
                }
            },
            None => {
                self.lemma_succeeds_itself();
            },
        }
    }

    /// A fill gives a market that succeeds the old one. The maker's book is
    /// one shorter when the maker is filled in full, and as long as before
    /// otherwise.
    pub proof fn lemma_trade(
        self,
        index: DataIndex,
        base_atoms: nat,
        quote_atoms: nat,
        budget: Budget,
        globals: GlobalAccountsView,
    )
        requires
            self.wf(),
            self.is_order(index),
            0 < base_atoms <= self.order_at(index).num_base_atoms,
        ensures
            match self.trade(index, base_atoms, quote_atoms, budget, globals) {
                MatchStep::Traded { market, globals, fill, remaining } => {
                    &&& market.succeeds(self)
                    &&& fill.base_atoms == base_atoms
                    &&& fill.quote_atoms == quote_atoms
                    &&& market.book(self.order_at(index).is_bid).len() + if base_atoms
                        == self.order_at(index).num_base_atoms {
                        1nat
                    } else {
                        0nat
                    } == self.book(self.order_at(index).is_bid).len()
                },
                MatchStep::Failed(_) => true,
                _ => false,
            },
    {
        let maker = self.order_at(index);
        let seat = self.seat_at(maker.trader_index);
        assert(self.is_seat(maker.trader_index));
        let (base, quote) = self.maker_seat_after(maker, base_atoms, quote_atoms);
        if !(quote_atoms > u64::MAX || base > u64::MAX || quote > u64::MAX) {
            let credited = self.with_seat(
                maker.trader_index,
                ClaimedSeat {
                    base_withdrawable_balance: base as u64,
                    quote_withdrawable_balance: quote as u64,
                    ..seat
                },
            );
            self.lemma_with_seat_succeeds(maker.trader_index, credited.seat_at(maker.trader_index));
            assert(credited.is_order(index));
            assert(credited.order_at(index) == maker);
            let filled = if base_atoms == maker.num_base_atoms {
                credited.order_removed(index)
            } else {
                credited.with_order(index, maker.less(base_atoms))
            };
            if base_atoms == maker.num_base_atoms {
                credited.lemma_order_removed_succeeds(index);
            } else {
                credited.lemma_with_order_succeeds(index, maker.less(base_atoms));
            }
            self.lemma_succeeds_chain(credited, filled);
            if maker.order_type == OrderType::Reverse {
                assert(filled.is_seat(maker.trader_index));
                filled.lemma_flipped_succeeds(maker, base_atoms);
                self.lemma_succeeds_chain(filled, filled.flipped(maker, base_atoms));
            }
        }
    }

    /// A step of the walk gives a market that succeeds the old one. A maker
    /// that leaves without a fill shortens the opposing book, and a fill
    /// never moves zero atoms of either asset.
    pub proof fn lemma_match_step(
        self,
        taker: TakerTerms,
        budget: Budget,
        globals: GlobalAccountsView,
        current_slot: u32,
    )
        requires
            self.wf(),
        ensures
            match self.match_step(taker, budget, globals, current_slot) {
                MatchStep::Removed(market) => market.succeeds(self) && market.book(
                    !taker.is_bid,
                ).len() < self.book(!taker.is_bid).len(),
                MatchStep::Traded { market, globals, fill, remaining } => {
                    &&& market.succeeds(self)
                    &&& fill.base_atoms > 0
                    &&& fill.quote_atoms > 0
                    &&& fill.maker_index == self.book(!taker.is_bid)[0]
                    &&& market.book(!taker.is_bid).len() <= self.book(!taker.is_bid).len()
                },
                _ => true,
            },
    {
        let book = self.book(!taker.is_bid);
        if book.len() > 0 {
            let index = book[0];
            assert(self.is_order(index));
            let maker = self.order_at(index);
            let base_atoms = budget.wanted_base(maker);
            let quote_atoms = self.fill_quote(taker, budget, maker);
            if maker.expired_at(current_slot) {
                if self.cancel_order_by_index(index) is Ok {
                    self.lemma_cancel_succeeds(index);
                }
            } else if taker.has_limit && !prices_cross(taker.is_bid, taker.limit, maker.price) {
            } else if maker.locked_quote() > u64::MAX {
            } else if base_atoms == 0 || quote_atoms == 0 {
            } else if maker.order_type == OrderType::Global && globals.backing(
                !maker.is_bid,
                self.seat_at(maker.trader_index).trader@,
            ) < if maker.is_bid {
                quote_atoms
            } else {
                base_atoms
            } {
                self.lemma_order_removed_succeeds(index);
            } else if maker.order_type == OrderType::Reverse && base_atoms < maker.num_base_atoms
                && self.free.len() == 0 {
            } else {
                self.lemma_trade(index, base_atoms, quote_atoms, budget, globals);
            }
        }
    }

    /// A walk gives a market that succeeds the old one, and none of its
    /// fills moves zero atoms of either asset.
    pub proof fn lemma_match_from(
        self,
        taker: TakerTerms,
        globals: GlobalAccountsView,
        current_slot: u32,
        so_far: MatchSummary,
        fills: Seq<Fill>,
    )
        requires
            self.wf(),
            forall|i: int|
                0 <= i < fills.len() ==> (#[trigger] fills[i]).base_atoms > 0
                    && fills[i].quote_atoms > 0,
        ensures
            match self.match_from(taker, globals, current_slot, so_far, fills) {
                Ok((market, accounts, summary, all)) => {
                    &&& market.succeeds(self)
                    &&& forall|i: int|
                        0 <= i < all.len() ==> (#[trigger] all[i]).base_atoms > 0
                            && all[i].quote_atoms > 0
                    &&& summary.base_atoms >= so_far.base_atoms
                    &&& summary.quote_atoms >= so_far.quote_atoms
                },
                Err(_) => true,
            },
        decreases self.book(!taker.is_bid).len(),
    {
        self.lemma_match_step(taker, so_far.remaining, globals, current_slot);
        self.lemma_succeeds_itself();
        match self.match_step(taker, so_far.remaining, globals, current_slot) {
            MatchStep::Removed(market) => {
                market.lemma_match_from(taker, globals, current_slot, so_far, fills);
                match market.match_from(taker, globals, current_slot, so_far, fills) {
                    Ok((last, _, _, _)) => {
                        self.lemma_succeeds_chain(market, last);
                    },
                    Err(_) => {},
                }
            },
            MatchStep::Traded { market, globals: accounts, fill, remaining } => {
                if !(so_far.base_atoms + fill.base_atoms > u64::MAX || so_far.quote_atoms
                    + fill.quote_atoms > u64::MAX) {
                    let summed = MatchSummary {
                        base_atoms: (so_far.base_atoms + fill.base_atoms) as u64,
                        quote_atoms: (so_far.quote_atoms + fill.quote_atoms) as u64,
                        remaining,
                        out_of_blocks: false,
                    };
                    let more = fills.push(fill);
                    assert forall|i: int| 0 <= i < more.len() implies (#[trigger] more[i]).base_atoms
                        > 0 && more[i].quote_atoms > 0 by {
                        if i < fills.len() {
                            assert(more[i] == fills[i]);
                        }
                    }
                    if market.book(!taker.is_bid).len() < self.book(!taker.is_bid).len() {
                        market.lemma_match_from(taker, accounts, current_slot, summed, more);
                        match market.match_from(taker, accounts, current_slot, summed, more) {
                            Ok((last, _, _, _)) => {
                                self.lemma_succeeds_chain(market, last);
                            },
                            Err(_) => {},
                        }
                    }
                }
            },
            _ => {},
        }
    }
}

impl MarketView {
    /// A walk on a budget of base atoms trades no more base atoms than the
    /// budget has, and leaves the rest of the budget.
    pub proof fn lemma_base_budget(
        self,
        taker: TakerTerms,
        globals: GlobalAccountsView,
        current_slot: u32,
        so_far: MatchSummary,
        fills: Seq<Fill>,
        budget: u64,
    )
        requires
            so_far.remaining is Base,
            so_far.base_atoms + so_far.remaining->Base_0 == budget,
        ensures
            match self.match_from(taker, globals, current_slot, so_far, fills) {
                Ok((market, accounts, summary, all)) => summary.remaining is Base
                    && summary.base_atoms + summary.remaining->Base_0 == budget,
                Err(_) => true,
            },
        decreases self.book(!taker.is_bid).len(),
    {
        match self.match_step(taker, so_far.remaining, globals, current_slot) {
            MatchStep::Removed(market) => {
                if market.book(!taker.is_bid).len() < self.book(!taker.is_bid).len() {
                    market.lemma_base_budget(taker, globals, current_slot, so_far, fills, budget);
                }
            },
            MatchStep::Traded { market, globals: accounts, fill, remaining } => {
                if !(so_far.base_atoms + fill.base_atoms > u64::MAX || so_far.quote_atoms
                    + fill.quote_atoms > u64::MAX) {
                    let summed = MatchSummary {
                        base_atoms: (so_far.base_atoms + fill.base_atoms) as u64,
                        quote_atoms: (so_far.quote_atoms + fill.quote_atoms) as u64,
                        remaining,
                        out_of_blocks: false,
                    };
                    if market.book(!taker.is_bid).len() < self.book(!taker.is_bid).len() {
                        market.lemma_base_budget(
                            taker,
                            accounts,
                            current_slot,
                            summed,
                            fills.push(fill),
                            budget,
                        );
                    }
                }
            },
            _ => {},
        }
    }
}

impl Market {
    /// Lets a reverse maker post again what it was filled for, if it can.
    fn flip(&mut self, maker: &RestingOrder, base_atoms: u64)
        requires
            old(self).wf(),
            old(self)@.is_seat(maker.trader_index),
            base_atoms > 0,
        ensures
            final(self).wf(),
            final(self)@ == old(self)@.flipped(*maker, base_atoms as nat),
    {
        let price: Price = match mirror_price(maker.price, maker.reverse_spread, maker.is_bid) {
            Some(price) => price,
            None => {
                return ;
            },
        };
        let order = RestingOrder {
            trader_index: maker.trader_index,
            sequence_number: self.header.next_sequence_number,
            price,
            num_base_atoms: base_atoms,
            is_bid: !maker.is_bid,
            order_type: OrderType::Reverse,
            last_valid_slot: maker.last_valid_slot,
            reverse_spread: maker.reverse_spread,
        };
        let seat: ClaimedSeat = self.seat_in(maker.trader_index);
        if self.header.free_list_head == NIL {
            return ;
        }
        proof {
            if self@.free.len() == 0 {
                assert(false);
            }
            assert(self@.is_free(self@.free[0]));
        }
        if self.header.next_sequence_number == u64::MAX {
            return ;
        }
        let held_quote: u64 = if order.is_bid {
            match price.checked_quote_for_base(base_atoms, true) {
                Ok(quote) => quote,
                Err(_) => {
                    return ;
                },
            }
        } else {
            0
        };
        let held_base: u64 = if order.is_bid {
            0
        } else {
            base_atoms
        };
        if held_quote > seat.quote_withdrawable_balance || held_base
            > seat.base_withdrawable_balance {
            return ;
        }
        if self.outbids(order.is_bid, &price) {
            return ;
        }
        let funded = ClaimedSeat {
            base_withdrawable_balance: seat.base_withdrawable_balance - held_base,
            quote_withdrawable_balance: seat.quote_withdrawable_balance - held_quote,
            ..seat
        };
        proof {
            self@.lemma_with_seat_wf(maker.trader_index, funded);
            if self@.book(!order.is_bid).len() > 0 {
                assert(self@.is_order(self@.book(!order.is_bid)[0]));
            }
        }
        self.blocks.set(maker.trader_index as usize, Block::Seat(funded));
        self.insert_order(order);
    }

    /// Works out what the maker at `index` would be filled for: the base
    /// atoms, the quote atoms if they fit 64 bits, and the quote atoms that
    /// the fill releases from what the maker holds back.
    fn plan_fill(&self, taker: &TakerTerms, budget: Budget, index: DataIndex) -> (r: Result<
        (u64, Option<u64>, u64),
        MarketError,
    >)
        requires
            self.wf(),
            self@.is_order(index),
        ensures
            match r {
                Ok((base_atoms, quote, released)) => {
                    let maker = self@.order_at(index);
                    &&& maker.locked_quote() <= u64::MAX
                    &&& base_atoms == budget.wanted_base(maker)
                    &&& base_atoms <= maker.num_base_atoms
                    &&& stands_for(quote, self@.fill_quote(*taker, budget, maker))
                    &&& released == maker.locked_quote() - maker.less(
                        base_atoms as nat,
                    ).locked_quote()
                    &&& quote is Some && maker.is_bid && maker.order_type != OrderType::Global
                        ==> quote->Some_0 <= released + self@.seat_at(
                        maker.trader_index,
                    ).quote_withdrawable_balance
                    &&& quote is Some ==> match budget {
                        Budget::Base(atoms) => base_atoms <= atoms,
                        Budget::Quote(atoms) => quote->Some_0 <= atoms,
                    }
                },
                Err(e) => e == MarketError::Overflow && self@.order_at(index).locked_quote()
                    > u64::MAX,
            },
    {
        let maker: RestingOrder = self.order_in(index);
        let holds_back: bool = maker.is_bid && maker.order_type != OrderType::Global;
        let lock_before: u64 = if holds_back {
            match maker.price.checked_quote_for_base(maker.num_base_atoms, true) {
                Ok(lock) => lock,
                Err(_) => {
                    return Err(MarketError::Overflow);
                },
            }
        } else {
            0
        };
        assert(self@.is_seat(maker.trader_index));
        let seat: ClaimedSeat = self.seat_in(maker.trader_index);
        let base_atoms: u64 = budget.base_from(&maker);
        let round_up: bool = if taker.rounds_toward_taker || maker.order_type
            == OrderType::Reverse {
            !taker.is_bid
        } else {
            taker.is_bid
        };
        let asked: Option<u64> = match maker.price.checked_quote_for_base(base_atoms, round_up) {
            Ok(quote) => Some(quote),
            Err(_) => None,
        };
        let allowed: Option<u64> = match budget {
            Budget::Base(_) => asked,
            Budget::Quote(atoms) => match asked {
                Some(quote) => if quote <= atoms {
                    Some(quote)
                } else {
                    Some(atoms)
                },
                None => Some(atoms),
            },
        };
        assert(stands_for(
            allowed,
            budget.allowed_quote(maker.price.quote_for_base(base_atoms as nat, round_up)),
        ));
        if holds_back {
            proof {
                lemma_quote_monotonic(
                    maker.price,
                    (maker.num_base_atoms - base_atoms) as nat,
                    maker.num_base_atoms as nat,
                    true,
                );
            }
            let lock_after: u64 = match maker.price.checked_quote_for_base(
                maker.num_base_atoms - base_atoms,
                true,
            ) {
                Ok(lock) => lock,
                Err(_) => unreached(),
            };
            let released: u64 = lock_before - lock_after;
            let reach: u128 = released as u128 + seat.quote_withdrawable_balance as u128;
            let quote: Option<u64> = match allowed {
                Some(quote) => if quote as u128 <= reach {
                    Some(quote)
                } else {
                    Some(reach as u64)
                },
                None => if reach <= u64::MAX as u128 {
                    Some(reach as u64)
                } else {
                    None
                },
            };
            Ok((base_atoms, quote, released))
        } else {
            Ok((base_atoms, allowed, 0))
        }
    }

    /// Fills the maker at `index`. A fill that fails changes nothing.
    fn trade(
        &mut self,
        index: DataIndex,
        base_atoms: u64,
        quote_atoms: u64,
        released: u64,
        budget: Budget,
        globals: &mut GlobalAccounts,
    ) -> (outcome: StepOutcome)
        requires
            old(self).wf(),
            old(self)@.is_order(index),
            0 < base_atoms <= old(self)@.order_at(index).num_base_atoms,
            released == old(self)@.order_at(index).locked_quote() - old(self)@.order_at(
                index,
            ).less(base_atoms as nat).locked_quote(),
            old(self)@.order_at(index).is_bid && old(self)@.order_at(index).order_type
                != OrderType::Global ==> quote_atoms <= released + old(self)@.seat_at(
                old(self)@.order_at(index).trader_index,
            ).quote_withdrawable_balance,
            old(self)@.order_at(index).order_type == OrderType::Reverse && base_atoms < old(self)@.order_at(index).num_base_atoms ==> old(self)@.free.len() > 0,
            old(self)@.order_at(index).order_type == OrderType::Global ==> old(globals)@.backing(
                !old(self)@.order_at(index).is_bid,
                old(self)@.seat_at(old(self)@.order_at(index).trader_index).trader@,
            ) >= if old(self)@.order_at(index).is_bid {
                quote_atoms
            } else {
                base_atoms
            },
            match budget {
                Budget::Base(atoms) => base_atoms <= atoms,
                Budget::Quote(atoms) => quote_atoms <= atoms,
            },
        ensures
            final(self).wf(),
            step_agrees(
                old(self)@.trade(
                    index,
                    base_atoms as nat,
                    quote_atoms as nat,
                    budget,
                    old(globals)@,
                ),
                outcome,
                old(self)@,
                old(globals)@,
                final(self)@,
                final(globals)@,
            ),
    {
        let maker: RestingOrder = self.order_in(index);
        assert(self@.is_seat(maker.trader_index));
        let seat: ClaimedSeat = self.seat_in(maker.trader_index);
        let holds_back: bool = maker.is_bid && maker.order_type != OrderType::Global;
        let new_base: u128 = if maker.is_bid {
            seat.base_withdrawable_balance as u128 + base_atoms as u128
        } else {
            seat.base_withdrawable_balance as u128
        };
        let new_quote: u128 = if maker.is_bid {
            if holds_back {
                seat.quote_withdrawable_balance as u128 + released as u128 - quote_atoms as u128
            } else {
                seat.quote_withdrawable_balance as u128
            }
        } else {
            seat.quote_withdrawable_balance as u128 + quote_atoms as u128
        };
        if new_base > u64::MAX as u128 || new_quote > u64::MAX as u128 {
            return StepOutcome::Failed(MarketError::Overflow);
        }
        let credited = ClaimedSeat {
            base_withdrawable_balance: new_base as u64,
            quote_withdrawable_balance: new_quote as u64,
            ..seat
        };
        proof {
            self@.lemma_with_seat_wf(maker.trader_index, credited);
        }
        self.blocks.set(maker.trader_index as usize, Block::Seat(credited));
        if base_atoms == maker.num_base_atoms {
            self.remove_order(index);
        } else {
            let left = RestingOrder { num_base_atoms: maker.num_base_atoms - base_atoms, ..maker };
            proof {
                self@.lemma_with_order_wf(index, left);
            }
            self.blocks.set(index as usize, Block::Order(left));
        }
        if maker.order_type == OrderType::Reverse {
            self.flip(&maker, base_atoms);
        }
        if maker.order_type == OrderType::Global {
            globals.debit(
                !maker.is_bid,
                &seat.trader,
                if maker.is_bid {
                    quote_atoms
                } else {
                    base_atoms
                },
            );
        }
        let remaining: Budget = match budget {
            Budget::Base(atoms) => Budget::Base(atoms - base_atoms),
            Budget::Quote(atoms) => Budget::Quote(atoms - quote_atoms),
        };
        StepOutcome::Traded(
            Fill {
                maker_index: index,
                maker_sequence_number: maker.sequence_number,
                base_atoms,
                quote_atoms,
            },
            remaining,
        )
    }

    /// Takes one step of the walk. A step that fails changes nothing.
    pub(crate) fn match_step(
        &mut self,
        taker: &TakerTerms,
        budget: Budget,
        globals: &mut GlobalAccounts,
        current_slot: u32,
    ) -> (outcome: StepOutcome)
        requires
            old(self).wf(),
        ensures
            final(self).wf(),
            step_agrees(
                old(self)@.match_step(*taker, budget, old(globals)@, current_slot),
                outcome,
                old(self)@,
                old(globals)@,
                final(self)@,
                final(globals)@,
            ),
    {
        let index: DataIndex = if taker.is_bid {
            self.get_asks_best_index()
        } else {
            self.get_bids_best_index()
        };
        if index == NIL {
            return StepOutcome::Stop;
        }
        assert(index == self@.book(!taker.is_bid)[0]);
        let maker: RestingOrder = self.order_in(index);
        if maker.last_valid_slot != 0 && current_slot > maker.last_valid_slot {
            return match self.cancel_order_by_index(index) {
                Ok(()) => StepOutcome::Removed,
                Err(e) => StepOutcome::Failed(e),
            };
        }
        if taker.has_limit {
            let reaches: bool = if taker.is_bid {
                maker.price.value_le(&taker.limit)
            } else {
                taker.limit.value_le(&maker.price)
            };
            if !reaches {
                return StepOutcome::Stop;
            }
        }
        let (base_atoms, quote, released) = match self.plan_fill(taker, budget, index) {
            Ok(plan) => plan,
            Err(e) => {
                return StepOutcome::Failed(e);
            },
        };
        if base_atoms == 0 {
            return StepOutcome::Stop;
        }
        match quote {
            Some(atoms) => {
                if atoms == 0 {
                    return StepOutcome::Stop;
                }
            },
            None => {},
        }
        if maker.order_type == OrderType::Global {
            assert(self@.is_seat(maker.trader_index));
            let seat: ClaimedSeat = self.seat_in(maker.trader_index);
            let backing: u64 = globals.backing(!maker.is_bid, &seat.trader);
            let short: bool = if maker.is_bid {
                match quote {
                    Some(atoms) => backing < atoms,
                    None => true,
                }
            } else {
                backing < base_atoms
            };
            if short {
                self.remove_order(index);
                return StepOutcome::Removed;
            }
        }
        if maker.order_type == OrderType::Reverse && base_atoms < maker.num_base_atoms
            && self.header.free_list_head == NIL {
            proof {
                if self@.free.len() > 0 {
                    assert(self@.is_free(self@.free[0]));
                }
            }
            return StepOutcome::OutOfBlocks;
        }
        match quote {
            Some(quote_atoms) => self.trade(
                index,
                base_atoms,
                quote_atoms,
                released,
                budget,
                globals,
            ),
            None => StepOutcome::Failed(MarketError::Overflow),
        }
    }

    /// Number of orders in the book that a taker walks.
    fn opposing_len(&self, taker: &TakerTerms) -> (len: usize)
        ensures
            len == self@.book(!taker.is_bid).len(),
    {
        if taker.is_bid {
            self.asks.len()
        } else {
            self.bids.len()
        }
    }

    /// Walks the opposing book for a taker with `budget`, and appends every
    /// fill to `fills`. On failure the market and the accounts may be left
    /// part of the way.
    pub(crate) fn run_match(
        &mut self,
        taker: &TakerTerms,
        budget: Budget,
        globals: &mut GlobalAccounts,
        current_slot: u32,
        fills: &mut Vec<Fill>,
    ) -> (r: Result<MatchSummary, MarketError>)
        requires
            old(self).wf(),
            old(fills)@.len() == 0,
        ensures
            final(self).wf(),
            match old(self)@.matched(*taker, budget, old(globals)@, current_slot) {
                Ok((market, accounts, summary, all)) => {
                    &&& r == Ok::<MatchSummary, MarketError>(summary)
                    &&& final(self)@ == market
                    &&& final(globals)@ == accounts
                    &&& final(fills)@ == all
                },
                Err(e) => r == Err::<MatchSummary, MarketError>(e),
            },
    {
        let mut summary = MatchSummary {
            base_atoms: 0,
            quote_atoms: 0,
            remaining: budget,
            out_of_blocks: false,
        };
        assert(fills@ =~= Seq::empty());
        loop
            invariant
                self.wf(),
                self@.match_from(*taker, globals@, current_slot, summary, fills@) == old(self)@.matched(*taker, budget, old(globals)@, current_slot),
            decreases self@.book(!taker.is_bid).len(),
        {
            let before: usize = self.opposing_len(taker);
            match self.match_step(taker, summary.remaining, globals, current_slot) {
                StepOutcome::Stop => {
                    return Ok(summary);
                },
                StepOutcome::OutOfBlocks => {
                    summary.out_of_blocks = true;
                    return Ok(summary);
                },
                StepOutcome::Failed(e) => {
                    return Err(e);
                },
                StepOutcome::Removed => {
                    if self.opposing_len(taker) >= before {
                        return Ok(summary);
                    }
                },
                StepOutcome::Traded(fill, remaining) => {
                    let base_atoms: u64 = match summary.base_atoms.checked_add(fill.base_atoms) {
                        Some(atoms) => atoms,
                        None => {
                            return Err(MarketError::Overflow);
                        },
                    };
                    let quote_atoms: u64 = match summary.quote_atoms.checked_add(
                        fill.quote_atoms,
                    ) {
                        Some(atoms) => atoms,
                        None => {
                            return Err(MarketError::Overflow);
                        },
                    };
                    summary = MatchSummary {
                        base_atoms,
                        quote_atoms,
                        remaining,
                        out_of_blocks: false,
                    };
                    fills.push(fill);
                    if self.opposing_len(taker) >= before {
                        return Ok(summary);
                    }
                },
            }
        }
    }
}

} // verus!
