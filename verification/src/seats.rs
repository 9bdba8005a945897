//! The trader directory: claiming seats, finding them, and moving funds in
//! and out of their balances.

use vstd::prelude::*;
use vstd::pervasive::unreached;
use hypertree::DataIndex;
use crate::error::MarketError;
use crate::pool::{lemma_totals_bound, lemma_totals_update};
use crate::state::{
    comes_before, comes_before_from, long_of, short_of, tree_nil, Block, ClaimedSeat, Identity,
    Market, MarketHeader, MarketView, NIL,
};

verus! {

/// Whether two identities are the same key.
pub fn same_identity(a: &Identity, b: &Identity) -> (same: bool)
    ensures
        same == (a@ == b@),
{
    let mut i: usize = 0;
    while i < 32
        invariant
            i <= 32,
            a@.len() == 32,
            b@.len() == 32,
            forall|j: int| 0 <= j < i ==> a@[j] == b@[j],
        decreases 32 - i,
    {
        if a[i] != b[i] {
            return false;
        }
        i = i + 1;
    }
    assert(a@ =~= b@);
    true
}

/// No identity comes before itself.
pub proof fn lemma_not_before_itself(a: Seq<u8>, from: int)
    ensures
        !comes_before_from(a, a, from),
    decreases a.len() - from,
{
    if 0 <= from < a.len() {
        lemma_not_before_itself(a, from + 1);
    }
}

/// What comes before something that comes before a third comes before the third.
pub proof fn lemma_before_transitive(a: Seq<u8>, b: Seq<u8>, c: Seq<u8>, from: int)
    requires
        a.len() == b.len(),
        b.len() == c.len(),
        comes_before_from(a, b, from),
        comes_before_from(b, c, from),
    ensures
        comes_before_from(a, c, from),
    decreases a.len() - from,
{
    if 0 <= from < a.len() {
        if a[from] == b[from] && b[from] == c[from] {
            lemma_before_transitive(a, b, c, from + 1);
        }
    }
}

/// Of two identities that agree up to `from`, one comes before the other
/// or they are the same.
pub proof fn lemma_before_total(a: Seq<u8>, b: Seq<u8>, from: int)
    requires
        a.len() == b.len(),
        0 <= from <= a.len(),
        forall|j: int| 0 <= j < from ==> a[j] == b[j],
    ensures
        comes_before_from(a, b, from) || comes_before_from(b, a, from) || a == b,
    decreases a.len() - from,
{
    if from < a.len() {
        if a[from] == b[from] {
            lemma_before_total(a, b, from + 1);
        }
    } else {
        assert(a =~= b);
    }
}

/// How two identities stand to each other.
#[derive(Clone, Copy, Debug, PartialEq, Eq, Structural)]
pub enum Standing {
    Before,
    Same,
    After,
}

/// How `a` stands to `b`: before it, the same, or after it.
pub fn standing(a: &Identity, b: &Identity) -> (r: Standing)
    ensures
        r == Standing::Before <==> comes_before(a@, b@),
        r == Standing::Same <==> a@ == b@,
        r == Standing::After <==> comes_before(b@, a@),
{
    let mut i: usize = 0;
    while i < 32
        invariant
            i <= 32,
            a@.len() == 32,
            b@.len() == 32,
            forall|j: int| 0 <= j < i ==> a@[j] == b@[j],
            comes_before_from(a@, b@, i as int) == comes_before(a@, b@),
            comes_before_from(b@, a@, i as int) == comes_before(b@, a@),
        decreases 32 - i,
    {
        if a[i] < b[i] {
            return Standing::Before;
        }
        if a[i] > b[i] {
            return Standing::After;
        }
        i = i + 1;
    }
    assert(a@ =~= b@);
    Standing::Same
}

impl MarketView {
    /// The market with the seat at `index` replaced.
    pub open spec fn with_seat(self, index: DataIndex, seat: ClaimedSeat) -> MarketView {
        MarketView { blocks: self.blocks.update(index as int, Block::Seat(seat)), ..self }
    }

    /// Whether `trader` has claimed a seat.
    pub open spec fn has_trader(self, trader: Seq<u8>) -> bool {
        exists|b: DataIndex| self.is_seat(b) && self.seat_at(b).trader@ == trader
    }

    /// First position at or after `from` whose seat does not come before
    /// `trader`.
    pub open spec fn seat_slot_from(self, trader: Seq<u8>, from: int) -> int
        decreases self.seats.len() - from,
    {
        if 0 <= from < self.seats.len() && comes_before(
            self.seat_at(self.seats[from]).trader@,
            trader,
        ) {
            self.seat_slot_from(trader, from + 1)
        } else {
            from
        }
    }

    /// Position that a seat for `trader` takes in the seat index: behind
    /// every seat whose trader comes before.
    pub open spec fn seat_slot(self, trader: Seq<u8>) -> int {
        self.seat_slot_from(trader, 0)
    }

    /// The market after `trader` took the head of the free list as a seat
    /// with empty balances and no position.
    pub open spec fn seat_claimed(self, trader: Identity) -> MarketView {
        let index = self.free[0];
        MarketView {
            header: MarketHeader { free_list_head: self.free_next(0), ..self.header },
            blocks: self.blocks.update(
                index as int,
                Block::Seat(
                    ClaimedSeat {
                        trader,
                        base_withdrawable_balance: 0,
                        quote_withdrawable_balance: 0,
                        position_size: 0,
                        quote_cost_basis: 0,
                    },
                ),
            ),
            seats: self.seats.insert(self.seat_slot(trader@), index),
            free: self.free.drop_first(),
            ..self
        }
    }

    /// What claiming a seat for `trader` comes to: the trader must not have a
    /// seat yet, and a free block must be there to hold it.
    pub open spec fn claim_seat(self, trader: Identity) -> Result<MarketView, MarketError> {
        if self.has_trader(trader@) {
            Err(MarketError::InvalidArgument)
        } else if self.free.len() == 0 {
            Err(MarketError::Capacity)
        } else {
            Ok(self.seat_claimed(trader))
        }
    }

    /// What crediting `amount` atoms to the seat at `index` comes to.
    pub open spec fn deposit(self, index: DataIndex, is_base: bool, amount: u64) -> Result<
        MarketView,
        MarketError,
    > {
        if !self.is_seat(index) {
            Err(MarketError::NotFound)
        } else {
            let seat = self.seat_at(index);
            if is_base {
                if seat.base_withdrawable_balance + amount > u64::MAX {
                    Err(MarketError::Overflow)
                } else {
                    Ok(
                        self.with_seat(
                            index,
                            ClaimedSeat {
                                base_withdrawable_balance: (seat.base_withdrawable_balance
                                    + amount) as u64,
                                ..seat
                            },
                        ),
                    )
                }
            } else {
                if seat.quote_withdrawable_balance + amount > u64::MAX {
                    Err(MarketError::Overflow)
                } else {
                    Ok(
                        self.with_seat(
                            index,
                            ClaimedSeat {
                                quote_withdrawable_balance: (seat.quote_withdrawable_balance
                                    + amount) as u64,
                                ..seat
                            },
                        ),
                    )
                }
            }
        }
    }

    /// What debiting `amount` atoms from the seat at `index` comes to. Only
    /// the withdrawable balance counts: funds locked in orders are out of reach.
    pub open spec fn withdraw(self, index: DataIndex, is_base: bool, amount: u64) -> Result<
        MarketView,
        MarketError,
    > {
        if !self.is_seat(index) {
            Err(MarketError::NotFound)
        } else {
            let seat = self.seat_at(index);
            if is_base {
                if seat.base_withdrawable_balance < amount {
                    Err(MarketError::InsufficientFunds)
                } else {
                    Ok(
                        self.with_seat(
                            index,
                            ClaimedSeat {
                                base_withdrawable_balance: (seat.base_withdrawable_balance
                                    - amount) as u64,
                                ..seat
                            },
                        ),
                    )
                }
            } else {
                if seat.quote_withdrawable_balance < amount {
                    Err(MarketError::InsufficientFunds)
                } else {
                    Ok(
                        self.with_seat(
                            index,
                            ClaimedSeat {
                                quote_withdrawable_balance: (seat.quote_withdrawable_balance
                                    - amount) as u64,
                                ..seat
                            },
                        ),
                    )
                }
            }
        }
    }

    /// What giving the seat at `index` a new position comes to: the header's
    /// totals follow the change, and must still fit.
    pub open spec fn set_position(self, index: DataIndex, position_size: i64, quote_cost_basis: u64)
        -> Result<MarketView, MarketError> {
        if !self.is_seat(index) {
            Err(MarketError::NotFound)
        } else {
            let seat = ClaimedSeat { position_size, quote_cost_basis, ..self.seat_at(index) };
            let long = self.header.total_long_base_atoms - long_of(self.blocks[index as int])
                + long_of(Block::Seat(seat));
            let short = self.header.total_short_base_atoms - short_of(self.blocks[index as int])
                + short_of(Block::Seat(seat));
            if long > u64::MAX || short > u64::MAX {
                Err(MarketError::Overflow)
            } else {
                Ok(
                    MarketView {
                        header: MarketHeader {
                            total_long_base_atoms: long as u64,
                            total_short_base_atoms: short as u64,
                            ..self.header
                        },
                        ..self.with_seat(index, seat)
                    },
                )
            }
        }
    }

    /// The slot lies in the seat index, everything before it comes before
    /// the trader, and what stands at it does not.
    pub proof fn lemma_seat_slot_from(self, trader: Seq<u8>, from: int)
        requires
            0 <= from <= self.seats.len(),
        ensures
            from <= self.seat_slot_from(trader, from) <= self.seats.len(),
            forall|k: int|
                from <= k < self.seat_slot_from(trader, from) ==> comes_before(
                    self.seat_at(#[trigger] self.seats[k]).trader@,
                    trader,
                ),
            self.seat_slot_from(trader, from) < self.seats.len() ==> !comes_before(
                self.seat_at(self.seats[self.seat_slot_from(trader, from)]).trader@,
                trader,
            ),
        decreases self.seats.len() - from,
    {
        if from < self.seats.len() && comes_before(self.seat_at(self.seats[from]).trader@, trader) {
            self.lemma_seat_slot_from(trader, from + 1);
        }
    }

    /// A position that parts the seats before a trader from the others is
    /// the trader's slot.
    pub proof fn lemma_seat_slot_is(self, trader: Seq<u8>, position: int, from: int)
        requires
            0 <= from <= position <= self.seats.len(),
            forall|k: int|
                from <= k < position ==> comes_before(
                    self.seat_at(#[trigger] self.seats[k]).trader@,
                    trader,
                ),
            position < self.seats.len() ==> !comes_before(
                self.seat_at(self.seats[position]).trader@,
                trader,
            ),
        ensures
            self.seat_slot_from(trader, from) == position,
        decreases position - from,
    {
        if from < position {
            assert(comes_before(self.seat_at(self.seats[from]).trader@, trader));
            self.lemma_seat_slot_is(trader, position, from + 1);
        }
    }

    /// No two seats belong to the same trader.
    pub proof fn lemma_traders_distinct(self, a: DataIndex, b: DataIndex)
        requires
            self.wf(),
            self.is_seat(a),
            self.is_seat(b),
            a != b,
        ensures
            self.seat_at(a).trader@ != self.seat_at(b).trader@,
    {
        assert(self.seats.contains(a));
        assert(self.seats.contains(b));
        let i = choose|i: int| 0 <= i < self.seats.len() && self.seats[i] == a;
        let j = choose|j: int| 0 <= j < self.seats.len() && self.seats[j] == b;
        lemma_not_before_itself(self.seat_at(a).trader@, 0);
        if i < j {
            assert(comes_before(
                self.seat_at(self.seats[i]).trader@,
                self.seat_at(self.seats[j]).trader@,
            ));
        } else {
            assert(comes_before(
                self.seat_at(self.seats[j]).trader@,
                self.seat_at(self.seats[i]).trader@,
            ));
        }
    }

    /// The seat of a trader is found under the trader's identity and under no other.
    pub proof fn lemma_trader_index(self, trader: Seq<u8>)
        requires
            self.wf(),
        ensures
            self.has_trader(trader) ==> self.is_seat(self.trader_index(trader)) && self.seat_at(
                self.trader_index(trader),
            ).trader@ == trader,
            !self.has_trader(trader) ==> self.trader_index(trader) == NIL,
            forall|b: DataIndex|
                #[trigger] self.is_seat(b) && self.seat_at(b).trader@ == trader
                    ==> self.trader_index(trader) == b,
    {
        if self.has_trader(trader) {
            let found = self.trader_index(trader);
            assert(self.is_seat(found) && self.seat_at(found).trader@ == trader);
            assert forall|b: DataIndex|
                #[trigger] self.is_seat(b) && self.seat_at(b).trader@ == trader implies found
                == b by {
                if found != b {
                    self.lemma_traders_distinct(found, b);
                }
            }
        }
    }

    /// Rewriting a seat without touching its trader or its position keeps the invariant.
    pub proof fn lemma_with_seat_wf(self, index: DataIndex, seat: ClaimedSeat)
        requires
            self.wf(),
            self.is_seat(index),
            seat.trader@ == self.seat_at(index).trader@,
            seat.position_size == self.seat_at(index).position_size,
        ensures
            self.with_seat(index, seat).wf(),
    {
        let after = self.with_seat(index, seat);
        lemma_totals_update(self.blocks, index as int, Block::Seat(seat));
        self.lemma_one_block_same_shape(after, index as int);
        self.lemma_same_shape_wf(after);
    }

    /// Rewriting the balances of a seat gives a market that succeeds the old one.
    pub proof fn lemma_with_seat_succeeds(self, index: DataIndex, seat: ClaimedSeat)
        requires
            self.wf(),
            self.is_seat(index),
            seat.trader@ == self.seat_at(index).trader@,
            seat.position_size == self.seat_at(index).position_size,
            seat.quote_cost_basis == self.seat_at(index).quote_cost_basis,
        ensures
            self.with_seat(index, seat).succeeds(self),
    {
        let after = self.with_seat(index, seat);
        lemma_totals_update(self.blocks, index as int, Block::Seat(seat));
        self.lemma_one_block_same_shape(after, index as int);
        assert forall|b: DataIndex| #[trigger] self.is_seat(b) implies after.seat_at(b).position_size
            == self.seat_at(b).position_size && after.seat_at(b).quote_cost_basis == self.seat_at(
            b,
        ).quote_cost_basis by {
            if b != index {
                assert(after.blocks[b as int] == self.blocks[b as int]);
            }
        }
        self.lemma_same_shape_succeeds(after);
    }

    /// Claiming a seat keeps the invariant.
    pub proof fn lemma_seat_claimed_wf(self, trader: Identity)
        requires
            self.wf(),
            !self.has_trader(trader@),
            self.free.len() > 0,
        ensures
            self.seat_claimed(trader).wf(),
    {
        let after = self.seat_claimed(trader);
        let index = self.free[0];
        assert(self.is_free(index));
        assert forall|b: DataIndex| b < self.blocks.len() && b != index implies after.blocks[b as int]
            == self.blocks[b as int] by {}
        self.lemma_same_role_reflexive();
        self.lemma_books_kept(after);
        self.lemma_free_popped(after);
        // seats
        let slot = self.seat_slot(trader@);
        self.lemma_seat_slot_from(trader@, 0);
        self.seats.insert_ensures(slot, index);
        assert forall|k: int| 0 <= k < self.seats.len() implies #[trigger] self.seats[k]
            != index by {
            assert(self.is_seat(self.seats[k]));
        }
        assert forall|k: int| slot < k < after.seats.len() implies #[trigger] after.seats[k]
            == self.seats[k - 1] by {
            assert(self.seats.insert(slot, index)[(k - 1) + 1] == self.seats[k - 1]);
        }
        assert forall|i: int, j: int|
            0 <= i < after.seats.len() && 0 <= j < after.seats.len() && i
                != j implies after.seats[i] != after.seats[j] by {
            let oi = if i < slot {
                i
            } else {
                i - 1
            };
            let oj = if j < slot {
                j
            } else {
                j - 1
            };
            if i != slot && j != slot {
                assert(self.seats[oi] != self.seats[oj]);
            } else if i == slot {
                assert(self.seats[oj] != index);
            } else {
                assert(self.seats[oi] != index);
            }
        }
        assert forall|k: int| 0 <= k < after.seats.len() implies after.is_seat(
            #[trigger] after.seats[k],
        ) by {
            if k < slot {
                assert(self.is_seat(self.seats[k]));
            } else if k > slot {
                assert(self.is_seat(self.seats[k - 1]));
            }
        }
        assert forall|b: DataIndex| #[trigger] after.is_seat(b) implies after.seats.contains(b) by {
            if b == index {
                assert(after.seats[slot] == b);
            } else {
                assert(self.is_seat(b));
                let k = choose|k: int| 0 <= k < self.seats.len() && self.seats[k] == b;
                if k < slot {
                    assert(after.seats[k] == b);
                } else {
                    assert(after.seats[k + 1] == b);
                }
            }
        }
        assert forall|i: int, j: int| 0 <= i < j < after.seats.len() implies comes_before(
            after.seat_at(#[trigger] after.seats[i]).trader@,
            after.seat_at(#[trigger] after.seats[j]).trader@,
        ) by {
            let oi = if i < slot {
                i
            } else {
                i - 1
            };
            let oj = if j < slot {
                j
            } else {
                j - 1
            };
            if i != slot && j != slot {
                assert(self.is_seat(self.seats[oi]));
                assert(self.is_seat(self.seats[oj]));
                assert(comes_before(
                    self.seat_at(self.seats[oi]).trader@,
                    self.seat_at(self.seats[oj]).trader@,
                ));
            } else if j == slot {
                assert(self.is_seat(self.seats[oi]));
                assert(comes_before(self.seat_at(self.seats[oi]).trader@, trader@));
            } else {
                assert(self.is_seat(self.seats[oj]));
                assert(self.is_seat(self.seats[slot]));
                let at_slot = self.seat_at(self.seats[slot]).trader@;
                let later = self.seat_at(self.seats[oj]).trader@;
                lemma_before_total(trader@, at_slot, 0);
                assert(trader@ != at_slot);
                if oj > slot {
                    assert(comes_before(at_slot, later));
                    lemma_before_transitive(trader@, at_slot, later, 0);
                }
            }
        }
        lemma_totals_update(self.blocks, index as int, after.blocks[index as int]);
    }

    /// Giving a seat a new position keeps the invariant.
    pub proof fn lemma_set_position_wf(self, index: DataIndex, position_size: i64, quote_cost_basis: u64)
        requires
            self.wf(),
            self.set_position(index, position_size, quote_cost_basis) is Ok,
        ensures
            self.set_position(index, position_size, quote_cost_basis).unwrap().wf(),
    {
        let after = self.set_position(index, position_size, quote_cost_basis).unwrap();
        lemma_totals_update(self.blocks, index as int, after.blocks[index as int]);
        self.lemma_one_block_same_shape(after, index as int);
        self.lemma_same_shape_wf(after);
    }
}

impl Market {
    /// Where `trader` stands in the seat index: at the position of the
    /// trader's seat, or at the slot that a seat of the trader would take.
    fn locate(&self, trader: &Identity) -> (r: (usize, bool))
        requires
            self.wf(),
        ensures
            r.0 <= self@.seats.len(),
            r.1 ==> r.0 < self@.seats.len() && self@.seat_at(self@.seats[r.0 as int]).trader@
                == trader@,
            !r.1 ==> r.0 == self@.seat_slot(trader@) && !self@.has_trader(trader@),
    {
        let mut low: usize = 0;
        let mut high: usize = self.seats.len();
        while low < high
            invariant
                low <= high <= self.seats.len(),
                self.wf(),
                forall|k: int|
                    0 <= k < low ==> comes_before(
                        self@.seat_at(#[trigger] self@.seats[k]).trader@,
                        trader@,
                    ),
                forall|k: int|
                    high <= k < self@.seats.len() ==> comes_before(
                        trader@,
                        self@.seat_at(#[trigger] self@.seats[k]).trader@,
                    ),
            decreases high - low,
        {
            let middle: usize = low + (high - low) / 2;
            assert(self@.is_seat(self@.seats[middle as int]));
            let seat: ClaimedSeat = self.seat_here(self.seats[middle]);
            match standing(&seat.trader, trader) {
                Standing::Same => {
                    return (middle, true);
                },
                Standing::Before => {
                    proof {
                        assert forall|k: int| 0 <= k < middle + 1 implies comes_before(
                            self@.seat_at(#[trigger] self@.seats[k]).trader@,
                            trader@,
                        ) by {
                            if k < middle {
                                assert(self@.is_seat(self@.seats[k]));
                                lemma_before_transitive(
                                    self@.seat_at(self@.seats[k]).trader@,
                                    seat.trader@,
                                    trader@,
                                    0,
                                );
                            }
                        }
                    }
                    low = middle + 1;
                },
                Standing::After => {
                    proof {
                        assert forall|k: int| middle <= k < self@.seats.len() implies comes_before(
                            trader@,
                            self@.seat_at(#[trigger] self@.seats[k]).trader@,
                        ) by {
                            if k > middle {
                                assert(self@.is_seat(self@.seats[k]));
                                lemma_before_transitive(
                                    trader@,
                                    seat.trader@,
                                    self@.seat_at(self@.seats[k]).trader@,
                                    0,
                                );
                            }
                        }
                    }
                    high = middle;
                },
            }
        }
        proof {
            lemma_not_before_itself(trader@, 0);
            if low < self.seats.len() {
                let here = self@.seat_at(self@.seats[low as int]).trader@;
                assert(self@.is_seat(self@.seats[low as int]));
                assert(comes_before(trader@, here));
                if comes_before(here, trader@) {
                    lemma_before_transitive(trader@, here, trader@, 0);
                }
            }
            self@.lemma_seat_slot_is(trader@, low as int, 0);
            if self@.has_trader(trader@) {
                let b = choose|b: DataIndex| self@.is_seat(b) && self@.seat_at(b).trader@ == trader@;
                assert(self@.seats.contains(b));
                let k = choose|k: int| 0 <= k < self@.seats.len() && self@.seats[k] == b;
                if k < low {
                    assert(comes_before(self@.seat_at(self@.seats[k]).trader@, trader@));
                } else {
                    assert(comes_before(trader@, self@.seat_at(self@.seats[k]).trader@));
                }
            }
        }
        (low, false)
    }

    /// The seat in a block that is known to hold one.
    fn seat_here(&self, index: DataIndex) -> (seat: ClaimedSeat)
        requires
            self@.is_seat(index),
        ensures
            seat == self@.seat_at(index),
    {
        match self.blocks[index as usize] {
            Block::Seat(seat) => seat,
            _ => unreached(),
        }
    }

    /// Block of the seat that `trader` owns, or `NIL` when the trader has none.
    pub fn get_trader_index(&self, trader: &Identity) -> (index: DataIndex)
        requires
            self.wf(),
        ensures
            index == self@.trader_index(trader@),
            index != NIL <==> self@.has_trader(trader@),
            index != NIL ==> self@.is_seat(index) && self@.seat_at(index).trader@ == trader@,
    {
        proof {
            self@.lemma_trader_index(trader@);
        }
        let (position, found) = self.locate(trader);
        if found {
            assert(self@.is_seat(self@.seats[position as int]));
            self.seats[position]
        } else {
            tree_nil()
        }
    }

    /// The seat held in block `index`, if that block holds one.
    pub fn seat(&self, index: DataIndex) -> (seat: Option<ClaimedSeat>)
        ensures
            seat == if self@.is_seat(index) {
                Some(self@.seat_at(index))
            } else {
                None
            },
    {
        if (index as usize) < self.blocks.len() {
            match self.blocks[index as usize] {
                Block::Seat(seat) => Some(seat),
                _ => None,
            }
        } else {
            None
        }
    }

    /// The blocks of all claimed seats, in the order of their traders.
    pub fn seat_indices(&self) -> (indices: Vec<DataIndex>)
        ensures
            indices@ == self@.seats,
    {
        self.seats.clone()
    }

    /// Claims a seat for `trader` and returns its block.
    ///
    /// Fails with `InvalidArgument` when the trader already has a seat and
    /// with `Capacity` when the free list is empty.
    pub fn claim_seat(&mut self, trader: Identity) -> (r: Result<u32, MarketError>)
        requires
            old(self).wf(),
        ensures
            final(self).wf(),
            match old(self)@.claim_seat(trader) {
                Ok(after) => r == Ok::<u32, MarketError>(old(self)@.free[0]) && final(self)@
                    == after,
                Err(e) => r == Err::<u32, MarketError>(e) && final(self)@ == old(self)@,
            },
    {
        let (slot, found) = self.locate(&trader);
        if found {
            assert(self@.is_seat(self@.seats[slot as int]));
            return Err(MarketError::InvalidArgument);
        }
        let index: DataIndex = self.header.free_list_head;
        if index == NIL {
            return Err(MarketError::Capacity);
        }
        proof {
            assert(self@.is_free(self@.free[0]));
            self@.lemma_seat_claimed_wf(trader);
        }
        let next: DataIndex = match self.blocks[index as usize] {
            Block::Free { next } => next,
            _ => unreached(),
        };
        self.blocks.set(
            index as usize,
            Block::Seat(
                ClaimedSeat {
                    trader,
                    base_withdrawable_balance: 0,
                    quote_withdrawable_balance: 0,
                    position_size: 0,
                    quote_cost_basis: 0,
                },
            ),
        );
        self.header.free_list_head = next;
        self.seats.insert(slot, index);
        self.free = Ghost(self.free@.drop_first());
        Ok(index)
    }

    /// Credits `amount` atoms of the base or the quote asset to a seat.
    ///
    /// Fails with `NotFound` when `index` holds no seat and with `Overflow`
    /// when the balance would exceed 64 bits.
    pub fn deposit(&mut self, index: DataIndex, is_base: bool, amount: u64) -> (r: Result<
        (),
        MarketError,
    >)
        requires
            old(self).wf(),
        ensures
            final(self).wf(),
            match old(self)@.deposit(index, is_base, amount) {
                Ok(after) => r is Ok && final(self)@ == after,
                Err(e) => r == Err::<(), MarketError>(e) && final(self)@ == old(self)@,
            },
    {
        let seat: ClaimedSeat = match self.seat(index) {
            Some(seat) => seat,
            None => {
                return Err(MarketError::NotFound);
            },
        };
        let updated: ClaimedSeat = if is_base {
            match seat.base_withdrawable_balance.checked_add(amount) {
                Some(balance) => ClaimedSeat { base_withdrawable_balance: balance, ..seat },
                None => {
                    return Err(MarketError::Overflow);
                },
            }
        } else {
            match seat.quote_withdrawable_balance.checked_add(amount) {
                Some(balance) => ClaimedSeat { quote_withdrawable_balance: balance, ..seat },
                None => {
                    return Err(MarketError::Overflow);
                },
            }
        };
        proof {
            self@.lemma_with_seat_wf(index, updated);
        }
        self.blocks.set(index as usize, Block::Seat(updated));
        Ok(())
    }

    /// Debits `amount` atoms of the base or the quote asset from a seat.
    ///
    /// Fails with `NotFound` when `index` holds no seat and with
    /// `InsufficientFunds` when the withdrawable balance is below `amount`.
    pub fn withdraw(&mut self, index: DataIndex, is_base: bool, amount: u64) -> (r: Result<
        (),
        MarketError,
    >)
        requires
            old(self).wf(),
        ensures
            final(self).wf(),
            match old(self)@.withdraw(index, is_base, amount) {
                Ok(after) => r is Ok && final(self)@ == after,
                Err(e) => r == Err::<(), MarketError>(e) && final(self)@ == old(self)@,
            },
    {
        let seat: ClaimedSeat = match self.seat(index) {
            Some(seat) => seat,
            None => {
                return Err(MarketError::NotFound);
            },
        };
        let updated: ClaimedSeat = if is_base {
            if seat.base_withdrawable_balance < amount {
                return Err(MarketError::InsufficientFunds);
            }
            ClaimedSeat {
                base_withdrawable_balance: seat.base_withdrawable_balance - amount,
                ..seat
            }
        } else {
            if seat.quote_withdrawable_balance < amount {
                return Err(MarketError::InsufficientFunds);
            }
            ClaimedSeat {
                quote_withdrawable_balance: seat.quote_withdrawable_balance - amount,
                ..seat
            }
        };
        proof {
            self@.lemma_with_seat_wf(index, updated);
        }
        self.blocks.set(index as usize, Block::Seat(updated));
        Ok(())
    }

    /// Gives the seat at `index` a new position and cost basis, and brings
    /// the header's long and short totals in line.
    ///
    /// Fails with `NotFound` when `index` holds no seat and with `Overflow`
    /// when a total would exceed 64 bits.
    pub fn set_position(&mut self, index: DataIndex, position_size: i64, quote_cost_basis: u64) -> (r:
        Result<(), MarketError>)
        requires
            old(self).wf(),
        ensures
            final(self).wf(),
            match old(self)@.set_position(index, position_size, quote_cost_basis) {
                Ok(after) => r is Ok && final(self)@ == after,
                Err(e) => r == Err::<(), MarketError>(e) && final(self)@ == old(self)@,
            },
    {
        let seat: ClaimedSeat = match self.seat(index) {
            Some(seat) => seat,
            None => {
                return Err(MarketError::NotFound);
            },
        };
        proof {
            lemma_totals_bound(self@.blocks, index as int);
        }
        let old_long: u64 = if seat.position_size > 0 {
            seat.position_size as u64
        } else {
            0
        };
        let old_short: u64 = magnitude(seat.position_size) - old_long;
        let new_long: u64 = if position_size > 0 {
            position_size as u64
        } else {
            0
        };
        let new_short: u64 = magnitude(position_size) - new_long;
        let long: u64 = match (self.header.total_long_base_atoms - old_long).checked_add(new_long) {
            Some(long) => long,
            None => {
                return Err(MarketError::Overflow);
            },
        };
        let short: u64 = match (self.header.total_short_base_atoms - old_short).checked_add(
            new_short,
        ) {
            Some(short) => short,
            None => {
                return Err(MarketError::Overflow);
            },
        };
        proof {
            self@.lemma_set_position_wf(index, position_size, quote_cost_basis);
        }
        self.blocks.set(
            index as usize,
            Block::Seat(ClaimedSeat { position_size, quote_cost_basis, ..seat }),
        );
        self.header.total_long_base_atoms = long;
        self.header.total_short_base_atoms = short;
        Ok(())
    }
}

/// The size of a signed amount.
pub fn magnitude(amount: i64) -> (size: u64)
    ensures
        size == if amount >= 0 {
            amount as int
        } else {
            -amount
        },
{
    if amount >= 0 {
        amount as u64
    } else if amount == i64::MIN {
        0x8000_0000_0000_0000
    } else {
        (-amount) as u64
    }
}

} // verus!
