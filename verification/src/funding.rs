//! The funding crank: the periodic payment between longs and shorts.
//!
//! Each crank reads the oracle, caches its price and, once a funding clock is
//! running, charges every open position for the time since the last crank.
//! The rate is the gap between the mark price and the oracle price, as a
//! share of the oracle price scaled by `10^9`, for the part of the funding
//! period that has passed. A positive rate makes longs pay and shorts receive.

use vstd::prelude::*;
use vstd::arithmetic::div_mod::lemma_basic_div;
use vstd::arithmetic::mul::lemma_mul_is_associative;
use hypertree::DataIndex;
use crate::error::MarketError;
use crate::frame::same_role;
use crate::liquidate::{clamp_to_u64, clamp_u64, size_of};
use crate::mark::oracle_book_exponent;
use crate::pool::lemma_totals_alike;
use crate::oracle::{oracle_exponent, oracle_price, oracle_usable, read_pyth_price};
use crate::price::{
    lemma_pow10_monotonic, lemma_pow10_positive, lemma_scale_monotonic, pow10, Price,
};
use crate::seats::magnitude;
use crate::state::{
    long_of, short_of, Block, ClaimedSeat, Market, MarketHeader, MarketView,
};

verus! {

/// Length of the funding period, in seconds.
pub const FUNDING_PERIOD_SECS: i64 = 3600;

/// Scale of the funding rate: a rate of `10^9` is the whole price.
pub const FUNDING_SCALE: i64 = 1_000_000_000;

/// Base atoms for which mark and oracle are compared.
pub const REFERENCE_BASE_ATOMS: u64 = 1_000_000_000;

/// Parameters of the funding crank; it takes none.
pub struct CrankFundingParams {}

impl CrankFundingParams {
    /// The parameters of a funding crank.
    pub fn new() -> (params: Self)
        ensures
            params == (CrankFundingParams {  }),
    {
        CrankFundingParams {  }
    }
}

/// What a crank charged, for the record.
#[derive(Clone, Copy, Debug, PartialEq, Eq, Structural)]
pub struct FundingCrank {
    /// The oracle price that was cached.
    pub oracle_price: u64,
    /// The rate that was charged, scaled by `10^9`.
    pub funding_rate: i64,
    /// The time of the crank.
    pub timestamp: i64,
}

/// `n / d` rounded toward zero, for a positive `d`.
pub open spec fn div_toward_zero(n: int, d: int) -> int
    recommends
        d > 0,
{
    if n >= 0 {
        n / d
    } else {
        -((-n) / d)
    }
}

/// `amount` brought into the range of a signed 64-bit integer.
pub open spec fn clamp_i64(amount: int) -> i64 {
    if amount < i64::MIN {
        i64::MIN
    } else if amount > i64::MAX {
        i64::MAX
    } else {
        amount as i64
    }
}

/// Quote atoms that the reference amount of base is worth at an oracle price
/// of `price * 10^exponent` quote atoms per reference amount, rounded down.
pub open spec fn oracle_reference_quote(price: int, exponent: int) -> int {
    if exponent >= 0 {
        price * pow10(exponent as nat)
    } else {
        price / (pow10((-exponent) as nat) as int)
    }
}

/// The funding rate before it is brought into 64 bits.
pub open spec fn funding_rate_exact(mark_quote: int, oracle_quote: int, elapsed: int) -> int {
    div_toward_zero(
        (mark_quote - oracle_quote) * FUNDING_SCALE * elapsed,
        oracle_quote * FUNDING_PERIOD_SECS,
    )
}

/// The funding rate for `elapsed` seconds, given what the reference amount is
/// worth at the mark and at the oracle. Intermediate values are held in 128
/// bits, and one that does not fit is an overflow.
pub open spec fn funding_rate(mark_quote: int, oracle_quote: int, elapsed: int) -> Result<
    i64,
    MarketError,
> {
    if size_of(mark_quote - oracle_quote) * FUNDING_SCALE * elapsed > i128::MAX || oracle_quote
        * FUNDING_PERIOD_SECS > i128::MAX {
        Err(MarketError::Overflow)
    } else {
        Ok(clamp_i64(funding_rate_exact(mark_quote, oracle_quote, elapsed)))
    }
}

/// What a position pays at a rate; a negative payment is received.
pub open spec fn funding_payment(position_size: int, rate: int) -> int {
    div_toward_zero(position_size * rate, FUNDING_SCALE as int)
}

/// The seat after funding at `rate`: a seat with a position pays out of its
/// margin, which neither falls below zero nor rises past the largest balance.
pub open spec fn funded_seat(seat: ClaimedSeat, rate: i64) -> ClaimedSeat {
    if seat.position_size == 0 {
        seat
    } else {
        ClaimedSeat {
            quote_withdrawable_balance: clamp_u64(
                seat.quote_withdrawable_balance - funding_payment(
                    seat.position_size as int,
                    rate as int,
                ),
            ),
            ..seat
        }
    }
}

/// The block after funding at `rate`.
pub open spec fn funded_block(block: Block, rate: i64) -> Block {
    match block {
        Block::Seat(seat) => Block::Seat(funded_seat(seat, rate)),
        _ => block,
    }
}

impl MarketView {
    /// The market with the oracle price cached on the header.
    pub open spec fn oracle_cached(self, price: u64, exponent: i32) -> MarketView {
        MarketView {
            header: MarketHeader {
                oracle_price_mantissa: price,
                oracle_price_expo: exponent,
                ..self.header
            },
            ..self
        }
    }

    /// The market with its funding clock set to `now`.
    pub open spec fn funding_stamped(self, now: i64) -> MarketView {
        MarketView {
            header: MarketHeader { last_funding_timestamp: now, ..self.header },
            ..self
        }
    }

    /// The market after every seat paid or received funding at `rate`, with
    /// the rate added to the cumulative funding.
    pub open spec fn funding_applied(self, rate: i64) -> MarketView {
        MarketView {
            header: MarketHeader {
                cumulative_funding: clamp_i64(self.header.cumulative_funding + rate),
                ..self.header
            },
            blocks: Seq::new(self.blocks.len(), |i: int| funded_block(self.blocks[i], rate)),
            ..self
        }
    }

    /// Funding keeps the invariant and the sequence of orders: it moves
    /// margins and nothing else.
    pub proof fn lemma_funding_applied_wf(self, rate: i64)
        requires
            self.wf(),
        ensures
            self.funding_applied(rate).wf(),
            self.sequence_continues(self.funding_applied(rate)),
    {
        let after = self.funding_applied(rate);
        self.lemma_same_role_reflexive();
        assert forall|b: int| 0 <= b < self.blocks.len() implies same_role(
            #[trigger] self.blocks[b],
            after.blocks[b],
        ) by {
            assert(same_role(self.blocks[b], self.blocks[b]));
        }
        assert forall|i: int| 0 <= i < self.blocks.len() implies long_of(
            #[trigger] self.blocks[i],
        ) == long_of(after.blocks[i]) && short_of(self.blocks[i])
            == short_of(after.blocks[i]) by {}
        lemma_totals_alike(self.blocks, after.blocks);
        self.lemma_same_shape_wf(after);
        assert forall|b: DataIndex| #[trigger] after.is_order(b) implies self.is_order(b)
            && self.order_at(b).sequence_number == after.order_at(b).sequence_number by {
            assert(same_role(self.blocks[b as int], after.blocks[b as int]));
        }
    }

    /// A funding crank keeps the invariant and the sequence of orders.
    pub proof fn lemma_crank_funding_wf(self, oracle: Seq<u8>, now: i64)
        requires
            self.wf(),
            self.crank_funding(oracle, now) is Ok,
        ensures
            self.crank_funding(oracle, now).unwrap().0.wf(),
            self.sequence_continues(self.crank_funding(oracle, now).unwrap().0),
    {
        let price = oracle_price(oracle) as u64;
        let cached = self.oracle_cached(price, oracle_exponent(oracle) as i32);
        let stamped = cached.funding_stamped(now);
        self.lemma_header_change_wf(cached);
        cached.lemma_header_change_wf(stamped);
        let after = self.crank_funding(oracle, now).unwrap().0;
        if after != cached && after != stamped {
            let rate = self.crank_funding(oracle, now).unwrap().1.unwrap().funding_rate;
            stamped.lemma_funding_applied_wf(rate);
            assert(after == stamped.funding_applied(rate));
        }
    }

    /// What the reference amount is worth at the cached oracle price.
    pub open spec fn oracle_quote(self) -> int {
        oracle_reference_quote(
            self.header.oracle_price_mantissa as int,
            oracle_book_exponent(self.header) + 9,
        )
    }

    /// What a funding crank at time `now` comes to, given the oracle record.
    ///
    /// The oracle price is cached in any case. The first crank only starts
    /// the clock, and a crank for which no time has passed changes nothing
    /// else. Without a mark price, or with an oracle worth nothing at the
    /// reference amount, the clock is reset and nobody pays.
    pub open spec fn crank_funding(self, oracle: Seq<u8>, now: i64) -> Result<
        (MarketView, Option<FundingCrank>),
        MarketError,
    > {
        if !oracle_usable(oracle) {
            Err(MarketError::InvalidOracle)
        } else {
            let price = oracle_price(oracle) as u64;
            let cached = self.oracle_cached(price, oracle_exponent(oracle) as i32);
            let last = self.header.last_funding_timestamp;
            let elapsed = clamp_i64(now - last);
            if last == 0 {
                Ok((cached.funding_stamped(now), None))
            } else if elapsed <= 0 {
                Ok((cached, None))
            } else {
                match cached.mark_price() {
                    Err(_) => Ok((cached.funding_stamped(now), None)),
                    Ok(mark) => {
                        let mark_quote = mark.quote_for_base(REFERENCE_BASE_ATOMS as nat, false);
                        let oracle_quote = cached.oracle_quote();
                        if mark_quote > u64::MAX || oracle_quote > i128::MAX {
                            Err(MarketError::Overflow)
                        } else if oracle_quote <= 0 {
                            Ok((cached.funding_stamped(now), None))
                        } else {
                            match funding_rate(mark_quote as int, oracle_quote, elapsed as int) {
                                Err(e) => Err(e),
                                Ok(rate) => Ok(
                                    (
                                        cached.funding_stamped(now).funding_applied(rate),
                                        Some(
                                            FundingCrank {
                                                oracle_price: price,
                                                funding_rate: rate,
                                                timestamp: now,
                                            },
                                        ),
                                    ),
                                ),
                            }
                        }
                    },
                }
            }
        }
    }
}

/// The sign of a product is the product of the signs.
proof fn lemma_signed_product(a: int, b: int)
    ensures
        a * b == if (a < 0) != (b < 0) {
            -(size_of(a) * size_of(b))
        } else {
            (size_of(a) * size_of(b)) as int
        },
        size_of(a) * size_of(b) >= 0,
{
    let x = size_of(a) as int;
    let y = size_of(b) as int;
    assert(x * y >= 0) by (nonlinear_arith)
        requires
            x >= 0,
            y >= 0,
    {}
    assert(a * b == if (a < 0) != (b < 0) {
        -(x * y)
    } else {
        x * y
    }) by (nonlinear_arith)
        requires
            x == if a >= 0 {
                a
            } else {
                -a
            },
            y == if b >= 0 {
                b
            } else {
                -b
            },
    {}
}

/// Quote atoms that the reference amount of base is worth at an oracle price
/// of `price * 10^exponent`, rounded down; `Overflow` when that needs more
/// than 127 bits.
pub fn compute_oracle_reference_quote(price: u64, exponent: i64) -> (r: Result<i128, MarketError>)
    requires
        exponent > i64::MIN,
    ensures
        match r {
            Ok(quote) => quote == oracle_reference_quote(price as int, exponent as int),
            Err(e) => e == MarketError::Overflow && oracle_reference_quote(
                price as int,
                exponent as int,
            ) > i128::MAX,
        },
{
    if price == 0 {
        proof {
            if exponent >= 0 {
                assert(0 * pow10(exponent as nat) == 0) by (nonlinear_arith);
            } else {
                lemma_pow10_positive((-exponent) as nat);
            }
        }
        return Ok(0);
    }
    if exponent >= 0 {
        let mut acc: u128 = price as u128;
        let mut i: i64 = 0;
        assert(price * pow10(0) == price) by {
            assert(pow10(0) == 1);
        }
        while i < exponent
            invariant
                0 <= i <= exponent,
                acc == price * pow10(i as nat),
                acc <= i128::MAX,
                price > 0,
            decreases exponent - i,
        {
            if acc > (i128::MAX as u128) / 10 {
                proof {
                    lemma_scale_monotonic(price as nat, (i + 1) as nat, exponent as nat);
                    lemma_mul_is_associative(
                        price as int,
                        pow10(i as nat) as int,
                        10,
                    );
                }
                return Err(MarketError::Overflow);
            }
            proof {
                lemma_mul_is_associative(
                    price as int,
                    pow10(i as nat) as int,
                    10,
                );
            }
            acc = acc * 10;
            i = i + 1;
        }
        Ok(acc as i128)
    } else {
        let steps: i64 = -exponent;
        let wide: u128 = price as u128;
        let mut divisor: u128 = 1;
        let mut i: i64 = 0;
        assert(pow10(0) == 1);
        while i < steps
            invariant
                0 <= i <= steps,
                divisor == pow10(i as nat),
                divisor <= wide,
                wide == price,
                steps == -exponent,
            decreases steps - i,
        {
            divisor = divisor * 10;
            i = i + 1;
            if divisor > wide {
                proof {
                    lemma_pow10_monotonic(i as nat, steps as nat);
                    lemma_basic_div(
                        price as int,
                        pow10(steps as nat) as int,
                    );
                }
                return Ok(0);
            }
        }
        proof {
            lemma_pow10_positive(steps as nat);
        }
        Ok((wide / divisor) as i128)
    }
}

/// The funding rate for `elapsed` seconds, given what the reference amount
/// is worth at the mark and at the oracle.
pub fn compute_funding_rate(mark_quote: u64, oracle_quote: i128, elapsed: i64) -> (r: Result<
    i64,
    MarketError,
>)
    requires
        oracle_quote > 0,
        elapsed > 0,
    ensures
        r == funding_rate(mark_quote as int, oracle_quote as int, elapsed as int),
{
    let gap: i128 = mark_quote as i128 - oracle_quote;
    let gap_size: u128 = if gap >= 0 {
        gap as u128
    } else {
        (-gap) as u128
    };
    let seconds: u128 = elapsed as u128;
    let ghost exact_size = size_of(gap as int) * FUNDING_SCALE * elapsed;
    assert(exact_size == gap_size * 1_000_000_000 * seconds);
    let scaled: u128 = match gap_size.checked_mul(FUNDING_SCALE as u128) {
        Some(scaled) => scaled,
        None => {
            proof {
                let partial = gap_size * 1_000_000_000;
                assert(partial * seconds >= partial) by (nonlinear_arith)
                    requires
                        partial >= 0,
                        seconds >= 1,
                {}
            }
            return Err(MarketError::Overflow);
        },
    };
    let numerator: u128 = match scaled.checked_mul(seconds) {
        Some(numerator) => numerator,
        None => {
            return Err(MarketError::Overflow);
        },
    };
    if numerator > i128::MAX as u128 {
        return Err(MarketError::Overflow);
    }
    let denominator: u128 = match (oracle_quote as u128).checked_mul(FUNDING_PERIOD_SECS as u128) {
        Some(denominator) => denominator,
        None => {
            return Err(MarketError::Overflow);
        },
    };
    if denominator > i128::MAX as u128 {
        return Err(MarketError::Overflow);
    }
    let quotient: u128 = numerator / denominator;
    proof {
        assert(quotient <= numerator) by (nonlinear_arith)
            requires
                quotient == numerator / denominator,
                denominator >= 1,
        {}
        let whole = (mark_quote - oracle_quote) * FUNDING_SCALE * elapsed;
        lemma_signed_product(gap as int, FUNDING_SCALE as int);
        lemma_signed_product(gap * FUNDING_SCALE, elapsed as int);
        assert(size_of(gap * FUNDING_SCALE) == size_of(gap as int) * FUNDING_SCALE);
        assert(whole == if gap < 0 {
            -(numerator as int)
        } else {
            numerator as int
        });
    }
    let exact: i128 = if gap >= 0 {
        quotient as i128
    } else {
        -(quotient as i128)
    };
    assert(exact == funding_rate_exact(mark_quote as int, oracle_quote as int, elapsed as int));
    if exact < i64::MIN as i128 {
        Ok(i64::MIN)
    } else if exact > i64::MAX as i128 {
        Ok(i64::MAX)
    } else {
        Ok(exact as i64)
    }
}

/// What a position pays at a rate; a negative payment is received.
pub fn compute_funding_payment(position_size: i64, rate: i64) -> (payment: i128)
    ensures
        payment == funding_payment(position_size as int, rate as int),
        -0x4000_0000_0000_0000_0000_0000_0000_0000 <= payment
            <= 0x4000_0000_0000_0000_0000_0000_0000_0000,
{
    let position: u128 = magnitude(position_size) as u128;
    let speed: u128 = magnitude(rate) as u128;
    assert(position * speed <= 0x4000_0000_0000_0000_0000_0000_0000_0000) by (nonlinear_arith)
        requires
            position <= 0x8000_0000_0000_0000,
            speed <= 0x8000_0000_0000_0000,
    {}
    let quotient: u128 = position * speed / (FUNDING_SCALE as u128);
    proof {
        lemma_signed_product(position_size as int, rate as int);
    }
    if (position_size < 0) != (rate < 0) {
        -(quotient as i128)
    } else {
        quotient as i128
    }
}

/// The seat after funding at `rate`.
pub fn fund_seat(seat: ClaimedSeat, rate: i64) -> (funded: ClaimedSeat)
    ensures
        funded == funded_seat(seat, rate),
{
    if seat.position_size == 0 {
        seat
    } else {
        let payment: i128 = compute_funding_payment(seat.position_size, rate);
        ClaimedSeat {
            quote_withdrawable_balance: clamp_to_u64(
                seat.quote_withdrawable_balance as i128 - payment,
            ),
            ..seat
        }
    }
}

impl Market {
    /// Lets every seat pay or receive funding at `rate`.
    fn apply_funding(&mut self, rate: i64)
        requires
            old(self).wf(),
        ensures
            final(self).wf(),
            final(self)@ == (MarketView {
                blocks: Seq::new(
                    old(self)@.blocks.len(),
                    |i: int| funded_block(old(self)@.blocks[i], rate),
                ),
                ..old(self)@
            }),
    {
        let mut k: usize = 0;
        while k < self.seats.len()
            invariant
                k <= self.seats.len(),
                self.wf(),
                old(self).wf(),
                self@.header == old(self)@.header,
                self@.seats == old(self)@.seats,
                self@.bids == old(self)@.bids,
                self@.asks == old(self)@.asks,
                self@.free == old(self)@.free,
                self@.blocks.len() == old(self)@.blocks.len(),
                forall|j: int|
                    0 <= j < k ==> self@.blocks[(#[trigger] self@.seats[j]) as int] == funded_block(
                        old(self)@.blocks[self@.seats[j] as int],
                        rate,
                    ),
                forall|i: int|
                    0 <= i < self@.blocks.len() && !self@.seats.subrange(0, k as int).contains(
                        i as u32,
                    ) ==> #[trigger] self@.blocks[i] == old(self)@.blocks[i],
            decreases self.seats.len() - k,
        {
            let index: DataIndex = self.seats[k];
            let ghost before = self@;
            proof {
                assert(self@.is_seat(self@.seats[k as int]));
                if self@.seats.subrange(0, k as int).contains(index) {
                    let j = choose|j: int|
                        0 <= j < k && self@.seats.subrange(0, k as int)[j] == index;
                    assert(self@.seats[j] == self@.seats[k as int]);
                }
                assert(self@.blocks[index as int] == old(self)@.blocks[index as int]);
            }
            let seat: ClaimedSeat = self.seat_in(index);
            let funded: ClaimedSeat = fund_seat(seat, rate);
            proof {
                self@.lemma_with_seat_wf(index, funded);
            }
            self.blocks.set(index as usize, Block::Seat(funded));
            proof {
                assert forall|j: int| 0 <= j < k + 1 implies self@.blocks[(
                #[trigger] self@.seats[j]) as int] == funded_block(
                    old(self)@.blocks[self@.seats[j] as int],
                    rate,
                ) by {
                    if j < k {
                        assert(self@.seats[j] != self@.seats[k as int]);
                        assert(before.blocks[before.seats[j] as int] == funded_block(
                            old(self)@.blocks[before.seats[j] as int],
                            rate,
                        ));
                    }
                }
                assert forall|i: int|
                    0 <= i < self@.blocks.len() && !self@.seats.subrange(0, k + 1).contains(
                        i as u32,
                    ) implies #[trigger] self@.blocks[i] == old(self)@.blocks[i] by {
                    assert(self@.seats.subrange(0, k + 1)[k as int] == index);
                    assert(i != index);
                    if before.seats.subrange(0, k as int).contains(i as u32) {
                        let j = choose|j: int|
                            0 <= j < k && before.seats.subrange(0, k as int)[j] == i as u32;
                        assert(self@.seats.subrange(0, k + 1)[j] == i as u32);
                    }
                    assert(before.blocks[i] == old(self)@.blocks[i]);
                }
            }
            k = k + 1;
        }
        proof {
            let target = Seq::new(
                old(self)@.blocks.len(),
                |i: int| funded_block(old(self)@.blocks[i], rate),
            );
            assert forall|i: int| 0 <= i < target.len() implies self@.blocks[i] == target[i] by {
                if old(self)@.blocks[i] is Seat {
                    assert(old(self)@.is_seat(i as u32));
                    assert(old(self)@.seats.contains(i as u32));
                    let j = choose|j: int|
                        0 <= j < old(self)@.seats.len() && old(self)@.seats[j] == i as u32;
                    assert(self@.blocks[self@.seats[j] as int] == funded_block(
                        old(self)@.blocks[self@.seats[j] as int],
                        rate,
                    ));
                } else {
                    if self@.seats.subrange(0, k as int).contains(i as u32) {
                        let j = choose|j: int|
                            0 <= j < k && self@.seats.subrange(0, k as int)[j] == i as u32;
                        assert(old(self)@.is_seat(old(self)@.seats[j]));
                    }
                }
            }
            assert(self@.blocks =~= target);
        }
    }

    /// Runs the funding crank at time `now` against the oracle record
    /// `oracle_data`, and returns what it charged, if it charged anything.
    ///
    /// Fails with `InvalidOracle` when the record is not usable, and with
    /// `Overflow` when a value on the way to the rate does not fit. A failed
    /// crank changes nothing, not even the cached oracle price.
    pub fn process_crank_funding(&mut self, oracle_data: &[u8], now: i64) -> (r: Result<
        Option<FundingCrank>,
        MarketError,
    >)
        requires
            old(self).wf(),
        ensures
            final(self).wf(),
            match old(self)@.crank_funding(oracle_data@, now) {
                Ok((after, record)) => r == Ok::<Option<FundingCrank>, MarketError>(record)
                    && final(self)@ == after,
                Err(e) => r == Err::<Option<FundingCrank>, MarketError>(e) && final(self)@ == old(self)@,
            },
    {
        let (price, exponent, _confidence) = match read_pyth_price(oracle_data) {
            Ok(read) => read,
            Err(e) => {
                return Err(e);
            },
        };
        let saved: MarketHeader = self.header;
        let mantissa: u64 = price as u64;
        let ghost cached = old(self)@.oracle_cached(mantissa, exponent);
        proof {
            old(self)@.lemma_header_change_wf(cached);
            cached.lemma_header_change_wf(cached.funding_stamped(now));
        }
        self.header.oracle_price_mantissa = mantissa;
        self.header.oracle_price_expo = exponent;
        assert(self@ == cached);
        let last: i64 = saved.last_funding_timestamp;
        if last == 0 {
            self.header.last_funding_timestamp = now;
            return Ok(None);
        }
        let gap: i128 = now as i128 - last as i128;
        if gap <= 0 {
            return Ok(None);
        }
        let elapsed: i64 = if gap > i64::MAX as i128 {
            i64::MAX
        } else {
            gap as i64
        };
        let mark: Price = match self.compute_mark_price() {
            Ok(mark) => mark,
            Err(_) => {
                self.header.last_funding_timestamp = now;
                return Ok(None);
            },
        };
        let mark_quote: u64 = match mark.checked_quote_for_base(REFERENCE_BASE_ATOMS, false) {
            Ok(quote) => quote,
            Err(e) => {
                self.header = saved;
                return Err(e);
            },
        };
        let adjusted: i64 = exponent as i64 + self.header.quote_mint_decimals as i64
            - self.header.base_mint_decimals as i64 + 9;
        let oracle_quote: i128 = match compute_oracle_reference_quote(mantissa, adjusted) {
            Ok(quote) => quote,
            Err(e) => {
                self.header = saved;
                return Err(e);
            },
        };
        if oracle_quote <= 0 {
            self.header.last_funding_timestamp = now;
            return Ok(None);
        }
        let rate: i64 = match compute_funding_rate(mark_quote, oracle_quote, elapsed) {
            Ok(rate) => rate,
            Err(e) => {
                self.header = saved;
                return Err(e);
            },
        };
        let total: i128 = self.header.cumulative_funding as i128 + rate as i128;
        let cumulative: i64 = if total < i64::MIN as i128 {
            i64::MIN
        } else if total > i64::MAX as i128 {
            i64::MAX
        } else {
            total as i64
        };
        self.header.last_funding_timestamp = now;
        proof {
            let stamped = cached.funding_stamped(now);
            let counted = MarketView {
                header: MarketHeader { cumulative_funding: cumulative, ..stamped.header },
                ..stamped
            };
            stamped.lemma_header_change_wf(counted);
        }
        self.header.cumulative_funding = cumulative;
        self.apply_funding(rate);
        Ok(Some(FundingCrank { oracle_price: mantissa, funding_rate: rate, timestamp: now }))
    }
}

} // verus!
