//! Fixed-precision prices and the conversions between base and quote atoms.
//!
//! A price is `mantissa * 10^exponent` quote atoms per base atom. Conversions
//! are exact up to one rounding step whose direction the caller picks; a
//! result that does not fit in 64 bits is reported, never truncated.

use vstd::prelude::*;
use vstd::arithmetic::div_mod::{lemma_fundamental_div_mod, lemma_small_mod, lemma_basic_div};
use vstd::arithmetic::mul::{lemma_mul_inequality, lemma_mul_is_associative, lemma_mul_strict_inequality};
use crate::error::MarketError;

verus! {

/// Ten to the power `n`.
pub open spec fn pow10(n: nat) -> nat
    decreases n,
{
    if n == 0 {
        1
    } else {
        10 * pow10((n - 1) as nat)
    }
}

/// `n / d`, rounded up when `round_up` is set and the division leaves a remainder.
pub open spec fn div_round(n: nat, d: nat, round_up: bool) -> nat
    recommends
        d > 0,
{
    if round_up && n % d != 0 {
        n / d + 1
    } else {
        n / d
    }
}

/// A power of ten is at least one.
pub proof fn lemma_pow10_positive(n: nat)
    ensures
        pow10(n) >= 1,
    decreases n,
{
    if n > 0 {
        lemma_pow10_positive((n - 1) as nat);
    }
}

/// Powers of ten multiply by adding their exponents.
pub proof fn lemma_pow10_add(a: nat, b: nat)
    ensures
        pow10(a + b) == pow10(a) * pow10(b),
    decreases b,
{
    if b == 0 {
        assert(pow10(a) * 1 == pow10(a));
    } else {
        lemma_pow10_add(a, (b - 1) as nat);
        assert(pow10(a + b) == 10 * pow10((a + b - 1) as nat));
        assert(pow10(a) * (10 * pow10((b - 1) as nat)) == 10 * (pow10(a) * pow10((b - 1) as nat)))
            by (nonlinear_arith);
    }
}

/// A larger exponent never gives a smaller power of ten.
pub proof fn lemma_pow10_monotonic(a: nat, b: nat)
    requires
        a <= b,
    ensures
        pow10(a) <= pow10(b),
    decreases b,
{
    if a < b {
        lemma_pow10_monotonic(a, (b - 1) as nat);
        lemma_pow10_positive((b - 1) as nat);
    }
}

/// Scaling by a larger power of ten never gives less.
pub proof fn lemma_scale_monotonic(p: nat, a: nat, b: nat)
    requires
        a <= b,
    ensures
        p * pow10(a) <= p * pow10(b),
{
    lemma_pow10_monotonic(a, b);
    let x = pow10(a);
    let y = pow10(b);
    assert(p * x <= p * y) by (nonlinear_arith)
        requires
            x <= y,
    {}
}

/// A dividend below the divisor rounds to zero, or to one when rounding up a
/// non-zero dividend.
pub proof fn lemma_div_round_small(n: nat, d: nat, round_up: bool)
    requires
        n < d,
    ensures
        div_round(n, d, round_up) == if round_up && n != 0 { 1nat } else { 0nat },
{
    lemma_basic_div(n as int, d as int);
    lemma_small_mod(n, d);
}

/// Rounded division never decreases when the dividend grows.
pub proof fn lemma_div_round_monotonic(a: nat, b: nat, d: nat, round_up: bool)
    requires
        a <= b,
        d > 0,
    ensures
        div_round(a, d, round_up) <= div_round(b, d, round_up),
{
    lemma_fundamental_div_mod(a as int, d as int);
    lemma_fundamental_div_mod(b as int, d as int);
    let qa = a / d;
    let qb = b / d;
    assert(qa <= qb) by (nonlinear_arith)
        requires
            a <= b,
            d > 0,
            a == d * qa + a % d,
            b == d * qb + b % d,
            0 <= a % d < d,
            0 <= b % d < d,
    {}
    if qa == qb {
        assert(d * qa == d * qb);
        if b % d == 0 {
            assert(a % d == 0);
        }
    }
}

/// A dividend above `2^64 * d` rounds to more than 64 bits.
proof fn lemma_reaches_limit(n: nat, d: nat, round_up: bool)
    requires
        d > 0,
        n > 0x1_0000_0000_0000_0000 * d,
    ensures
        div_round(n, d, round_up) > u64::MAX,
{
    lemma_fundamental_div_mod(n as int, d as int);
    let q = n / d;
    assert(q >= 0x1_0000_0000_0000_0000) by (nonlinear_arith)
        requires
            n == d * q + n % d,
            0 <= n % d < d,
            n > 0x1_0000_0000_0000_0000 * d,
            d > 0,
    {}
}

/// Ten to the tenth, written out.
pub proof fn lemma_pow10_ten()
    ensures
        pow10(10) == 10_000_000_000,
{
    reveal_with_fuel(pow10, 11);
}

/// A price of `mantissa * 10^exponent` quote atoms per base atom.
#[derive(Clone, Copy, Debug, PartialEq, Eq, Structural)]
pub struct Price {
    pub mantissa: u32,
    pub exponent: i8,
}

impl Price {
    /// The price scaled by `10^128`, which makes every price a natural number.
    pub open spec fn scaled(self) -> nat {
        self.mantissa as nat * pow10((self.exponent + 128) as nat)
    }

    /// Quote atoms that `base_atoms` are worth at this price.
    pub open spec fn quote_for_base(self, base_atoms: nat, round_up: bool) -> nat {
        let product = self.mantissa as nat * base_atoms;
        if self.exponent >= 0 {
            product * pow10(self.exponent as nat)
        } else {
            div_round(product, pow10((-self.exponent) as nat), round_up)
        }
    }

    /// Base atoms that `quote_atoms` buy at this price, for a non-zero mantissa.
    pub open spec fn base_for_quote(self, quote_atoms: nat, round_up: bool) -> nat
        recommends
            self.mantissa > 0,
    {
        if self.exponent >= 0 {
            div_round(quote_atoms, self.mantissa as nat * pow10(self.exponent as nat), round_up)
        } else {
            div_round(quote_atoms * pow10((-self.exponent) as nat), self.mantissa as nat, round_up)
        }
    }

    /// Converts base atoms to quote atoms at this price.
    ///
    /// Returns the exact rounded amount, or `Overflow` when that amount needs
    /// more than 64 bits.
    pub fn checked_quote_for_base(&self, base_atoms: u64, round_up: bool) -> (r: Result<
        u64,
        MarketError,
    >)
        ensures
            match r {
                Ok(q) => q == self.quote_for_base(base_atoms as nat, round_up),
                Err(e) => e == MarketError::Overflow && self.quote_for_base(
                    base_atoms as nat,
                    round_up,
                ) > u64::MAX,
            },
    {
        let mantissa: u128 = self.mantissa as u128;
        let base: u128 = base_atoms as u128;
        assert(mantissa * base < 0x1_0000_0000_0000_0000_0000_0000) by (nonlinear_arith)
            requires
                mantissa < 0x1_0000_0000,
                base < 0x1_0000_0000_0000_0000,
        {}
        let product: u128 = mantissa * base;
        if self.exponent >= 0 {
            let steps: u8 = self.exponent as u8;
            if product == 0 {
                assert(0 * pow10(steps as nat) == 0);
                return Ok(0);
            }
            if product > u64::MAX as u128 {
                proof {
                    assert(pow10(0) == 1);
                    lemma_scale_monotonic(product as nat, 0, steps as nat);
                }
                return Err(MarketError::Overflow);
            }
            let mut acc: u128 = product;
            let mut i: u8 = 0;
            assert(pow10(0) == 1);
            while i < steps
                invariant
                    i <= steps,
                    acc == product * pow10(i as nat),
                    acc <= u64::MAX,
                    product > 0,
                    product == self.mantissa as nat * base_atoms as nat,
                    self.exponent >= 0,
                    steps == self.exponent,
                decreases steps - i,
            {
                proof {
                    lemma_mul_is_associative(product as int, pow10(i as nat) as int, 10);
                }
                acc = acc * 10;
                i = i + 1;
                if acc > u64::MAX as u128 {
                    proof {
                        lemma_scale_monotonic(product as nat, i as nat, steps as nat);
                    }
                    return Err(MarketError::Overflow);
                }
            }
            Ok(acc as u64)
        } else {
            let steps: u8 = (-(self.exponent as i16)) as u8;
            if product == 0 {
                proof {
                    lemma_pow10_positive(steps as nat);
                    lemma_div_round_small(0, pow10(steps as nat), round_up);
                }
                return Ok(0);
            }
            let mut divisor: u128 = 1;
            let mut i: u8 = 0;
            assert(pow10(0) == 1);
            while i < steps
                invariant
                    i <= steps,
                    divisor == pow10(i as nat),
                    divisor <= product,
                    product < 0x1_0000_0000_0000_0000_0000_0000,
                    product == self.mantissa as nat * base_atoms as nat,
                    self.exponent < 0,
                    steps == -self.exponent,
                decreases steps - i,
            {
                divisor = divisor * 10;
                i = i + 1;
                if divisor > product {
                    proof {
                        lemma_pow10_monotonic(i as nat, steps as nat);
                        lemma_div_round_small(product as nat, pow10(steps as nat), round_up);
                    }
                    return Ok(if round_up { 1 } else { 0 });
                }
            }
            proof {
                lemma_pow10_positive(steps as nat);
            }
            let quotient: u128 = product / divisor;
            let remainder: u128 = product % divisor;
            let rounded: u128 = if round_up && remainder != 0 {
                quotient + 1
            } else {
                quotient
            };
            if rounded > u64::MAX as u128 {
                Err(MarketError::Overflow)
            } else {
                Ok(rounded as u64)
            }
        }
    }

    /// Converts quote atoms to base atoms at this price.
    ///
    /// A zero mantissa prices nothing and is refused as `InvalidArgument`.
    /// Otherwise returns the exact rounded amount, or `Overflow` when that
    /// amount needs more than 64 bits.
    pub fn checked_base_for_quote(&self, quote_atoms: u64, round_up: bool) -> (r: Result<
        u64,
        MarketError,
    >)
        ensures
            self.mantissa == 0 ==> r == Err::<u64, MarketError>(MarketError::InvalidArgument),
            self.mantissa != 0 ==> match r {
                Ok(b) => b == self.base_for_quote(quote_atoms as nat, round_up),
                Err(e) => e == MarketError::Overflow && self.base_for_quote(
                    quote_atoms as nat,
                    round_up,
                ) > u64::MAX,
            },
    {
        if self.mantissa == 0 {
            return Err(MarketError::InvalidArgument);
        }
        let mantissa: u128 = self.mantissa as u128;
        let quote: u128 = quote_atoms as u128;
        if self.exponent >= 0 {
            let steps: u8 = self.exponent as u8;
            let mut divisor: u128 = mantissa;
            let mut i: u8 = 0;
            assert(pow10(0) == 1);
            if divisor > quote {
                proof {
                    lemma_scale_monotonic(mantissa as nat, 0, steps as nat);
                    lemma_div_round_small(
                        quote as nat,
                        mantissa as nat * pow10(steps as nat),
                        round_up,
                    );
                }
                return Ok(if round_up && quote_atoms != 0 { 1 } else { 0 });
            }
            while i < steps
                invariant
                    i <= steps,
                    divisor == mantissa * pow10(i as nat),
                    divisor <= quote,
                    quote <= u64::MAX,
                    mantissa > 0,
                    mantissa == self.mantissa,
                    quote == quote_atoms,
                    self.exponent >= 0,
                    steps == self.exponent,
                decreases steps - i,
            {
                proof {
                    lemma_mul_is_associative(mantissa as int, pow10(i as nat) as int, 10);
                }
                divisor = divisor * 10;
                i = i + 1;
                if divisor > quote {
                    proof {
                        lemma_scale_monotonic(mantissa as nat, i as nat, steps as nat);
                        lemma_div_round_small(
                            quote as nat,
                            mantissa as nat * pow10(steps as nat),
                            round_up,
                        );
                    }
                    return Ok(if round_up && quote_atoms != 0 { 1 } else { 0 });
                }
            }
            proof {
                lemma_pow10_positive(steps as nat);
                let unit = pow10(steps as nat);
                assert(mantissa * unit >= 1) by (nonlinear_arith)
                    requires
                        mantissa >= 1,
                        unit >= 1,
                {}
            }
            let quotient: u128 = quote / divisor;
            let remainder: u128 = quote % divisor;
            assert(quotient <= quote) by (nonlinear_arith)
                requires
                    quotient == quote / divisor,
                    divisor >= 1,
            {}
            if round_up && remainder != 0 {
                assert(quotient < quote) by (nonlinear_arith)
                    requires
                        quotient == quote / divisor,
                        remainder == quote % divisor,
                        remainder != 0,
                        divisor >= 1,
                {}
                Ok((quotient + 1) as u64)
            } else {
                Ok(quotient as u64)
            }
        } else {
            let steps: u8 = (-(self.exponent as i16)) as u8;
            if quote == 0 {
                proof {
                    assert(0 * pow10(steps as nat) == 0);
                    lemma_div_round_small(0, mantissa as nat, round_up);
                }
                return Ok(0);
            }
            let limit: u128 = 0x1_0000_0000_0000_0000 * mantissa;
            let mut acc: u128 = quote;
            let mut i: u8 = 0;
            assert(pow10(0) == 1);
            while i < steps
                invariant
                    i <= steps,
                    acc == quote * pow10(i as nat),
                    acc <= limit,
                    limit == 0x1_0000_0000_0000_0000 * mantissa,
                    0 < mantissa < 0x1_0000_0000,
                    quote > 0,
                    mantissa == self.mantissa,
                    quote == quote_atoms,
                    self.exponent < 0,
                    steps == -self.exponent,
                decreases steps - i,
            {
                proof {
                    lemma_mul_is_associative(quote as int, pow10(i as nat) as int, 10);
                }
                acc = acc * 10;
                i = i + 1;
                if acc > limit {
                    proof {
                        let full: nat = quote as nat * pow10(steps as nat);
                        lemma_scale_monotonic(quote as nat, i as nat, steps as nat);
                        assert(full >= acc);
                        lemma_div_round_monotonic(acc as nat, full, mantissa as nat, round_up);
                        lemma_reaches_limit(acc as nat, mantissa as nat, round_up);
                    }
                    return Err(MarketError::Overflow);
                }
            }
            let quotient: u128 = acc / mantissa;
            let remainder: u128 = acc % mantissa;
            assert(quotient <= 0x1_0000_0000_0000_0000) by (nonlinear_arith)
                requires
                    quotient == acc / mantissa,
                    acc <= 0x1_0000_0000_0000_0000 * mantissa,
                    mantissa > 0,
            {}
            let rounded: u128 = if round_up && remainder != 0 {
                quotient + 1
            } else {
                quotient
            };
            if rounded > u64::MAX as u128 {
                Err(MarketError::Overflow)
            } else {
                Ok(rounded as u64)
            }
        }
    }

    /// Whether this price is at most `other`, by value.
    pub fn value_le(&self, other: &Price) -> (r: bool)
        ensures
            r == (self.scaled() <= other.scaled()),
    {
        if self.mantissa == 0 {
            assert(0 * pow10((self.exponent + 128) as nat) == 0);
            return true;
        }
        if other.mantissa == 0 {
            proof {
                assert(0 * pow10((other.exponent + 128) as nat) == 0);
                lemma_pow10_positive((self.exponent + 128) as nat);
                lemma_mul_strict_inequality(
                    0,
                    pow10((self.exponent + 128) as nat) as int,
                    self.mantissa as int,
                );
            }
            return false;
        }
        let mine: u64 = self.mantissa as u64;
        let theirs: u64 = other.mantissa as u64;
        let my_exponent: i16 = self.exponent as i16;
        let their_exponent: i16 = other.exponent as i16;
        if my_exponent <= their_exponent {
            let gap: i16 = their_exponent - my_exponent;
            proof {
                lemma_scaled_gap(*self, *other);
            }
            if gap >= 10 {
                proof {
                    lemma_pow10_ten();
                    lemma_pow10_monotonic(10, gap as nat);
                    lemma_mul_inequality(
                        pow10(10) as int,
                        pow10(gap as nat) as int,
                        theirs as int,
                    );
                    assert(theirs * pow10(10) >= pow10(10)) by (nonlinear_arith)
                        requires
                            theirs >= 1,
                    {}
                }
                true
            } else {
                let factor: u64 = small_pow10(gap as u8);
                assert(theirs * factor <= 0xFFFF_FFFF * 1_000_000_000) by (nonlinear_arith)
                    requires
                        theirs <= 0xFFFF_FFFF,
                        factor <= 1_000_000_000,
                {}
                mine <= theirs * factor
            }
        } else {
            let gap: i16 = my_exponent - their_exponent;
            proof {
                lemma_scaled_gap(*other, *self);
            }
            if gap >= 10 {
                proof {
                    lemma_pow10_ten();
                    lemma_pow10_monotonic(10, gap as nat);
                    lemma_mul_inequality(
                        pow10(10) as int,
                        pow10(gap as nat) as int,
                        mine as int,
                    );
                    assert(mine * pow10(10) >= pow10(10)) by (nonlinear_arith)
                        requires
                            mine >= 1,
                    {}
                }
                false
            } else {
                let factor: u64 = small_pow10(gap as u8);
                assert(mine * factor <= 0xFFFF_FFFF * 1_000_000_000) by (nonlinear_arith)
                    requires
                        mine <= 0xFFFF_FFFF,
                        factor <= 1_000_000_000,
                {}
                mine * factor <= theirs
            }
        }
    }

    /// Whether this price is strictly below `other`, by value.
    pub fn value_lt(&self, other: &Price) -> (r: bool)
        ensures
            r == (self.scaled() < other.scaled()),
    {
        !other.value_le(self)
    }

    /// The price `mantissa * 10^exponent`.
    pub fn new(mantissa: u32, exponent: i8) -> (p: Price)
        ensures
            p.mantissa == mantissa,
            p.exponent == exponent,
    {
        Price { mantissa, exponent }
    }
}

/// More base atoms are never worth fewer quote atoms.
pub proof fn lemma_quote_monotonic(price: Price, fewer: nat, more: nat, round_up: bool)
    requires
        fewer <= more,
    ensures
        price.quote_for_base(fewer, round_up) <= price.quote_for_base(more, round_up),
{
    let mantissa = price.mantissa as nat;
    assert(mantissa * fewer <= mantissa * more) by (nonlinear_arith)
        requires
            fewer <= more,
    {}
    if price.exponent >= 0 {
        let unit = pow10(price.exponent as nat);
        let low = mantissa * fewer;
        let high = mantissa * more;
        assert(low * unit <= high * unit) by (nonlinear_arith)
            requires
                low <= high,
        {}
    } else {
        lemma_pow10_positive((-price.exponent) as nat);
        lemma_div_round_monotonic(
            mantissa * fewer,
            mantissa * more,
            pow10((-price.exponent) as nat),
            round_up,
        );
    }
}

/// Comparing two scaled prices comes down to comparing the lower-exponent
/// mantissa with the other mantissa times ten to the exponent gap.
proof fn lemma_scaled_gap(low: Price, high: Price)
    requires
        low.exponent <= high.exponent,
    ensures
        (low.scaled() <= high.scaled()) == (low.mantissa as nat <= high.mantissa as nat * pow10(
            (high.exponent - low.exponent) as nat,
        )),
        (high.scaled() <= low.scaled()) == (high.mantissa as nat * pow10(
            (high.exponent - low.exponent) as nat,
        ) <= low.mantissa as nat),
{
    let shift: nat = (low.exponent + 128) as nat;
    let gap: nat = (high.exponent - low.exponent) as nat;
    lemma_pow10_add(shift, gap);
    lemma_pow10_positive(shift);
    let unit: nat = pow10(shift);
    let a: nat = low.mantissa as nat;
    let b: nat = high.mantissa as nat * pow10(gap);
    assert(high.scaled() == b * unit) by (nonlinear_arith)
        requires
            high.scaled() == high.mantissa as nat * (unit * pow10(gap)),
            b == high.mantissa as nat * pow10(gap),
    {}
    assert(low.scaled() == a * unit);
    assert((a * unit <= b * unit) == (a <= b)) by (nonlinear_arith)
        requires
            unit >= 1,
    {}
    assert((b * unit <= a * unit) == (b <= a)) by (nonlinear_arith)
        requires
            unit >= 1,
    {}
}

/// Ten to the power `n` for `n` below ten.
fn small_pow10(n: u8) -> (r: u64)
    requires
        n < 10,
    ensures
        r == pow10(n as nat),
        r <= 1_000_000_000,
{
    let mut r: u64 = 1;
    let mut i: u8 = 0;
    proof {
        reveal_with_fuel(pow10, 11);
    }
    while i < n
        invariant
            i <= n,
            n < 10,
            r == pow10(i as nat),
            r <= pow10(9),
            pow10(9) == 1_000_000_000,
        decreases n - i,
    {
        proof {
            lemma_pow10_monotonic((i + 1) as nat, 9);
        }
        r = r * 10;
        i = i + 1;
    }
    r
}

} // verus!
