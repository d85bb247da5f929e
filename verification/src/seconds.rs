//! Seconds as double-precision numbers.
//!
//! A `Seconds` value is the bit pattern of a binary64 number. Its magnitude is a
//! whole number of units of two to the power -1074, the smallest positive number
//! of the format, so that sums and differences can be stated exactly and then
//! rounded.

use vstd::prelude::*;
use vstd::math::abs;
use vstd::arithmetic::power2::{
    lemma2_to64, lemma2_to64_rest, lemma_pow2_adds, lemma_pow2_pos, lemma_pow2_strictly_increases,
    lemma_pow2_unfold, pow2,
};
use vstd::arithmetic::div_mod::{
    lemma_div_by_multiple, lemma_fundamental_div_mod, lemma_fundamental_div_mod_converse,
};
use vstd::arithmetic::mul::{
    lemma_mul_basics, lemma_mul_inequality, lemma_mul_is_associative, lemma_mul_strict_inequality,
};
use crate::float::{
    add_magnitudes, bit_length, encode_pattern, lemma_bit_length_at_most, lemma_bit_length_below,
    lemma_bit_length_bounds, lemma_bit_length_shift, lemma_bit_length_unique, lemma_round_int_error,
    lemma_round_int_exact, lemma_round_int_scaled, lemma_round_int_shift, lemma_round_ratio_best,
    lemma_round_ratio_bounds, lemma_round_ratio_cancel, lemma_round_ratio_fixed,
    lemma_round_ratio_monotone, nearest, pattern, round_int, round_integer, round_ratio,
    scaled_times, scaled_whole_part, sub_magnitudes, whole_part, Scaled,
};
use crate::sample::Sample;

verus! {

/// The sign bit.
pub const SIGN: u64 = 0x8000_0000_0000_0000;

/// The bit pattern of positive infinity.
pub const INFINITY: u64 = 0x7FF0_0000_0000_0000;

/// The bit pattern of the quiet NaN without a payload.
pub const NAN: u64 = 0x7FF8_0000_0000_0000;

/// Two to the power 52: one more than the largest fraction field.
pub const HIDDEN: u64 = 0x10_0000_0000_0000;

/// A double-precision number of seconds, as its bit pattern.
#[derive(Debug, Clone, Copy, PartialEq, Eq, Structural)]
pub struct Seconds {
    pub bits: u64,
}

/// The pattern of the positive number of `n` units, where `n` has at most 53
/// significant digits; infinity where the format ends.
pub open spec fn double_bits(n: nat) -> u64 {
    pattern(n, 53, 2045) as u64
}

impl Seconds {
    pub open spec fn negative(self) -> bool {
        self.bits >= SIGN
    }

    /// The pattern without its sign.
    pub open spec fn magnitude(self) -> u64 {
        if self.bits >= SIGN {
            (self.bits - SIGN) as u64
        } else {
            self.bits
        }
    }

    pub open spec fn is_nan(self) -> bool {
        self.magnitude() > INFINITY
    }

    pub open spec fn is_infinite(self) -> bool {
        self.magnitude() == INFINITY
    }

    pub open spec fn is_finite(self) -> bool {
        self.magnitude() < INFINITY
    }

    /// The exponent of the last digit, in units.
    pub open spec fn exponent(self) -> nat {
        let field = self.magnitude() as nat / HIDDEN as nat;
        if field == 0 {
            0
        } else {
            (field - 1) as nat
        }
    }

    /// The digits of a finite number.
    pub open spec fn digits(self) -> nat {
        let fraction = self.magnitude() as nat % HIDDEN as nat;
        if self.magnitude() < HIDDEN {
            fraction
        } else {
            HIDDEN as nat + fraction
        }
    }

    /// The magnitude of a finite number in units of two to the power -1074.
    pub open spec fn units(self) -> nat {
        self.digits() * pow2(self.exponent())
    }

    /// The finite number itself, in the same units.
    pub open spec fn value(self) -> int {
        if self.negative() {
            -(self.units() as int)
        } else {
            self.units() as int
        }
    }

    /// `self > 0.0`.
    pub open spec fn above_zero(self) -> bool {
        !self.is_nan() && !self.negative() && self.magnitude() > 0
    }

    /// `self < 0.0`.
    pub open spec fn below_zero(self) -> bool {
        !self.is_nan() && self.negative() && self.magnitude() > 0
    }

    pub open spec fn negated(self) -> Seconds {
        if self.negative() {
            Seconds { bits: (self.bits - SIGN) as u64 }
        } else {
            Seconds { bits: (self.bits + SIGN) as u64 }
        }
    }

    /// What `self + other` is: the exact sum rounded to 53 digits, with the usual
    /// rules for infinities, NaN and the sign of zero.
    pub open spec fn sum(self, other: Seconds) -> Seconds {
        if self.is_nan() || other.is_nan() || (self.is_infinite() && other.is_infinite()
            && self.negative() != other.negative()) {
            Seconds { bits: NAN }
        } else if self.is_infinite() {
            self
        } else if other.is_infinite() {
            other
        } else {
            let exact = self.value() + other.value();
            if exact > 0 {
                Seconds { bits: double_bits(round_int(exact as nat, 53)) }
            } else if exact < 0 {
                Seconds { bits: (SIGN + double_bits(round_int((-exact) as nat, 53))) as u64 }
            } else if self.negative() && other.negative() {
                Seconds { bits: SIGN }
            } else {
                Seconds { bits: 0 }
            }
        }
    }

    /// What `self - other` is.
    pub open spec fn difference(self, other: Seconds) -> Seconds {
        self.sum(other.negated())
    }

    /// What `self.max(0.0)` is; a NaN gives zero.
    pub open spec fn clipped(self) -> Seconds {
        if self.above_zero() {
            self
        } else {
            Seconds { bits: 0 }
        }
    }
}

/// A finite pattern has fewer than 54 digits, and a full set of them unless its
/// exponent is the smallest.
proof fn lemma_digits(x: Seconds)
    ensures
        x.magnitude() < SIGN,
        x.digits() < 0x20_0000_0000_0000,
        x.exponent() > 0 ==> x.digits() >= HIDDEN,
        x.is_finite() ==> x.exponent() <= 2045,
        x.magnitude() >= HIDDEN ==> x.magnitude() == x.exponent() * HIDDEN + x.digits(),
        x.magnitude() < HIDDEN ==> x.exponent() == 0 && x.digits() == x.magnitude(),
{
    let m = x.magnitude() as int;
    assert(m == (m / 0x10_0000_0000_0000) * 0x10_0000_0000_0000 + m % 0x10_0000_0000_0000);
}

/// Takes a finite number apart into its digits and its exponent.
fn decode(x: Seconds) -> (result: Scaled)
    requires
        x.is_finite(),
    ensures
        result.mant == x.digits(),
        result.exp == x.exponent(),
        result@ == x.units(),
        result.mant < 0x20_0000_0000_0000,
        result.exp <= 2045,
        result.exp > 0 ==> result.mant >= HIDDEN,
{
    let magnitude: u64 = if x.bits >= SIGN {
        x.bits - SIGN
    } else {
        x.bits
    };
    proof {
        lemma_digits(x);
    }
    let field: u64 = magnitude / HIDDEN;
    let fraction: u64 = magnitude % HIDDEN;
    if field == 0 {
        Scaled { mant: fraction, exp: 0 }
    } else {
        Scaled { mant: HIDDEN + fraction, exp: (field - 1) as u32 }
    }
}

/// The pattern of a number of at most 53 significant digits.
fn encode(x: Scaled) -> (bits: u64)
    requires
        x.mant <= 0x20_0000_0000_0000,
        x.exp <= 4096,
    ensures
        bits == double_bits(x@),
        bits <= INFINITY,
{
    proof {
        lemma2_to64();
        lemma2_to64_rest();
    }
    encode_pattern(x, 53, 2045)
}

/// The units of two to the power -149 in a finite single-precision pattern
/// without its sign.
pub open spec fn single_units(magnitude: nat) -> nat {
    if magnitude < 0x80_0000 {
        magnitude
    } else {
        (0x80_0000 + magnitude % 0x80_0000) * pow2((magnitude / 0x80_0000 - 1) as nat)
    }
}

impl Seconds {
    /// What a single-precision pattern is as a double. The conversion is exact;
    /// every NaN becomes the one without a payload.
    pub open spec fn widened(single: u32) -> Seconds {
        let negative = single >= 0x8000_0000;
        let magnitude = if negative {
            (single - 0x8000_0000) as nat
        } else {
            single as nat
        };
        let bits = if magnitude < 0x7F80_0000 {
            double_bits(single_units(magnitude) * pow2(925))
        } else {
            INFINITY
        };
        if magnitude > 0x7F80_0000 {
            Seconds { bits: NAN }
        } else if negative {
            Seconds { bits: (SIGN + bits) as u64 }
        } else {
            Seconds { bits }
        }
    }

    /// What `count as f64` is.
    pub open spec fn of_count(count: u64) -> Seconds {
        Seconds { bits: double_bits(round_int(count as nat, 53) * pow2(1074)) }
    }

    /// What `(factor as f64 * self) as u64` is: the product rounded to 53 digits,
    /// then cut to its integer part, with everything below zero and NaN at zero
    /// and everything too large at the largest count.
    pub open spec fn count_of(self, factor: u64) -> u64 {
        if self.is_nan() || self.negative() {
            0
        } else if self.is_infinite() {
            if factor == 0 {
                0
            } else {
                u64::MAX
            }
        } else {
            whole_part(round_int(self.units() * factor as nat, 53), 1074)
        }
    }

    /// `self + other`.
    pub fn plus(self, other: Seconds) -> (result: Seconds)
        ensures
            result == self.sum(other),
    {
        let a_negative: bool = self.bits >= SIGN;
        let b_negative: bool = other.bits >= SIGN;
        let a_magnitude: u64 = if a_negative {
            self.bits - SIGN
        } else {
            self.bits
        };
        let b_magnitude: u64 = if b_negative {
            other.bits - SIGN
        } else {
            other.bits
        };
        if a_magnitude > INFINITY || b_magnitude > INFINITY || (a_magnitude == INFINITY
            && b_magnitude == INFINITY && a_negative != b_negative) {
            return Seconds { bits: NAN };
        }
        if a_magnitude == INFINITY {
            return self;
        }
        if b_magnitude == INFINITY {
            return other;
        }
        let a: Scaled = decode(self);
        let b: Scaled = decode(other);
        proof {
            lemma_pow2_pos(a.exp as nat);
            lemma_pow2_pos(b.exp as nat);
            lemma2_to64();
            lemma2_to64_rest();
            lemma_units_zero(self);
            lemma_units_zero(other);
            lemma_round_int_exact(0, 53);
        }
        let a_first: bool = a.exp > b.exp || (a.exp == b.exp && a.mant >= b.mant);
        let (big, small, negative): (Scaled, Scaled, bool) = if a_first {
            (a, b, a_negative)
        } else {
            (b, a, b_negative)
        };
        if a_negative == b_negative {
            let bits: u64 = encode(add_magnitudes(big, small, 53));
            if a_negative {
                Seconds { bits: SIGN + bits }
            } else {
                Seconds { bits }
            }
        } else {
            let rest: Scaled = sub_magnitudes(big, small, 53);
            if big.mant == small.mant && big.exp == small.exp {
                Seconds { bits: 0 }
            } else {
                let bits: u64 = encode(rest);
                if negative {
                    Seconds { bits: SIGN + bits }
                } else {
                    Seconds { bits }
                }
            }
        }
    }

    /// `self - other`.
    pub fn minus(self, other: Seconds) -> (result: Seconds)
        ensures
            result == self.difference(other),
    {
        let negated: u64 = if other.bits >= SIGN {
            other.bits - SIGN
        } else {
            other.bits + SIGN
        };
        self.plus(Seconds { bits: negated })
    }

    /// `self > 0.0`.
    pub fn is_above_zero(self) -> (result: bool)
        ensures
            result == self.above_zero(),
    {
        self.bits > 0 && self.bits <= INFINITY
    }

    /// `self < 0.0`.
    pub fn is_below_zero(self) -> (result: bool)
        ensures
            result == self.below_zero(),
    {
        self.bits > SIGN && self.bits - SIGN <= INFINITY
    }

    /// `self` is a NaN.
    pub fn is_not_a_number(self) -> (result: bool)
        ensures
            result == self.is_nan(),
    {
        (self.bits > INFINITY && self.bits < SIGN) || (self.bits >= SIGN && self.bits - SIGN
            > INFINITY)
    }

    /// `self.max(0.0)`.
    pub fn clip(self) -> (result: Seconds)
        ensures
            result == self.clipped(),
    {
        if self.is_above_zero() {
            self
        } else {
            Seconds { bits: 0 }
        }
    }

    /// `count as f64`.
    pub fn from_count(count: u64) -> (result: Seconds)
        ensures
            result == Seconds::of_count(count),
    {
        let rounded: Scaled = round_integer(count as u128, 53);
        proof {
            lemma2_to64();
            lemma2_to64_rest();
            lemma_pow2_adds(rounded.exp as nat, 1074);
            lemma_mul_is_associative(
                rounded.mant as int,
                pow2(rounded.exp as nat) as int,
                pow2(1074) as int,
            );
        }
        Seconds { bits: encode(Scaled { mant: rounded.mant, exp: rounded.exp + 1074 }) }
    }

    /// The double with the value of a single-precision pattern.
    pub fn from_single(single: u32) -> (result: Seconds)
        ensures
            result == Seconds::widened(single),
    {
        let negative: bool = single >= 0x8000_0000;
        let magnitude: u32 = if negative {
            single - 0x8000_0000
        } else {
            single
        };
        if magnitude > 0x7F80_0000 {
            return Seconds { bits: NAN };
        }
        let bits: u64 = if magnitude == 0x7F80_0000 {
            INFINITY
        } else {
            let field: u32 = magnitude / 0x80_0000;
            let fraction: u32 = magnitude % 0x80_0000;
            let x: Scaled = if field == 0 {
                Scaled { mant: fraction as u64, exp: 925 }
            } else {
                Scaled { mant: 0x80_0000 + fraction as u64, exp: 925 + (field - 1) }
            };
            proof {
                if field > 0 {
                    lemma_pow2_adds((field - 1) as nat, 925);
                    lemma_mul_is_associative(
                        x.mant as int,
                        pow2((field - 1) as nat) as int,
                        pow2(925) as int,
                    );
                }
                assert(x@ == single_units(magnitude as nat) * pow2(925));
            }
            encode(x)
        };
        if negative {
            Seconds { bits: SIGN + bits }
        } else {
            Seconds { bits }
        }
    }

    /// `(factor as f64 * self) as u64`, for a factor that a double holds exactly.
    pub fn count(self, factor: u64) -> (result: u64)
        requires
            factor <= 0x20_0000_0000_0000,
        ensures
            result == self.count_of(factor),
    {
        if self.bits > INFINITY {
            return 0;
        }
        if self.bits == INFINITY {
            return if factor == 0 {
                0
            } else {
                u64::MAX
            };
        }
        scaled_whole_part(scaled_times(decode(self), factor, 53), 1074)
    }
}

/// A number is zero exactly when its digits are.
proof fn lemma_units_zero(x: Seconds)
    requires
        x.is_finite(),
    ensures
        x.units() == 0 <==> x.digits() == 0,
{
    lemma_pow2_pos(x.exponent());
    let d = x.digits();
    let f = pow2(x.exponent());
    assert(d * f == 0 <==> d == 0) by (nonlinear_arith)
        requires
            f > 0,
            d >= 0,
    ;
}

/// A number that needs no rounding is what its pattern stands for, as long as the format
/// reaches that far.
proof fn lemma_units_of_pattern(n: nat)
    requires
        round_int(n, 53) == n,
        bit_length(n) <= 2098,
    ensures
        (Seconds { bits: double_bits(n) }).units() == n,
        (Seconds { bits: double_bits(n) }).is_finite(),
        !(Seconds { bits: double_bits(n) }).negative(),
{
    lemma2_to64();
    lemma2_to64_rest();
    let x = Seconds { bits: double_bits(n) };
    if n < 0x20_0000_0000_0000 {
        lemma_fundamental_div_mod(n as int, 0x10_0000_0000_0000);
        lemma_mul_basics(n as int);
    } else {
        let b = bit_length(n);
        lemma_bit_length_bounds(n);
        if b <= 53 {
            if b < 53 {
                lemma_pow2_strictly_increases(b, 53);
            }
            assert(false);
        }
        let e = (b - 53) as nat;
        let unit = pow2(e);
        lemma_pow2_pos(e);
        lemma_pow2_adds(52, e);
        lemma_pow2_adds(53, e);
        assert(n / 1 == n);
        lemma_mul_basics(unit as int);
        let z = nearest(n, unit);
        assert(n == z * unit);
        lemma_div_by_multiple(z as int, unit as int);
        if z < 0x10_0000_0000_0000 {
            lemma_mul_strict_inequality(z as int, 0x10_0000_0000_0000, unit as int);
        }
        if z >= 0x20_0000_0000_0000 {
            lemma_mul_inequality(0x20_0000_0000_0000, z as int, unit as int);
        }
        assert(pattern(n, 53, 2045) == e * 0x10_0000_0000_0000 + z);
        let m = x.bits as int;
        assert(m == (e + 1) * 0x10_0000_0000_0000 + (z - 0x10_0000_0000_0000));
        lemma_fundamental_div_mod_converse(
            m,
            0x10_0000_0000_0000,
            (e + 1) as int,
            z - 0x10_0000_0000_0000,
        );
    }
}

/// A count of whole seconds that a double-precision number holds is a finite number.
proof fn lemma_whole_seconds(count: u64)
    requires
        count <= pow2(53),
    ensures
        Seconds::of_count(count).units() == count * pow2(1074),
        Seconds::of_count(count).is_finite(),
        !Seconds::of_count(count).negative(),
        Seconds::of_count(count) == (Seconds { bits: double_bits(count as nat * pow2(1074)) }),
        Seconds::of_count(count).above_zero() <==> count > 0,
{
    let t = pow2(1074);
    let n = count as nat;
    let x = Seconds::of_count(count);
    lemma2_to64();
    lemma2_to64_rest();
    lemma_pow2_pos(1074);
    lemma_mul_basics(n as int);
    lemma_mul_basics(t as int);
    lemma_round_int_scaled(n, 0, 53);
    lemma_round_int_scaled(n, 1074, 53);
    lemma_pow2_adds(53, 1074);
    lemma_mul_inequality(n as int, pow2(53) as int, t as int);
    lemma_pow2_strictly_increases(1127, 1128);
    lemma_bit_length_at_most(n * t, 1128);
    lemma_units_of_pattern(n * t);
    if n > 0 {
        lemma_mul_inequality(1, n as int, t as int);
        if x.magnitude() == 0 {
            lemma_mul_basics(pow2(x.exponent()) as int);
            assert(false);
        }
    } else {
        assert(double_bits(0) == 0);
    }
}

/// The difference of two counts of whole seconds that double-precision numbers hold is
/// exact: the rest where there is one, and nothing above zero otherwise.
pub proof fn law_whole_seconds_difference(a: u64, b: u64)
    requires
        a <= pow2(53),
        b <= pow2(53),
    ensures
        a > b ==> Seconds::of_count(a).difference(Seconds::of_count(b)) == Seconds::of_count(
            (a - b) as u64,
        ),
        a <= b ==> !Seconds::of_count(a).difference(Seconds::of_count(b)).above_zero(),
        Seconds::of_count(a).above_zero() <==> a > 0,
{
    let t = pow2(1074);
    let x = Seconds::of_count(a);
    let y = Seconds::of_count(b);
    lemma_whole_seconds(a);
    lemma_whole_seconds(b);
    lemma_pow2_pos(1074);
    let z = y.negated();
    assert(z.magnitude() == y.magnitude());
    assert(z.units() == y.units());
    let exact = x.value() + z.value();
    assert(exact == (a - b) * t) by (nonlinear_arith)
        requires
            exact == a * t - b * t,
    ;
    if a > b {
        let n = (a - b) as u64;
        lemma_whole_seconds(n);
        lemma_round_int_scaled(n as nat, 1074, 53);
        assert(exact > 0) by (nonlinear_arith)
            requires
                exact == (a - b) * t,
                a > b,
                t > 0,
        ;
    } else if a == b {
        lemma_mul_basics(t as int);
        assert(exact == 0);
    } else {
        let n = (b - a) as u64;
        lemma_whole_seconds(n);
        lemma_round_int_scaled(n as nat, 1074, 53);
        assert(exact < 0 && -exact == n * t) by (nonlinear_arith)
            requires
                exact == (a - b) * t,
                n == b - a,
                a < b,
                t > 0,
        ;
    }
}

/// A count of no seconds is zero.
pub proof fn law_zero_seconds()
    ensures
        Seconds::of_count(0) == (Seconds { bits: 0 }),
{
    lemma2_to64();
    lemma2_to64_rest();
    lemma_whole_seconds(0);
    lemma_mul_basics(pow2(1074) as int);
    assert(double_bits(0) == 0);
}

/// The sum of two counts of whole seconds is exact, as long as a double-precision number
/// holds it.
pub proof fn law_whole_seconds_sum(a: u64, b: u64)
    requires
        a + b <= pow2(53),
    ensures
        Seconds::of_count(a).sum(Seconds::of_count(b)) == Seconds::of_count((a + b) as u64),
{
    let t = pow2(1074);
    let n = (a + b) as u64;
    lemma2_to64();
    lemma2_to64_rest();
    lemma_whole_seconds(a);
    lemma_whole_seconds(b);
    lemma_whole_seconds(n);
    lemma_pow2_pos(1074);
    assert(a * t + b * t == n * t) by (nonlinear_arith)
        requires
            n == a + b,
    ;
    lemma_round_int_scaled(n as nat, 1074, 53);
    if n > 0 {
        lemma_mul_inequality(1, n as int, t as int);
    } else {
        lemma_mul_basics(t as int);
        assert(double_bits(0) == 0);
    }
}

/// A count of whole seconds times a factor is exact, as long as a double-precision number
/// holds the product.
pub proof fn law_whole_seconds_count(count: u64, factor: u64)
    requires
        count * factor <= pow2(53),
    ensures
        Seconds::of_count(count).count_of(factor) == count * factor,
{
    let t = pow2(1074);
    let n = count as nat;
    let f = factor as nat;
    let x = Seconds::of_count(count);
    lemma2_to64();
    lemma2_to64_rest();
    lemma_pow2_pos(1074);
    if f == 0 {
        lemma_mul_basics(n as int);
        lemma_mul_basics(x.units() as int);
        lemma_round_int_scaled(0, 0, 53);
        assert(0nat / t == 0) by (nonlinear_arith)
            requires
                t > 0,
        ;
        return;
    }
    assert(n <= n * f) by (nonlinear_arith)
        requires
            f >= 1,
    ;
    lemma_whole_seconds(count);
    // The product is not rounded.
    assert((n * t) * f == (n * f) * t) by (nonlinear_arith);
    lemma_round_int_scaled(n * f, 1074, 53);
    lemma_div_by_multiple((n * f) as int, t as int);
}

/// Patterns count up through the numbers: one unit a step at first, and twice the distance
/// each time that the fraction has run through.
pub proof fn law_patterns_count_up(m: u64)
    requires
        m < INFINITY,
    ensures
        m <= 0x20_0000_0000_0000 ==> (Seconds { bits: m }).value() == m,
        HIDDEN <= m < INFINITY - HIDDEN ==> (Seconds { bits: (m + HIDDEN) as u64 }).value() == 2 * (
        Seconds { bits: m }).value(),
        (Seconds { bits: (m + SIGN) as u64 }).value() == -(Seconds { bits: m }).value(),
{
    lemma2_to64();
    let x = Seconds { bits: m };
    let y = Seconds { bits: (m + SIGN) as u64 };
    lemma_mul_basics(x.digits() as int);
    assert(y.magnitude() == m);
    if m < 0x20_0000_0000_0000 {
        assert(x.exponent() == 0);
        assert(x.digits() == m);
    } else if m == 0x20_0000_0000_0000 {
        assert(x.exponent() == 1);
        assert(x.digits() == 0x10_0000_0000_0000);
    }
    if HIDDEN <= m < INFINITY - HIDDEN {
        let z = Seconds { bits: (m + HIDDEN) as u64 };
        assert(z.exponent() == x.exponent() + 1);
        assert(z.digits() == x.digits());
        lemma_pow2_unfold(z.exponent());
        let d = x.digits() as int;
        let f = pow2(x.exponent()) as int;
        assert(d * (2 * f) == 2 * (d * f)) by (nonlinear_arith);
    }
}

/// A finite number is its own pattern again.
proof fn lemma_pattern_of_units(x: Seconds)
    requires
        x.is_finite(),
    ensures
        double_bits(x.units()) == x.magnitude(),
        round_int(x.units(), 53) == x.units(),
{
    lemma2_to64();
    lemma2_to64_rest();
    lemma_digits(x);
    let m = x.magnitude() as nat;
    let d = x.digits();
    let e = x.exponent();
    lemma_fundamental_div_mod(m as int, 0x10_0000_0000_0000);
    lemma_pow2_pos(e);
    lemma_round_int_scaled(d, e, 53);
    if e == 0 {
        lemma_mul_basics(d as int);
    } else {
        let n = x.units();
        lemma_bit_length_unique(d, 53);
        lemma_bit_length_shift(d, e);
        lemma_bit_length_bounds(n);
        lemma_pow2_adds(52, e);
        if e + 52 > 53 {
            lemma_pow2_strictly_increases(53, e + 52);
        }
        lemma_div_by_multiple(d as int, pow2(e) as int);
        assert(n / pow2(e) == d);
        assert(pattern(n, 53, 2045) == e * 0x10_0000_0000_0000 + d);
    }
}

/// What rounding comes to in patterns.
proof fn lemma_rounded(num: nat, den: nat, x: Seconds)
    requires
        den > 0,
        x.is_finite(),
    ensures
        ({
            let n = round_ratio(num, den, 53);
            let r = Seconds { bits: double_bits(n) };
            &&& !r.negative()
            &&& r.is_finite() ==> {
                &&& r.units() == n
                &&& abs(n * den - num) <= abs(x.units() * den - num)
                &&& abs(n * den - num) == abs(x.units() * den - num) && x.units() != n ==> r.bits
                    % 2 == 0
            }
            &&& r.is_finite() || r.is_infinite()
            &&& num <= 0x1F_FFFF_FFFF_FFFF * pow2(2045) * den ==> r.is_finite()
            &&& num >= pow2(2098) * den ==> r.is_infinite()
        }),
{
    let n = round_ratio(num, den, 53);
    let r = Seconds { bits: double_bits(n) };
    let b = bit_length(n);
    lemma2_to64();
    lemma2_to64_rest();
    lemma_round_ratio_fixed(num, den, 53);
    lemma_pattern_of_units(x);
    lemma_round_ratio_best(num, den, 53, x.units());
    if n >= 0x20_0000_0000_0000 {
        lemma_bit_length_bounds(n);
        if b < 54 {
            if b < 53 {
                lemma_pow2_strictly_increases(b, 53);
            }
            assert(false);
        }
        if b > 2098 {
            assert(pattern(n, 53, 2045) == 2047 * 0x10_0000_0000_0000);
        } else {
            lemma_units_of_pattern(n);
        }
    } else {
        lemma_bit_length_at_most(n, 53);
        lemma_units_of_pattern(n);
    }
    if r.is_finite() && abs(n * den - num) == abs(x.units() * den - num) && x.units() != n {
        lemma_even_pattern(num, den);
    }
    let most = 0x1F_FFFF_FFFF_FFFF * pow2(2045);
    lemma_pow2_pos(2045);
    lemma_pow2_adds(53, 2045);
    if num <= most * den {
        lemma_round_ratio_monotone(num, most * den, den, 53);
        lemma_mul_basics(den as int);
        lemma_round_ratio_cancel(most, 1, den, 53);
        lemma_round_int_scaled(0x1F_FFFF_FFFF_FFFF, 2045, 53);
        assert(n <= most);
        lemma_bit_length_at_most(n, 2098);
    }
    if num >= pow2(2098) * den {
        lemma_round_ratio_monotone(pow2(2098) * den, num, den, 53);
        lemma_mul_basics(den as int);
        lemma_round_ratio_cancel(pow2(2098), 1, den, 53);
        lemma_mul_basics(pow2(2098) as int);
        lemma_round_int_scaled(1, 2098, 53);
        assert(n >= pow2(2098));
        if b <= 2098 {
            lemma_bit_length_bounds(n);
            if b < 2098 {
                lemma_pow2_strictly_increases(b, 2098);
            }
            assert(false);
        }
    }
}

/// A rounded number whose last digit is zero has an even pattern.
proof fn lemma_even_pattern(num: nat, den: nat)
    requires
        den > 0,
        bit_length(round_ratio(num, den, 53)) <= 2098,
        ({
            let bits = bit_length(num / den);
            let drop = if bits > 53 {
                (bits - 53) as nat
            } else {
                0
            };
            nearest(num, den * pow2(drop)) % 2 == 0
        }),
    ensures
        double_bits(round_ratio(num, den, 53)) % 2 == 0,
{
    let n = round_ratio(num, den, 53);
    let b = bit_length(num / den);
    let drop = if b > 53 {
        (b - 53) as nat
    } else {
        0
    };
    let unit = pow2(drop);
    let z = nearest(num, den * unit);
    lemma2_to64();
    lemma2_to64_rest();
    lemma_pow2_pos(drop);
    if drop == 0 {
        lemma_mul_basics(z as int);
        assert(n == z);
        if n >= 0x20_0000_0000_0000 {
            // At most two to the power 53.
            if b == 53 {
                lemma_round_ratio_bounds(num, den, 53);
            } else {
                lemma_mul_basics(den as int);
                lemma_bit_length_below(num / den, 52);
                lemma_fundamental_div_mod(num as int, den as int);
            }
            assert(n == 0x20_0000_0000_0000);
            lemma_bit_length_unique(n, 54);
        }
    } else {
        lemma_round_ratio_bounds(num, den, 53);
        lemma_pow2_adds(52, drop);
        lemma_pow2_adds(53, drop);
        assert(z >= 0x10_0000_0000_0000) by (nonlinear_arith)
            requires
                z * unit >= 0x10_0000_0000_0000 * unit,
                unit > 0,
        ;
        assert(z <= 0x20_0000_0000_0000) by (nonlinear_arith)
            requires
                z * unit <= 0x20_0000_0000_0000 * unit,
                unit > 0,
        ;
        lemma_pow2_strictly_increases(52, b);
        if b > 53 {
            lemma_pow2_strictly_increases(53, b);
        }
        if drop > 1 {
            lemma_pow2_strictly_increases(1, drop);
        }
        if z == 0x20_0000_0000_0000 {
            lemma_mul_basics(pow2(b) as int);
            lemma_bit_length_unique(1, 1);
            lemma_bit_length_shift(1, b);
            lemma_pow2_adds(52, drop + 1);
            lemma_pow2_pos(drop + 1);
            lemma_div_by_multiple(0x10_0000_0000_0000, pow2(drop + 1) as int);
            assert(pattern(n, 53, 2045) == (drop + 1) * 0x10_0000_0000_0000 + 0x10_0000_0000_0000);
        } else {
            lemma_bit_length_unique(z, 53);
            lemma_bit_length_shift(z, drop);
            lemma_div_by_multiple(z as int, unit as int);
            assert(pattern(n, 53, 2045) == drop * 0x10_0000_0000_0000 + z);
        }
    }
}

/// A sum of finite numbers is the number of the format that is nearest to the exact sum,
/// and the one with an even pattern where two are as near. It is finite where the exact sum
/// is within the format.
pub proof fn law_sum_is_nearest(a: Seconds, b: Seconds, x: Seconds)
    requires
        a.is_finite(),
        b.is_finite(),
        x.is_finite(),
    ensures
        ({
            let r = a.sum(b);
            let exact = a.value() + b.value();
            &&& r.is_finite() ==> abs(r.value() - exact) <= abs(x.value() - exact)
            &&& r.is_finite() && abs(r.value() - exact) == abs(x.value() - exact) && x.value()
                != r.value() ==> r.bits % 2 == 0
            &&& r.is_finite() || r.is_infinite()
            &&& abs(exact) <= 0x1F_FFFF_FFFF_FFFF * pow2(2045) ==> r.is_finite()
            &&& abs(exact) >= pow2(2098) ==> r.is_infinite()
            &&& exact > 0 ==> !r.negative()
            &&& exact < 0 ==> r.negative()
            &&& exact == 0 ==> r.negative() == (a.negative() && b.negative())
        }),
{
    let r = a.sum(b);
    let exact = a.value() + b.value();
    let zero = Seconds { bits: 0 };
    lemma2_to64();
    lemma_pow2_pos(2045);
    lemma_pow2_pos(2098);
    lemma_mul_basics(pow2(0) as int);
    assert(zero.units() == 0);
    if exact == 0 {
        assert(r.magnitude() == 0);
        assert(r.units() == 0);
    } else {
        let n = abs(exact);
        let p = Seconds { bits: double_bits(round_int(n, 53)) };
        lemma_mul_basics(n as int);
        lemma_mul_basics(x.units() as int);
        lemma_mul_basics(p.units() as int);
        lemma_mul_basics(round_int(n, 53) as int);
        lemma_mul_basics((0x1F_FFFF_FFFF_FFFF * pow2(2045)) as int);
        lemma_mul_basics(pow2(2098) as int);
        lemma_rounded(n, 1, x);
        lemma_rounded(n, 1, zero);
        lemma_digits(p);
        assert(r.magnitude() == p.magnitude());
        assert(r.units() == p.units());
        assert(r.negative() == (exact < 0));
    }
}

/// A count is taken to the number of the format that is nearest to it, and the one with an
/// even pattern where two are as near.
pub proof fn law_count_is_nearest(count: u64, x: Seconds)
    requires
        x.is_finite(),
    ensures
        ({
            let r = Seconds::of_count(count);
            let exact = count * pow2(1074);
            &&& r.is_finite()
            &&& !r.negative()
            &&& abs(r.value() - exact) <= abs(x.value() - exact)
            &&& abs(r.value() - exact) == abs(x.value() - exact) && x.value() != r.value()
                ==> r.bits % 2 == 0
        }),
{
    let n = count as nat;
    let one = pow2(1074);
    let num = n * one;
    let zero = Seconds { bits: 0 };
    lemma2_to64();
    lemma2_to64_rest();
    lemma_pow2_pos(1074);
    lemma_pow2_unfold(64);
    lemma_round_int_shift(n, 53, 1074);
    lemma_pow2_adds(64, 1074);
    lemma_mul_inequality(n as int, pow2(64) as int, one as int);
    lemma_pow2_strictly_increases(1138, 2045);
    lemma_mul_basics((0x1F_FFFF_FFFF_FFFF * pow2(2045)) as int);
    lemma_mul_basics(pow2(0) as int);
    lemma_mul_basics(num as int);
    lemma_mul_basics(x.units() as int);
    lemma_mul_basics(round_int(num, 53) as int);
    assert(zero.units() == 0);
    lemma_rounded(num, 1, x);
    lemma_rounded(num, 1, zero);
}

/// The number with the other sign is as far from zero on the other side, and a difference
/// is the sum with it.
pub proof fn law_difference_turns_the_sign(a: Seconds, b: Seconds)
    ensures
        a.difference(b) == a.sum(b.negated()),
        b.negated().negative() != b.negative(),
        b.negated().magnitude() == b.magnitude(),
        b.negated().value() == -b.value(),
        b.negated().negated() == b,
{
    lemma_digits(b);
    assert(b.negated().units() == b.units());
}

/// A number is above or below zero as its value is, and what is not above zero is clipped.
pub proof fn law_sides_of_zero(x: Seconds)
    ensures
        x.is_finite() ==> (x.above_zero() <==> x.value() > 0),
        x.is_finite() ==> (x.below_zero() <==> x.value() < 0),
        x.is_infinite() ==> x.above_zero() != x.below_zero() && x.below_zero() == x.negative(),
        x.is_nan() ==> !x.above_zero() && !x.below_zero() && x.clipped().value() == 0,
        x.is_infinite() && !x.negative() ==> x.clipped() == x,
        x.is_infinite() && x.negative() ==> x.clipped().value() == 0,
        x.is_finite() ==> x.clipped().is_finite() && x.clipped().value() == (if x.value() > 0 {
            x.value()
        } else {
            0
        }),
{
    let zero = Seconds { bits: 0 };
    lemma2_to64();
    lemma_digits(x);
    lemma_mul_basics(pow2(0) as int);
    assert(zero.units() == 0);
    if x.is_finite() {
        lemma_units_zero(x);
        if x.magnitude() > 0 {
            assert(x.units() > 0);
        } else {
            assert(x.units() == 0);
        }
    }
}

/// A single-precision number is the same number in double precision.
pub proof fn law_widened_is_the_same(x: Sample)
    ensures
        x.is_nan() ==> Seconds::widened(x.bits).is_nan(),
        x.is_infinite() ==> Seconds::widened(x.bits).is_infinite(),
        x.is_finite() ==> Seconds::widened(x.bits).is_finite() && Seconds::widened(x.bits).value()
            == x.value() * pow2(925),
        !x.is_nan() ==> Seconds::widened(x.bits).negative() == x.negative(),
{
    let m = x.magnitude() as nat;
    let y = Seconds::widened(x.bits);
    let d = x.digits();
    let e = x.exponent();
    let t = pow2(925);
    lemma2_to64();
    lemma2_to64_rest();
    if x.is_finite() {
        assert(d < 0x100_0000);
        assert(e <= 253);
        assert(single_units(m) == x.units()) by {
            lemma_mul_basics(d as int);
        }
        lemma_pow2_adds(e, 925);
        lemma_mul_is_associative(d as int, pow2(e) as int, t as int);
        let n = x.units() * t;
        assert(n == d * pow2(e + 925));
        lemma_round_int_scaled(d, e + 925, 53);
        lemma_pow2_pos(e + 925);
        lemma_pow2_adds(24, e + 925);
        lemma_mul_strict_inequality(d as int, 0x100_0000, pow2(e + 925) as int);
        lemma_bit_length_at_most(n, e + 949);
        lemma_units_of_pattern(n);
        let p = Seconds { bits: double_bits(n) };
        lemma_digits(p);
        assert(y.magnitude() == p.magnitude());
        assert(y.units() == n);
        assert(y.negative() == x.negative());
        let u = x.units() as int;
        assert((-u) * t == -(u * t)) by (nonlinear_arith);
    }
}

/// Seconds times a factor as a count are the integer part of the exact product, but for
/// rounding, which is one part in two to the power 53; NaN and what is negative give zero,
/// and what is too large is cut off.
pub proof fn law_count_of_is_product(x: Seconds, factor: u64)
    ensures
        x.is_nan() || x.negative() ==> x.count_of(factor) == 0,
        !x.negative() && x.is_infinite() && factor > 0 ==> x.count_of(factor) == u64::MAX,
        !x.negative() && x.is_infinite() && factor == 0 ==> x.count_of(factor) == 0,
        !x.negative() && x.is_finite() ==> {
            let one = pow2(1074);
            let exact = x.units() * factor;
            let count = x.count_of(factor);
            &&& 0x20_0000_0000_0000 * (count * one) <= 0x20_0000_0000_0001 * exact
            &&& count < u64::MAX ==> 0x1F_FFFF_FFFF_FFFF * exact < 0x20_0000_0000_0000 * ((count
                + 1) * one)
        },
{
    if !x.negative() && x.is_finite() {
        let one = pow2(1074);
        let exact = x.units() * factor as nat;
        let n = round_int(exact, 53);
        let q = n / one;
        let r = n % one;
        lemma2_to64();
        lemma2_to64_rest();
        lemma_pow2_pos(1074);
        lemma_round_int_error(exact, 53);
        lemma_fundamental_div_mod(n as int, one as int);
        assert(q * one <= n < (q + 1) * one) by (nonlinear_arith)
            requires
                n == one * q + r,
                0 <= r < one,
        ;
        let count = x.count_of(factor);
        assert(count <= q);
        lemma_mul_inequality(count as int, q as int, one as int);
    }
}

} // verus!
