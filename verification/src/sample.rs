//! Audio samples and gains as single-precision numbers.
//!
//! A `Sample` is the bit pattern of a binary32 number. The magnitude of a finite
//! sample is a whole number of units of two to the power -149, the smallest
//! positive number of the format.

use vstd::prelude::*;
use vstd::math::abs;
use vstd::arithmetic::div_mod::lemma_fundamental_div_mod;
use vstd::arithmetic::mul::{
    lemma_mul_basics, lemma_mul_is_associative, lemma_mul_strictly_positive,
};
use vstd::arithmetic::power2::{
    lemma2_to64, lemma2_to64_rest, lemma_pow2_adds, lemma_pow2_pos, lemma_pow2_strictly_increases,
    lemma_pow2_unfold, pow2,
};
use crate::float::{
    add_magnitudes, bit_length, divide_single, encode_pattern, lemma_bit_length_at_most,
    lemma_bit_length_below, lemma_bit_length_bounds, lemma_bit_length_shift,
    lemma_bit_length_unique, lemma_nearest_exact, lemma_round_int_exact,
    lemma_round_int_positive, lemma_round_int_scaled, lemma_round_int_shift,
    lemma_round_ratio_best, lemma_round_ratio_bounds, lemma_round_ratio_cancel,
    lemma_round_ratio_fixed, lemma_round_ratio_monotone, lemma_round_ratio_shift, nearest,
    pattern, power_of_two, round_int, round_integer, round_quotient, round_ratio,
    scaled_whole_part, single_quotient, sub_magnitudes, whole_part, Scaled,
};

verus! {

/// The sign bit.
pub const SIGN: u32 = 0x8000_0000;

/// The bit pattern of positive infinity.
pub const INFINITY: u32 = 0x7F80_0000;

/// The bit pattern of the quiet NaN without a payload.
pub const NAN: u32 = 0x7FC0_0000;

/// Two to the power 23: one more than the largest fraction field.
pub const HIDDEN: u32 = 0x80_0000;

/// A single-precision sample or gain, as its bit pattern.
#[derive(Debug, Clone, Copy, PartialEq, Eq, Structural)]
pub struct Sample {
    pub bits: u32,
}

/// The bit pattern of zero: silence.
pub const SILENCE: u32 = 0;

/// The bit pattern of one: the gain that changes nothing.
pub const UNITY: u32 = 0x3F80_0000;

/// The pattern of the positive number of `n` units, where `n` has at most 24
/// significant digits; infinity where the format ends.
pub open spec fn single_bits(n: nat) -> u32 {
    pattern(n, 24, 253) as u32
}

impl Sample {
    pub open spec fn negative(self) -> bool {
        self.bits >= SIGN
    }

    /// The pattern without its sign.
    pub open spec fn magnitude(self) -> u32 {
        if self.bits >= SIGN {
            (self.bits - SIGN) as u32
        } else {
            self.bits
        }
    }

    pub open spec fn is_nan(self) -> bool {
        self.magnitude() > INFINITY
    }

    pub open spec fn is_infinite(self) -> bool {
        self.magnitude() == INFINITY
    }

    pub open spec fn is_finite(self) -> bool {
        self.magnitude() < INFINITY
    }

    /// The exponent of the last digit, in units.
    pub open spec fn exponent(self) -> nat {
        let field = self.magnitude() as nat / HIDDEN as nat;
        if field == 0 {
            0
        } else {
            (field - 1) as nat
        }
    }

    /// The digits of a finite number.
    pub open spec fn digits(self) -> nat {
        let fraction = self.magnitude() as nat % HIDDEN as nat;
        if self.magnitude() < HIDDEN {
            fraction
        } else {
            HIDDEN as nat + fraction
        }
    }

    /// The magnitude of a finite number in units of two to the power -149.
    pub open spec fn units(self) -> nat {
        self.digits() * pow2(self.exponent())
    }

    /// The finite number itself, in the same units.
    pub open spec fn value(self) -> int {
        if self.negative() {
            -(self.units() as int)
        } else {
            self.units() as int
        }
    }

    /// The number with the given sign and unsigned pattern.
    pub open spec fn signed(negative: bool, magnitude: u32) -> Sample {
        if negative {
            Sample { bits: (SIGN + magnitude) as u32 }
        } else {
            Sample { bits: magnitude }
        }
    }

    /// What `self + other` is: the exact sum rounded to 24 digits, with the usual
    /// rules for infinities, NaN and the sign of zero.
    pub open spec fn sum(self, other: Sample) -> Sample {
        if self.is_nan() || other.is_nan() || (self.is_infinite() && other.is_infinite()
            && self.negative() != other.negative()) {
            Sample { bits: NAN }
        } else if self.is_infinite() {
            self
        } else if other.is_infinite() {
            other
        } else {
            let exact = self.value() + other.value();
            if exact > 0 {
                Sample::signed(false, single_bits(round_int(exact as nat, 24)))
            } else if exact < 0 {
                Sample::signed(true, single_bits(round_int((-exact) as nat, 24)))
            } else {
                Sample::signed(self.negative() && other.negative(), 0)
            }
        }
    }

    /// What `self * other` is: the exact product rounded to 24 digits and to no
    /// finer than a unit, with the usual rules for infinities, NaN and zero.
    pub open spec fn product(self, other: Sample) -> Sample {
        let negative = self.negative() != other.negative();
        if self.is_nan() || other.is_nan() || (self.is_infinite() && other.magnitude() == 0) || (
        other.is_infinite() && self.magnitude() == 0) {
            Sample { bits: NAN }
        } else if self.is_infinite() || other.is_infinite() {
            Sample::signed(negative, INFINITY)
        } else {
            Sample::signed(
                negative,
                single_bits(round_ratio(self.units() * other.units(), pow2(149), 24)),
            )
        }
    }

    /// What `self / other` is: the exact quotient rounded to 24 digits and to no
    /// finer than a unit, with the usual rules for infinities, NaN and zero.
    pub open spec fn quotient(self, other: Sample) -> Sample {
        let negative = self.negative() != other.negative();
        if self.is_nan() || other.is_nan() || (self.is_infinite() && other.is_infinite()) || (
        self.magnitude() == 0 && other.magnitude() == 0) {
            Sample { bits: NAN }
        } else if self.is_infinite() || other.magnitude() == 0 {
            Sample::signed(negative, INFINITY)
        } else if other.is_infinite() {
            Sample::signed(negative, 0)
        } else {
            Sample::signed(
                negative,
                single_bits(round_ratio(self.units() * pow2(149), other.units(), 24)),
            )
        }
    }

    /// What `self as u64` is: the integer part, with everything below zero and NaN at
    /// zero and everything too large at the largest count.
    pub open spec fn whole(self) -> u64 {
        if self.is_nan() || self.negative() {
            0
        } else if self.is_infinite() {
            u64::MAX
        } else {
            whole_part(self.units(), 149)
        }
    }

    /// What `count as f32` is.
    pub open spec fn of_count(count: nat) -> Sample {
        Sample { bits: single_bits(round_int(count, 24) * pow2(149)) }
    }

    /// What `num as f32 / den as f32` is, for a positive denominator.
    pub open spec fn of_ratio(num: nat, den: nat) -> Sample {
        Sample { bits: single_bits(single_quotient(num, den)) }
    }
}

proof fn lemma_digits(x: Sample)
    ensures
        x.magnitude() < SIGN,
        x.digits() < 0x100_0000,
        x.exponent() > 0 ==> x.digits() >= HIDDEN,
        x.is_finite() ==> x.exponent() <= 253,
        x.magnitude() > 0 <==> x.digits() > 0 || x.exponent() > 0,
{
    let m = x.magnitude() as int;
    assert(m == (m / 0x80_0000) * 0x80_0000 + m % 0x80_0000);
}

/// Takes a finite number apart into its digits and its exponent.
fn decode(x: Sample) -> (result: Scaled)
    requires
        x.is_finite(),
    ensures
        result.mant == x.digits(),
        result.exp == x.exponent(),
        result@ == x.units(),
        result.mant < 0x100_0000,
        result.exp <= 253,
        result.exp > 0 ==> result.mant >= HIDDEN,
{
    let magnitude: u32 = if x.bits >= SIGN {
        x.bits - SIGN
    } else {
        x.bits
    };
    proof {
        lemma_digits(x);
    }
    let field: u32 = magnitude / HIDDEN;
    let fraction: u32 = magnitude % HIDDEN;
    if field == 0 {
        Scaled { mant: fraction as u64, exp: 0 }
    } else {
        Scaled { mant: (HIDDEN + fraction) as u64, exp: field - 1 }
    }
}

/// The pattern of a number of at most 24 significant digits.
fn encode(x: Scaled) -> (bits: u32)
    requires
        x.mant <= 0x100_0000,
        x.exp <= 4096,
    ensures
        bits == single_bits(x@),
        bits <= INFINITY,
{
    proof {
        lemma2_to64();
        lemma2_to64_rest();
    }
    encode_pattern(x, 24, 253) as u32
}

/// The number with the given sign and unsigned pattern.
fn with_sign(negative: bool, magnitude: u32) -> (result: Sample)
    requires
        magnitude < SIGN,
    ensures
        result == Sample::signed(negative, magnitude),
{
    if negative {
        Sample { bits: SIGN + magnitude }
    } else {
        Sample { bits: magnitude }
    }
}

/// A number is zero exactly when its digits are.
proof fn lemma_units_zero(x: Sample)
    requires
        x.is_finite(),
    ensures
        x.units() == 0 <==> x.digits() == 0,
        x.units() >= 0,
{
    lemma_pow2_pos(x.exponent());
    let d = x.digits();
    let f = pow2(x.exponent());
    assert(d * f == 0 <==> d == 0) by (nonlinear_arith)
        requires
            f > 0,
            d >= 0,
    ;
}

/// The product of two magnitudes in units, rounded.
fn multiply_magnitudes(a: Scaled, b: Scaled) -> (result: Scaled)
    requires
        a.mant < 0x100_0000,
        b.mant < 0x100_0000,
        a.exp <= 253,
        b.exp <= 253,
    ensures
        result@ == round_ratio(a@ * b@, pow2(149), 24),
        result.mant <= 0x100_0000,
        result.exp <= 4096,
{
    assert(a.mant * b.mant < 0x1_0000_0000_0000) by (nonlinear_arith)
        requires
            0 <= a.mant < 0x100_0000,
            0 <= b.mant < 0x100_0000,
    ;
    let digits: u128 = a.mant as u128 * b.mant as u128;
    let exp: u32 = a.exp + b.exp;
    let ghost d = digits as nat;
    proof {
        lemma2_to64();
        lemma2_to64_rest();
        lemma_pow2_pos(149);
        lemma_pow2_pos(exp as nat);
        lemma_pow2_adds(a.exp as nat, b.exp as nat);
        let x = pow2(a.exp as nat);
        let y = pow2(b.exp as nat);
        assert(a@ * b@ == d * pow2(exp as nat)) by (nonlinear_arith)
            requires
                a@ == a.mant as nat * x,
                b@ == b.mant as nat * y,
                d == a.mant as nat * b.mant as nat,
                pow2(exp as nat) == x * y,
        ;
    }
    if exp >= 149 {
        let shift: u32 = exp - 149;
        let rounded: Scaled = round_integer(digits, 24);
        proof {
            lemma_pow2_adds(shift as nat, 149);
            lemma_mul_is_associative(d as int, pow2(shift as nat) as int, pow2(149) as int);
            lemma_round_ratio_cancel(d * pow2(shift as nat), 1, pow2(149), 24);
            lemma_mul_basics(pow2(149) as int);
            lemma_round_int_shift(d, 24, shift as nat);
            lemma_pow2_adds(rounded.exp as nat, shift as nat);
            lemma_mul_is_associative(
                rounded.mant as int,
                pow2(rounded.exp as nat) as int,
                pow2(shift as nat) as int,
            );
        }
        Scaled { mant: rounded.mant, exp: rounded.exp + shift }
    } else {
        let shift: u32 = 149 - exp;
        proof {
            lemma_pow2_adds(shift as nat, exp as nat);
            lemma_pow2_pos(shift as nat);
            lemma_round_ratio_cancel(d, pow2(shift as nat), pow2(exp as nat), 24);
        }
        if shift >= 128 {
            proof {
                // Less than half a unit is left.
                let unit = pow2(shift as nat);
                lemma_pow2_strictly_increases(49, shift as nat);
                lemma_pow2_unfold(49);
                lemma_mul_basics(unit as int);
                vstd::arithmetic::div_mod::lemma_basic_div(d as int, unit as int);
                vstd::arithmetic::div_mod::lemma_small_mod(d, unit);
            }
            return Scaled { mant: 0, exp: 0 };
        }
        round_quotient(digits, power_of_two(shift), 24)
    }
}

/// The quotient of two magnitudes in units, rounded.
fn divide_magnitudes(a: Scaled, b: Scaled) -> (result: Scaled)
    requires
        a.mant < 0x100_0000,
        0 < b.mant < 0x100_0000,
        a.exp <= 253,
        b.exp <= 253,
    ensures
        result@ == round_ratio(a@ * pow2(149), b@, 24),
        result.mant <= 0x100_0000,
        result.exp <= 4096,
{
    proof {
        lemma2_to64();
        lemma2_to64_rest();
        lemma_pow2_pos(149);
        lemma_pow2_pos(b.exp as nat);
        lemma_mul_strictly_positive(b.mant as int, pow2(b.exp as nat) as int);
    }
    if a.mant == 0 {
        proof {
            let d = b@;
            lemma_mul_basics(pow2(a.exp as nat) as int);
            lemma_mul_basics(pow2(149) as int);
            vstd::arithmetic::div_mod::lemma_div_of0(d as int);
            lemma_nearest_exact(0, d);
            lemma_mul_basics(d as int);
        }
        return Scaled { mant: 0, exp: 0 };
    }
    let n: u128 = a.mant as u128 * 0x1_0000_0000_0000;
    let e: u32 = a.exp + 101;
    let ghost m = a.mant as nat;
    proof {
        lemma_pow2_adds(a.exp as nat, 149);
        lemma_mul_is_associative(m as int, pow2(a.exp as nat) as int, pow2(149) as int);
        lemma_pow2_adds(48, e as nat);
        lemma_mul_is_associative(m as int, pow2(48) as int, pow2(e as nat) as int);
        assert(a@ * pow2(149) == n as nat * pow2(e as nat));
    }
    if e >= b.exp {
        let shift: u32 = e - b.exp;
        let q: Scaled = round_quotient(n, b.mant as u128, 24);
        proof {
            let den = b.mant as nat;
            let unit = pow2(b.exp as nat);
            lemma_pow2_adds(shift as nat, b.exp as nat);
            lemma_mul_is_associative(n as int, pow2(shift as nat) as int, unit as int);
            lemma_round_ratio_cancel(n as nat * pow2(shift as nat), den, unit, 24);
            let whole = n as nat / den;
            lemma_fundamental_div_mod(n as int, den as int);
            let r = n as nat % den;
            assert(whole >= 0x80_0000) by (nonlinear_arith)
                requires
                    n as nat == den * whole + r,
                    0 <= r < den,
                    0 < den < 0x100_0000,
                    n >= 0x1_0000_0000_0000,
            ;
            if bit_length(whole) < 24 {
                lemma_bit_length_bounds(whole);
                if bit_length(whole) < 23 {
                    lemma_pow2_strictly_increases(bit_length(whole), 23);
                }
            }
            lemma_round_ratio_shift(n as nat, den, 24, shift as nat);
            lemma_pow2_adds(q.exp as nat, shift as nat);
            lemma_mul_is_associative(
                q.mant as int,
                pow2(q.exp as nat) as int,
                pow2(shift as nat) as int,
            );
        }
        Scaled { mant: q.mant, exp: q.exp + shift }
    } else {
        let shift: u32 = b.exp - e;
        let ghost den = b.mant as nat * pow2(shift as nat);
        proof {
            lemma_pow2_pos(e as nat);
            lemma_pow2_pos(shift as nat);
            lemma_pow2_adds(shift as nat, e as nat);
            lemma_mul_is_associative(b.mant as int, pow2(shift as nat) as int, pow2(e as nat) as int);
            lemma_mul_strictly_positive(b.mant as int, pow2(shift as nat) as int);
            lemma_round_ratio_cancel(n as nat, den, pow2(e as nat), 24);
        }
        if shift >= 74 {
            proof {
                // Less than half a unit is left.
                if shift > 74 {
                    lemma_pow2_strictly_increases(74, shift as nat);
                }
                lemma_pow2_adds(37, 37);
                vstd::arithmetic::mul::lemma_mul_inequality(
                    1,
                    b.mant as int,
                    pow2(shift as nat) as int,
                );
                lemma_mul_basics(pow2(shift as nat) as int);
                lemma_mul_basics(den as int);
                vstd::arithmetic::div_mod::lemma_basic_div(n as int, den as int);
                vstd::arithmetic::div_mod::lemma_small_mod(n as nat, den);
            }
            return Scaled { mant: 0, exp: 0 };
        }
        proof {
            lemma_pow2_strictly_increases(shift as nat, 74);
            lemma_pow2_adds(37, 37);
            assert(b.mant * pow2(shift as nat) <= 0x100_0000 * 0x400_0000_0000_0000_0000)
                by (nonlinear_arith)
                requires
                    0 <= b.mant < 0x100_0000,
                    0 <= pow2(shift as nat) < 0x400_0000_0000_0000_0000,
            ;
        }
        round_quotient(n, b.mant as u128 * power_of_two(shift), 24)
    }
}

impl Sample {
    /// `self / other`.
    pub fn over(self, other: Sample) -> (result: Sample)
        ensures
            result == self.quotient(other),
    {
        let a_negative: bool = self.bits >= SIGN;
        let b_negative: bool = other.bits >= SIGN;
        let a_magnitude: u32 = if a_negative {
            self.bits - SIGN
        } else {
            self.bits
        };
        let b_magnitude: u32 = if b_negative {
            other.bits - SIGN
        } else {
            other.bits
        };
        if a_magnitude > INFINITY || b_magnitude > INFINITY || (a_magnitude == INFINITY
            && b_magnitude == INFINITY) || (a_magnitude == 0 && b_magnitude == 0) {
            return Sample { bits: NAN };
        }
        let negative: bool = a_negative != b_negative;
        if a_magnitude == INFINITY || b_magnitude == 0 {
            return with_sign(negative, INFINITY);
        }
        if b_magnitude == INFINITY {
            return with_sign(negative, 0);
        }
        proof {
            lemma_digits(other);
        }
        with_sign(negative, encode(divide_magnitudes(decode(self), decode(other))))
    }

    /// `self as u64`.
    pub fn to_whole(self) -> (result: u64)
        ensures
            result == self.whole(),
    {
        if self.bits > INFINITY {
            return 0;
        }
        if self.bits == INFINITY {
            return u64::MAX;
        }
        scaled_whole_part(decode(self), 149)
    }

    /// `self + other`.
    pub fn plus(self, other: Sample) -> (result: Sample)
        ensures
            result == self.sum(other),
    {
        let a_negative: bool = self.bits >= SIGN;
        let b_negative: bool = other.bits >= SIGN;
        let a_magnitude: u32 = if a_negative {
            self.bits - SIGN
        } else {
            self.bits
        };
        let b_magnitude: u32 = if b_negative {
            other.bits - SIGN
        } else {
            other.bits
        };
        if a_magnitude > INFINITY || b_magnitude > INFINITY || (a_magnitude == INFINITY
            && b_magnitude == INFINITY && a_negative != b_negative) {
            return Sample { bits: NAN };
        }
        if a_magnitude == INFINITY {
            return self;
        }
        if b_magnitude == INFINITY {
            return other;
        }
        let a: Scaled = decode(self);
        let b: Scaled = decode(other);
        proof {
            lemma2_to64();
            lemma2_to64_rest();
            lemma_units_zero(self);
            lemma_units_zero(other);
            lemma_round_int_exact(0, 24);
        }
        let a_first: bool = a.exp > b.exp || (a.exp == b.exp && a.mant >= b.mant);
        let (big, small, negative): (Scaled, Scaled, bool) = if a_first {
            (a, b, a_negative)
        } else {
            (b, a, b_negative)
        };
        if a_negative == b_negative {
            with_sign(a_negative, encode(add_magnitudes(big, small, 24)))
        } else {
            let rest: Scaled = sub_magnitudes(big, small, 24);
            if big.mant == small.mant && big.exp == small.exp {
                Sample { bits: SILENCE }
            } else {
                with_sign(negative, encode(rest))
            }
        }
    }

    /// `self * other`.
    pub fn times(self, other: Sample) -> (result: Sample)
        ensures
            result == self.product(other),
    {
        let a_negative: bool = self.bits >= SIGN;
        let b_negative: bool = other.bits >= SIGN;
        let a_magnitude: u32 = if a_negative {
            self.bits - SIGN
        } else {
            self.bits
        };
        let b_magnitude: u32 = if b_negative {
            other.bits - SIGN
        } else {
            other.bits
        };
        if a_magnitude > INFINITY || b_magnitude > INFINITY || (a_magnitude == INFINITY
            && b_magnitude == 0) || (b_magnitude == INFINITY && a_magnitude == 0) {
            return Sample { bits: NAN };
        }
        let negative: bool = a_negative != b_negative;
        if a_magnitude == INFINITY || b_magnitude == INFINITY {
            return with_sign(negative, INFINITY);
        }
        with_sign(negative, encode(multiply_magnitudes(decode(self), decode(other))))
    }

    /// `count as f32`.
    pub fn from_count(count: u64) -> (result: Sample)
        ensures
            result == Sample::of_count(count as nat),
    {
        let rounded: Scaled = round_integer(count as u128, 24);
        proof {
            lemma2_to64();
            lemma2_to64_rest();
            lemma_pow2_adds(rounded.exp as nat, 149);
            lemma_mul_is_associative(
                rounded.mant as int,
                pow2(rounded.exp as nat) as int,
                pow2(149) as int,
            );
        }
        Sample { bits: encode(Scaled { mant: rounded.mant, exp: rounded.exp + 149 }) }
    }

    /// `num as f32 / den as f32`.
    pub fn from_ratio(num: u64, den: u64) -> (result: Sample)
        requires
            den > 0,
        ensures
            result == Sample::of_ratio(num as nat, den as nat),
    {
        Sample { bits: encode(divide_single(num as u128, den as u128)) }
    }
}

/// A finite number is its own pattern again.
pub proof fn lemma_pattern_of_units(x: Sample)
    requires
        x.is_finite(),
    ensures
        single_bits(x.units()) == x.magnitude(),
        round_int(x.units(), 24) == x.units(),
{
    lemma2_to64();
    lemma2_to64_rest();
    lemma_digits(x);
    let m = x.magnitude() as nat;
    let d = x.digits();
    let e = x.exponent();
    lemma_fundamental_div_mod(m as int, 0x80_0000);
    lemma_pow2_pos(e);
    lemma_round_int_scaled(d, e, 24);
    if e == 0 {
        lemma_mul_basics(d as int);
    } else {
        let n = x.units();
        lemma_bit_length_unique(d, 24);
        lemma_bit_length_shift(d, e);
        lemma_bit_length_bounds(n);
        lemma_pow2_adds(23, e);
        if e + 23 > 24 {
            lemma_pow2_strictly_increases(24, e + 23);
        }
        vstd::arithmetic::div_mod::lemma_div_by_multiple(d as int, pow2(e) as int);
        assert(n / pow2(e) == d);
        assert(pattern(n, 24, 253) == e * 0x80_0000 + d);
    }
}

/// The units of one.
proof fn lemma_unity()
    ensures
        (Sample { bits: UNITY }).units() == pow2(149),
        (Sample { bits: UNITY }).is_finite(),
        !(Sample { bits: UNITY }).negative(),
{
    lemma2_to64();
    lemma_pow2_adds(23, 126);
}

/// Times one is no change.
pub proof fn law_times_unity(x: Sample)
    requires
        !x.is_nan(),
    ensures
        x.product(Sample { bits: UNITY }) == x,
{
    lemma_unity();
    lemma_digits(x);
    if x.is_finite() {
        let n = x.units();
        lemma_pow2_pos(149);
        lemma_mul_basics(pow2(149) as int);
        lemma_round_ratio_cancel(n, 1, pow2(149), 24);
        lemma_pattern_of_units(x);
    }
}

/// Silence with a sample on it is that sample, except for negative zero.
pub proof fn law_onto_silence(x: Sample)
    requires
        !x.is_nan(),
        x.bits != SIGN,
    ensures
        (Sample { bits: SILENCE }).sum(x) == x,
{
    lemma2_to64();
    lemma_digits(x);
    let zero = Sample { bits: SILENCE };
    lemma_mul_basics(pow2(0) as int);
    assert(zero.units() == 0);
    if x.is_finite() {
        lemma_units_zero(x);
        lemma_pattern_of_units(x);
    }
}

/// The order of a sum does not matter.
pub proof fn law_sum_commutes(a: Sample, b: Sample)
    ensures
        a.sum(b) == b.sum(a),
{
}

/// The order of a product does not matter.
pub proof fn law_product_commutes(a: Sample, b: Sample)
    ensures
        a.product(b) == b.product(a),
{
    vstd::arithmetic::mul::lemma_mul_is_commutative(a.units() as int, b.units() as int);
}

/// One as a count is one as a gain.
pub proof fn law_count_of_one()
    ensures
        Sample::of_count(1) == (Sample { bits: UNITY }),
{
    lemma2_to64();
    lemma_unity();
    lemma_bit_length_unique(1, 1);
    lemma_round_int_exact(1, 24);
    lemma_mul_basics(pow2(149) as int);
    lemma_pattern_of_units(Sample { bits: UNITY });
}

/// A count over itself is one, and zero over a count is silence.
pub proof fn law_ratio_ends(count: nat)
    requires
        count > 0,
    ensures
        Sample::of_ratio(count, count) == (Sample { bits: UNITY }),
        Sample::of_ratio(0, count) == (Sample { bits: SILENCE }),
{
    lemma2_to64();
    lemma_unity();
    lemma_pow2_pos(149);
    lemma_round_int_positive(count, 24);
    let d = round_int(count, 24);
    vstd::arithmetic::mul::lemma_mul_is_commutative(d as int, pow2(149) as int);
    lemma_mul_basics(d as int);
    lemma_round_ratio_cancel(pow2(149), 1, d, 24);
    lemma_pattern_of_units(Sample { bits: UNITY });
    lemma_round_int_exact(0, 24);
    lemma_mul_basics(pow2(149) as int);
    vstd::arithmetic::div_mod::lemma_div_of0(d as int);
    lemma_nearest_exact(0, d);
}

/// A number that needs no rounding is what its pattern stands for, as long as the
/// format reaches that far.
pub proof fn lemma_units_of_pattern(n: nat)
    requires
        round_int(n, 24) == n,
        bit_length(n) <= 277,
    ensures
        (Sample { bits: single_bits(n) }).units() == n,
        (Sample { bits: single_bits(n) }).is_finite(),
        !(Sample { bits: single_bits(n) }).negative(),
{
    lemma2_to64();
    lemma2_to64_rest();
    let x = Sample { bits: single_bits(n) };
    if n < 0x100_0000 {
        lemma_fundamental_div_mod(n as int, 0x80_0000);
        lemma_mul_basics(n as int);
    } else {
        let b = bit_length(n);
        lemma_bit_length_bounds(n);
        if b <= 24 {
            if b < 24 {
                lemma_pow2_strictly_increases(b, 24);
            }
            assert(false);
        }
        let e = (b - 24) as nat;
        let unit = pow2(e);
        lemma_pow2_pos(e);
        lemma_pow2_adds(23, e);
        lemma_pow2_adds(24, e);
        assert(n / 1 == n);
        lemma_mul_basics(unit as int);
        let z = nearest(n, unit);
        assert(n == z * unit);
        vstd::arithmetic::div_mod::lemma_div_by_multiple(z as int, unit as int);
        if z < 0x80_0000 {
            vstd::arithmetic::mul::lemma_mul_strict_inequality(z as int, 0x80_0000, unit as int);
        }
        if z >= 0x100_0000 {
            vstd::arithmetic::mul::lemma_mul_inequality(0x100_0000, z as int, unit as int);
        }
        assert(pattern(n, 24, 253) == e * 0x80_0000 + z);
        let m = x.bits as int;
        assert(m == (e + 1) * 0x80_0000 + (z - 0x80_0000));
        vstd::arithmetic::div_mod::lemma_fundamental_div_mod_converse(
            m,
            0x80_0000,
            (e + 1) as int,
            z - 0x80_0000,
        );
    }
}

/// A count below two to the power 64 is a finite number of units.
pub proof fn lemma_count_units(count: nat)
    requires
        count < pow2(64),
    ensures
        Sample::of_count(count).units() == round_int(count, 24) * pow2(149),
        round_int(count, 24) <= pow2(64),
        Sample::of_count(count).is_finite(),
        !Sample::of_count(count).negative(),
{
    let n = round_int(count, 24);
    lemma2_to64();
    lemma_pow2_pos(64);
    lemma_pow2_pos(149);
    assert(count / 1 == count);
    lemma_round_ratio_monotone(count, pow2(64), 1, 24);
    lemma_mul_basics(pow2(64) as int);
    lemma_round_int_scaled(1, 64, 24);
    lemma_round_ratio_fixed(count, 1, 24);
    lemma_round_int_shift(n, 24, 149);
    lemma_pow2_adds(64, 149);
    vstd::arithmetic::mul::lemma_mul_inequality(n as int, pow2(64) as int, pow2(149) as int);
    lemma_pow2_strictly_increases(213, 214);
    lemma_bit_length_at_most(n * pow2(149), 214);
    lemma_units_of_pattern(n * pow2(149));
}

/// The units of a product of two numbers that are not negative, as long as the format
/// reaches that far.
pub proof fn lemma_product_units(x: Sample, y: Sample)
    requires
        x.is_finite(),
        y.is_finite(),
        !x.negative(),
        !y.negative(),
        bit_length(round_ratio(x.units() * y.units(), pow2(149), 24)) <= 277,
    ensures
        x.product(y).units() == round_ratio(x.units() * y.units(), pow2(149), 24),
        x.product(y).is_finite(),
        !x.product(y).negative(),
{
    lemma_pow2_pos(149);
    lemma_round_ratio_fixed(x.units() * y.units(), pow2(149), 24);
    lemma_units_of_pattern(round_ratio(x.units() * y.units(), pow2(149), 24));
}

/// The units of a quotient of a number that is not negative and a positive one, as long
/// as the format reaches that far.
pub proof fn lemma_quotient_units(x: Sample, y: Sample)
    requires
        x.is_finite(),
        y.is_finite(),
        !x.negative(),
        !y.negative(),
        y.units() > 0,
        bit_length(round_ratio(x.units() * pow2(149), y.units(), 24)) <= 277,
    ensures
        x.quotient(y).units() == round_ratio(x.units() * pow2(149), y.units(), 24),
        x.quotient(y).is_finite(),
        !x.quotient(y).negative(),
{
    lemma_digits(y);
    lemma_units_zero(y);
    lemma_round_ratio_fixed(x.units() * pow2(149), y.units(), 24);
    lemma_units_of_pattern(round_ratio(x.units() * pow2(149), y.units(), 24));
}

/// Patterns count up through the numbers: one unit a step at first, and twice the distance
/// each time that the fraction has run through.
pub proof fn law_patterns_count_up(m: u32)
    requires
        m < INFINITY,
    ensures
        m <= 0x100_0000 ==> (Sample { bits: m }).value() == m,
        HIDDEN <= m < INFINITY - HIDDEN ==> (Sample { bits: (m + HIDDEN) as u32 }).value() == 2 * (
        Sample { bits: m }).value(),
        (Sample { bits: (m + SIGN) as u32 }).value() == -(Sample { bits: m }).value(),
{
    lemma2_to64();
    let x = Sample { bits: m };
    let y = Sample { bits: (m + SIGN) as u32 };
    lemma_mul_basics(x.digits() as int);
    assert(y.magnitude() == m);
    if m < 0x100_0000 {
        assert(x.exponent() == 0);
        assert(x.digits() == m);
    }
    if HIDDEN <= m < INFINITY - HIDDEN {
        let z = Sample { bits: (m + HIDDEN) as u32 };
        assert(z.exponent() == x.exponent() + 1);
        assert(z.digits() == x.digits());
        lemma_pow2_unfold(z.exponent());
        let d = x.digits() as int;
        let f = pow2(x.exponent()) as int;
        assert(d * (2 * f) == 2 * (d * f)) by (nonlinear_arith);
    }
}

/// What rounding comes to in patterns.
proof fn lemma_rounded(num: nat, den: nat, x: Sample)
    requires
        den > 0,
        x.is_finite(),
    ensures
        ({
            let n = round_ratio(num, den, 24);
            let r = Sample { bits: single_bits(n) };
            &&& !r.negative()
            &&& r.is_finite() ==> {
                &&& r.units() == n
                &&& abs(n * den - num) <= abs(x.units() * den - num)
                &&& abs(n * den - num) == abs(x.units() * den - num) && x.units() != n ==> r.bits
                    % 2 == 0
            }
            &&& r.is_finite() || r.is_infinite()
            &&& num <= 0xFF_FFFF * pow2(253) * den ==> r.is_finite()
            &&& num >= pow2(277) * den ==> r.is_infinite()
        }),
{
    let n = round_ratio(num, den, 24);
    let r = Sample { bits: single_bits(n) };
    let b = bit_length(n);
    lemma2_to64();
    lemma2_to64_rest();
    lemma_round_ratio_fixed(num, den, 24);
    lemma_pattern_of_units(x);
    lemma_round_ratio_best(num, den, 24, x.units());
    if n >= 0x100_0000 {
        lemma_bit_length_bounds(n);
        if b < 25 {
            if b < 24 {
                lemma_pow2_strictly_increases(b, 24);
            }
            assert(false);
        }
        if b > 277 {
            assert(pattern(n, 24, 253) == 255 * 0x80_0000);
        } else {
            lemma_units_of_pattern(n);
        }
    } else {
        lemma_bit_length_at_most(n, 24);
        lemma_units_of_pattern(n);
    }
    if r.is_finite() && abs(n * den - num) == abs(x.units() * den - num) && x.units() != n {
        lemma_even_pattern(num, den);
    }
    let most = 0xFF_FFFF * pow2(253);
    lemma_pow2_pos(253);
    lemma_pow2_adds(24, 253);
    if num <= most * den {
        lemma_round_ratio_monotone(num, most * den, den, 24);
        lemma_mul_basics(den as int);
        lemma_round_ratio_cancel(most, 1, den, 24);
        lemma_round_int_scaled(0xFF_FFFF, 253, 24);
        assert(n <= most);
        lemma_bit_length_at_most(n, 277);
    }
    if num >= pow2(277) * den {
        lemma_round_ratio_monotone(pow2(277) * den, num, den, 24);
        lemma_mul_basics(den as int);
        lemma_round_ratio_cancel(pow2(277), 1, den, 24);
        lemma_mul_basics(pow2(277) as int);
        lemma_round_int_scaled(1, 277, 24);
        assert(n >= pow2(277));
        if b <= 277 {
            lemma_bit_length_bounds(n);
            if b < 277 {
                lemma_pow2_strictly_increases(b, 277);
            }
            assert(false);
        }
    }
}

/// A rounded number whose last digit is zero has an even pattern.
proof fn lemma_even_pattern(num: nat, den: nat)
    requires
        den > 0,
        bit_length(round_ratio(num, den, 24)) <= 277,
        ({
            let bits = bit_length(num / den);
            let drop = if bits > 24 {
                (bits - 24) as nat
            } else {
                0
            };
            nearest(num, den * pow2(drop)) % 2 == 0
        }),
    ensures
        single_bits(round_ratio(num, den, 24)) % 2 == 0,
{
    let n = round_ratio(num, den, 24);
    let b = bit_length(num / den);
    let drop = if b > 24 {
        (b - 24) as nat
    } else {
        0
    };
    let unit = pow2(drop);
    let z = nearest(num, den * unit);
    lemma2_to64();
    lemma2_to64_rest();
    lemma_pow2_pos(drop);
    if drop == 0 {
        lemma_mul_basics(z as int);
        assert(n == z);
        if n >= 0x100_0000 {
            // At most two to the power 24.
            if b == 24 {
                lemma_round_ratio_bounds(num, den, 24);
            } else {
                lemma_mul_basics(den as int);
                lemma_bit_length_below(num / den, 23);
                vstd::arithmetic::div_mod::lemma_fundamental_div_mod(num as int, den as int);
            }
            assert(n == 0x100_0000);
            lemma_bit_length_unique(n, 25);
        }
    } else {
        lemma_round_ratio_bounds(num, den, 24);
        lemma_pow2_adds(23, drop);
        lemma_pow2_adds(24, drop);
        assert(z >= 0x80_0000) by (nonlinear_arith)
            requires
                z * unit >= 0x80_0000 * unit,
                unit > 0,
        ;
        assert(z <= 0x100_0000) by (nonlinear_arith)
            requires
                z * unit <= 0x100_0000 * unit,
                unit > 0,
        ;
        lemma_pow2_strictly_increases(23, b);
        if b > 24 {
            lemma_pow2_strictly_increases(24, b);
        }
        if drop > 1 {
            lemma_pow2_strictly_increases(1, drop);
        }
        if z == 0x100_0000 {
            lemma_mul_basics(pow2(b) as int);
            lemma_bit_length_unique(1, 1);
            lemma_bit_length_shift(1, b);
            lemma_pow2_adds(23, drop + 1);
            lemma_pow2_pos(drop + 1);
            vstd::arithmetic::div_mod::lemma_div_by_multiple(0x80_0000, pow2(drop + 1) as int);
            assert(pattern(n, 24, 253) == (drop + 1) * 0x80_0000 + 0x80_0000);
        } else {
            lemma_bit_length_unique(z, 24);
            lemma_bit_length_shift(z, drop);
            vstd::arithmetic::div_mod::lemma_div_by_multiple(z as int, unit as int);
            assert(pattern(n, 24, 253) == drop * 0x80_0000 + z);
        }
    }
}

/// A sum of finite numbers is the number of the format that is nearest to the exact sum,
/// and the one with an even pattern where two are as near. It is finite where the exact sum
/// is within the format.
pub proof fn law_sum_is_nearest(a: Sample, b: Sample, x: Sample)
    requires
        a.is_finite(),
        b.is_finite(),
        x.is_finite(),
    ensures
        ({
            let r = a.sum(b);
            let exact = a.value() + b.value();
            &&& r.is_finite() ==> abs(r.value() - exact) <= abs(x.value() - exact)
            &&& r.is_finite() && abs(r.value() - exact) == abs(x.value() - exact) && x.value()
                != r.value() ==> r.bits % 2 == 0
            &&& r.is_finite() || r.is_infinite()
            &&& abs(exact) <= 0xFF_FFFF * pow2(253) ==> r.is_finite()
            &&& abs(exact) >= pow2(277) ==> r.is_infinite()
            &&& exact > 0 ==> !r.negative()
            &&& exact < 0 ==> r.negative()
            &&& exact == 0 ==> r.negative() == (a.negative() && b.negative())
        }),
{
    let r = a.sum(b);
    let exact = a.value() + b.value();
    let zero = Sample { bits: SILENCE };
    lemma2_to64();
    lemma_pow2_pos(253);
    lemma_pow2_pos(277);
    lemma_mul_basics(pow2(0) as int);
    assert(zero.units() == 0);
    if exact == 0 {
        assert(r.magnitude() == 0);
        assert(r.units() == 0);
    } else {
        let n = abs(exact);
        let p = Sample { bits: single_bits(round_int(n, 24)) };
        lemma_mul_basics(n as int);
        lemma_mul_basics(x.units() as int);
        lemma_mul_basics(p.units() as int);
        lemma_mul_basics(round_int(n, 24) as int);
        lemma_mul_basics((0xFF_FFFF * pow2(253)) as int);
        lemma_mul_basics(pow2(277) as int);
        lemma_rounded(n, 1, x);
        lemma_rounded(n, 1, zero);
        lemma_digits(p);
        assert(r.magnitude() == p.magnitude());
        assert(r.units() == p.units());
        assert(r.negative() == (exact < 0));
    }
}

/// A product of finite numbers is the number of the format that is nearest to the exact
/// product, and the one with an even pattern where two are as near. It is finite where the
/// exact product is within the format, and negative where the signs differ.
pub proof fn law_product_is_nearest(a: Sample, b: Sample, x: Sample)
    requires
        a.is_finite(),
        b.is_finite(),
        x.is_finite(),
    ensures
        ({
            let r = a.product(b);
            let one = pow2(149);
            let exact = a.value() * b.value();
            &&& r.is_finite() ==> abs(r.value() * one - exact) <= abs(x.value() * one - exact)
            &&& r.is_finite() && abs(r.value() * one - exact) == abs(x.value() * one - exact)
                && x.value() != r.value() ==> r.bits % 2 == 0
            &&& r.is_finite() || r.is_infinite()
            &&& abs(exact) <= 0xFF_FFFF * pow2(253) * one ==> r.is_finite()
            &&& abs(exact) >= pow2(277) * one ==> r.is_infinite()
            &&& r.negative() == (a.negative() != b.negative())
        }),
{
    let one = pow2(149);
    let num = a.units() * b.units();
    lemma_pow2_pos(149);
    lemma_digits(a);
    lemma_digits(b);
    assert(a.value() * b.value() == (if a.negative() != b.negative() {
        -(num as int)
    } else {
        num as int
    })) by (nonlinear_arith)
        requires
            num == a.units() * b.units(),
            a.value() == (if a.negative() {
                -(a.units() as int)
            } else {
                a.units() as int
            }),
            b.value() == (if b.negative() {
                -(b.units() as int)
            } else {
                b.units() as int
            }),
    ;
    assert(num >= 0);
    lemma_signed_rounding(a.product(b), a.negative() != b.negative(), num, one, x);
}

/// A number with the sign and the rounded magnitude of a quotient is nearest to it.
proof fn lemma_signed_rounding(r: Sample, negative: bool, num: nat, den: nat, x: Sample)
    requires
        den > 0,
        x.is_finite(),
        r == Sample::signed(negative, single_bits(round_ratio(num, den, 24))),
    ensures
        ({
            let exact = if negative {
                -(num as int)
            } else {
                num as int
            };
            &&& r.is_finite() ==> abs(r.value() * den - exact) <= abs(x.value() * den - exact)
            &&& r.is_finite() && abs(r.value() * den - exact) == abs(x.value() * den - exact)
                && x.value() != r.value() ==> r.bits % 2 == 0
            &&& r.is_finite() || r.is_infinite()
            &&& num <= 0xFF_FFFF * pow2(253) * den ==> r.is_finite()
            &&& num >= pow2(277) * den ==> r.is_infinite()
            &&& r.negative() == negative
        }),
{
    let p = Sample { bits: single_bits(round_ratio(num, den, 24)) };
    let zero = Sample { bits: SILENCE };
    lemma2_to64();
    lemma_mul_basics(pow2(0) as int);
    lemma_mul_basics(den as int);
    assert(zero.units() == 0);
    lemma_rounded(num, den, x);
    lemma_rounded(num, den, zero);
    lemma_digits(p);
    assert(r.magnitude() == p.magnitude());
    assert(r.units() == p.units());
    assert(r.negative() == negative);
    let u = r.units() as int;
    let w = x.units() as int;
    let d = den as int;
    assert((-u) * d == -(u * d) && (-w) * d == -(w * d)) by (nonlinear_arith);
    assert(w * d >= 0 && (w > 0 ==> w * d > 0)) by (nonlinear_arith)
        requires
            w >= 0,
            d > 0,
    ;
}

/// A quotient of a finite number by one that is not zero is the number of the format that
/// is nearest to the exact quotient, and the one with an even pattern where two are as near.
/// It is finite where the exact quotient is within the format, and negative where the signs
/// differ.
pub proof fn law_quotient_is_nearest(a: Sample, b: Sample, x: Sample)
    requires
        a.is_finite(),
        b.is_finite(),
        b.units() > 0,
        x.is_finite(),
    ensures
        ({
            let r = a.quotient(b);
            let exact = a.value() * pow2(149);
            &&& r.is_finite() ==> abs(r.value() * b.value() - exact) <= abs(
                x.value() * b.value() - exact,
            )
            &&& r.is_finite() && abs(r.value() * b.value() - exact) == abs(
                x.value() * b.value() - exact,
            ) && x.value() != r.value() ==> r.bits % 2 == 0
            &&& r.is_finite() || r.is_infinite()
            &&& abs(exact) <= 0xFF_FFFF * pow2(253) * b.units() ==> r.is_finite()
            &&& abs(exact) >= pow2(277) * b.units() ==> r.is_infinite()
            &&& r.negative() == (a.negative() != b.negative())
        }),
{
    let one = pow2(149);
    let num = a.units() * one;
    let den = b.units();
    let r = a.quotient(b);
    let negative = a.negative() != b.negative();
    lemma_pow2_pos(149);
    lemma_digits(a);
    lemma_digits(b);
    lemma_units_zero(b);
    lemma_units_zero(a);
    if b.magnitude() == 0 {
        lemma_mul_basics(pow2(b.exponent()) as int);
        assert(false);
    }
    assert(num >= 0);
    assert(r == Sample::signed(negative, single_bits(round_ratio(num, den, 24))));
    lemma_signed_rounding(r, negative, num, den, x);
    let u = r.value();
    let w = x.value();
    let d = den as int;
    let k = a.units() as int;
    assert((-k) * one == -(k * one)) by (nonlinear_arith);
    assert(u * (-d) == -(u * d) && w * (-d) == -(w * d)) by (nonlinear_arith);
}

/// A count is taken to the number of the format that is nearest to it, and the one with an
/// even pattern where two are as near.
pub proof fn law_count_is_nearest(count: u64, x: Sample)
    requires
        x.is_finite(),
    ensures
        ({
            let r = Sample::of_count(count as nat);
            let exact = count * pow2(149);
            &&& r.is_finite()
            &&& !r.negative()
            &&& abs(r.value() - exact) <= abs(x.value() - exact)
            &&& abs(r.value() - exact) == abs(x.value() - exact) && x.value() != r.value()
                ==> r.bits % 2 == 0
        }),
{
    let n = count as nat;
    let one = pow2(149);
    let num = n * one;
    let zero = Sample { bits: SILENCE };
    lemma2_to64();
    lemma2_to64_rest();
    lemma_pow2_pos(149);
    lemma_pow2_unfold(64);
    lemma_count_units(n);
    lemma_round_int_shift(n, 24, 149);
    lemma_mul_basics(pow2(0) as int);
    lemma_mul_basics(num as int);
    lemma_mul_basics(x.units() as int);
    lemma_mul_basics(round_int(num, 24) as int);
    assert(zero.units() == 0);
    lemma_rounded(num, 1, x);
    lemma_rounded(num, 1, zero);
}

/// A ratio of counts is the quotient of the two.
pub proof fn law_ratio_is_quotient(num: u64, den: u64)
    requires
        den > 0,
    ensures
        Sample::of_ratio(num as nat, den as nat) == Sample::of_count(num as nat).quotient(
            Sample::of_count(den as nat),
        ),
{
    let a = Sample::of_count(num as nat);
    let b = Sample::of_count(den as nat);
    let one = pow2(149);
    lemma2_to64();
    lemma2_to64_rest();
    lemma_pow2_unfold(64);
    lemma_pow2_pos(149);
    lemma_count_units(num as nat);
    lemma_count_units(den as nat);
    lemma_round_int_positive(den as nat, 24);
    lemma_mul_strictly_positive(round_int(den as nat, 24) as int, one as int);
    lemma_digits(a);
    lemma_digits(b);
    lemma_units_zero(b);
    if b.magnitude() == 0 {
        lemma_mul_basics(pow2(b.exponent()) as int);
        assert(false);
    }
    lemma_round_ratio_cancel(round_int(num as nat, 24) * one, round_int(den as nat, 24), one, 24);
}

/// The integer part of a number that is not negative is no more than it, and the next
/// integer is more; what is too large is cut off, and NaN and what is negative give zero.
pub proof fn law_whole_is_integer_part(x: Sample)
    ensures
        x.is_nan() || x.negative() ==> x.whole() == 0,
        !x.negative() && x.is_infinite() ==> x.whole() == u64::MAX,
        !x.negative() && x.is_finite() && x.units() < pow2(64) * pow2(149) ==> x.whole() * pow2(149)
            <= x.units() < (x.whole() + 1) * pow2(149),
        !x.negative() && x.is_finite() && x.units() >= pow2(64) * pow2(149) ==> x.whole()
            == u64::MAX,
{
    let one = pow2(149);
    lemma2_to64();
    lemma2_to64_rest();
    lemma_pow2_unfold(64);
    lemma_pow2_pos(149);
    if !x.negative() && x.is_finite() {
        let n = x.units();
        let q = n / one;
        let r = n % one;
        lemma_fundamental_div_mod(n as int, one as int);
        let top = pow2(64);
        assert(q * one <= n < (q + 1) * one) by (nonlinear_arith)
            requires
                n == one * q + r,
                0 <= r < one,
        ;
        if n < top * one {
            assert(q < top) by (nonlinear_arith)
                requires
                    q * one <= n,
                    n < top * one,
                    one > 0,
            ;
        } else {
            assert(q + 1 > top) by (nonlinear_arith)
                requires
                    n < (q + 1) * one,
                    n >= top * one,
                    one > 0,
            ;
        }
    }
}

/// NaN stays NaN, an infinity outweighs what is finite, and what has no answer is NaN.
pub proof fn law_beyond_the_finite(a: Sample, b: Sample)
    ensures
        a.is_nan() || b.is_nan() ==> a.sum(b).is_nan() && a.product(b).is_nan() && a.quotient(
            b,
        ).is_nan(),
        a.is_infinite() && b.is_finite() ==> a.sum(b) == a && b.sum(a) == a && a.quotient(
            b,
        ).is_infinite() && b.quotient(a).magnitude() == 0,
        a.is_infinite() && b.is_infinite() ==> a.quotient(b).is_nan(),
        a.is_infinite() && b == a ==> a.sum(b) == a,
        a.is_infinite() && b.is_infinite() && a != b ==> a.sum(b).is_nan(),
        a.is_infinite() && !b.is_nan() && b.magnitude() > 0 ==> a.product(b).is_infinite()
            && b.product(a).is_infinite(),
        a.is_infinite() && b.magnitude() == 0 ==> a.product(b).is_nan() && b.product(a).is_nan(),
        a.magnitude() == 0 && b.magnitude() == 0 ==> a.quotient(b).is_nan(),
        !a.is_nan() && a.magnitude() > 0 && b.magnitude() == 0 ==> a.quotient(b).is_infinite(),
        !a.product(b).is_nan() ==> a.product(b).negative() == (a.negative() != b.negative()),
        !a.quotient(b).is_nan() ==> a.quotient(b).negative() == (a.negative() != b.negative()),
{
    let n = round_ratio(a.units() * b.units(), pow2(149), 24);
    let q = round_ratio(a.units() * pow2(149), b.units(), 24);
    lemma_digits(a);
    lemma_digits(b);
    lemma_pow2_pos(149);
    if a.is_finite() && b.is_finite() {
        lemma_rounded(a.units() * b.units(), pow2(149), a);
        lemma_digits(Sample { bits: single_bits(n) });
        if b.magnitude() > 0 {
            lemma_units_zero(b);
            assert(b.units() > 0);
            lemma_rounded(a.units() * pow2(149), b.units(), a);
            lemma_digits(Sample { bits: single_bits(q) });
        }
    }
}

} // verus!
