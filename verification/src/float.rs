//! Rounding of exact values to binary floating point.
//!
//! Times, rates and gains are floating-point numbers in the audio pipeline, but
//! what the scheduler decides on is integral: sample counts and positions. This
//! module says which number a binary format with a given precision holds for an
//! exact rational, and computes it with integers alone. A number is given in
//! units small enough that every value in sight is a whole number of them.

use vstd::prelude::*;
use vstd::math::abs;
use vstd::arithmetic::power2::{
    lemma2_to64, lemma2_to64_rest, lemma_pow2_adds, lemma_pow2_pos, lemma_pow2_strictly_increases,
    lemma_pow2_unfold, pow2,
};
use vstd::arithmetic::div_mod::{
    lemma_div_denominator, lemma_fundamental_div_mod, lemma_fundamental_div_mod_converse,
};
use vstd::arithmetic::mul::{
    lemma_mul_basics, lemma_mul_inequality, lemma_mul_is_associative, lemma_mul_is_commutative,
    lemma_mul_is_distributive_add, lemma_mul_strict_inequality, lemma_mul_strictly_positive,
};

verus! {

/// The number of binary digits of `n`; zero has none.
pub open spec fn bit_length(n: nat) -> nat
    decreases n,
{
    if n == 0 {
        0
    } else {
        1 + bit_length(n / 2)
    }
}

/// The integer nearest to `num / den`; a tie goes to the even one.
pub open spec fn nearest(num: nat, den: nat) -> nat {
    let q = num / den;
    let r = num % den;
    if 2 * r < den || (2 * r == den && q % 2 == 0) {
        q
    } else {
        q + 1
    }
}

/// `num / den` rounded to `precision` significant bits, to nearest with ties to
/// even. A quotient that has fewer bits in front of the point is rounded to an
/// integer.
pub open spec fn round_ratio(num: nat, den: nat, precision: nat) -> nat {
    let bits = bit_length(num / den);
    let drop = if bits > precision {
        (bits - precision) as nat
    } else {
        0
    };
    nearest(num, den * pow2(drop)) * pow2(drop)
}

/// `n` rounded to `precision` significant bits.
pub open spec fn round_int(n: nat, precision: nat) -> nat {
    round_ratio(n, 1, precision)
}

/// `n` has `bit_length(n)` digits: it lies between the two powers of two.
pub proof fn lemma_bit_length_bounds(n: nat)
    requires
        n > 0,
    ensures
        bit_length(n) > 0,
        pow2((bit_length(n) - 1) as nat) <= n < pow2(bit_length(n)),
    decreases n,
{
    lemma2_to64();
    if n >= 2 {
        lemma_bit_length_bounds(n / 2);
        lemma_pow2_unfold(bit_length(n));
        lemma_pow2_unfold((bit_length(n) - 1) as nat);
    } else {
        assert(bit_length(n / 2) == 0);
    }
}

/// The digits of a number are counted by the powers of two around it.
pub proof fn lemma_bit_length_unique(n: nat, bits: nat)
    requires
        bits > 0,
        pow2((bits - 1) as nat) <= n < pow2(bits),
    ensures
        bit_length(n) == bits,
{
    lemma_pow2_pos((bits - 1) as nat);
    lemma_bit_length_bounds(n);
    let b = bit_length(n);
    if b < bits {
        if b < bits - 1 {
            lemma_pow2_strictly_increases(b, (bits - 1) as nat);
        }
    } else if b > bits {
        if bits < b - 1 {
            lemma_pow2_strictly_increases(bits, (b - 1) as nat);
        }
    }
}

/// A number below two to the power `bits` has at most that many digits.
pub proof fn lemma_bit_length_at_most(n: nat, bits: nat)
    requires
        n < pow2(bits),
    ensures
        bit_length(n) <= bits,
{
    if bit_length(n) > bits {
        lemma_bit_length_bounds(n);
        if bits < bit_length(n) - 1 {
            lemma_pow2_strictly_increases(bits, (bit_length(n) - 1) as nat);
        }
    }
}

/// Multiplying by a power of two appends that many digits.
pub proof fn lemma_bit_length_shift(n: nat, shift: nat)
    requires
        n > 0,
    ensures
        bit_length(n * pow2(shift)) == bit_length(n) + shift,
{
    lemma_bit_length_bounds(n);
    let b = bit_length(n);
    lemma_pow2_pos(shift);
    lemma_pow2_adds((b - 1) as nat, shift);
    lemma_pow2_adds(b, shift);
    lemma_mul_inequality(pow2((b - 1) as nat) as int, n as int, pow2(shift) as int);
    lemma_mul_strict_inequality(n as int, pow2(b) as int, pow2(shift) as int);
    lemma_bit_length_unique(n * pow2(shift), b + shift);
}

/// A common factor does not change which integer is nearest.
pub proof fn lemma_nearest_scale(num: nat, den: nat, factor: nat)
    requires
        den > 0,
        factor > 0,
    ensures
        nearest(num * factor, den * factor) == nearest(num, den),
{
    let q = num / den;
    let r = num % den;
    lemma_fundamental_div_mod(num as int, den as int);
    assert(num * factor == q * (den * factor) + r * factor) by (nonlinear_arith)
        requires
            num == den * q + r,
    ;
    assert(0 <= r * factor < den * factor) by (nonlinear_arith)
        requires
            0 <= r < den,
            factor > 0,
    ;
    lemma_fundamental_div_mod_converse(
        (num * factor) as int,
        (den * factor) as int,
        q as int,
        (r * factor) as int,
    );
    assert((2 * r < den) == (2 * (r * factor) < den * factor)) by (nonlinear_arith)
        requires
            factor > 0,
    ;
    assert((2 * r == den) == (2 * (r * factor) == den * factor)) by (nonlinear_arith)
        requires
            factor > 0,
    ;
}

/// A multiple of the denominator is its own nearest integer.
pub proof fn lemma_nearest_exact(q: nat, den: nat)
    requires
        den > 0,
    ensures
        nearest(q * den, den) == q,
{
    lemma_fundamental_div_mod_converse((q * den) as int, den as int, q as int, 0);
}

/// Numbers of at most `precision` digits are kept as they are.
pub proof fn lemma_round_int_exact(n: nat, precision: nat)
    requires
        bit_length(n) <= precision,
    ensures
        round_int(n, precision) == n,
{
    lemma2_to64();
    assert(n / 1 == n);
    lemma_nearest_exact(n, 1);
}

/// Rounding to significant digits commutes with multiplying by a power of two.
pub proof fn lemma_round_int_shift(n: nat, precision: nat, shift: nat)
    ensures
        round_int(n * pow2(shift), precision) == round_int(n, precision) * pow2(shift),
{
    lemma_pow2_pos(shift);
    lemma2_to64();
    if n == 0 {
        lemma_round_int_exact(0, precision);
    } else {
        let b = bit_length(n);
        lemma_bit_length_shift(n, shift);
        let m = n * pow2(shift);
        assert(n / 1 == n && m / 1 == m);
        if b >= precision {
            let s = (b - precision) as nat;
            lemma_pow2_adds(s, shift);
            lemma_pow2_pos(s);
            lemma_nearest_scale(n, pow2(s), pow2(shift));
            assert(round_int(m, precision) == nearest(n, pow2(s)) * pow2(s + shift));
            assert(round_int(n, precision) == nearest(n, pow2(s)) * pow2(s)) by {
                assert(1 * pow2(s) == pow2(s));
            }
            lemma_mul_is_associative(nearest(n, pow2(s)) as int, pow2(s) as int, pow2(shift) as int);
        } else {
            lemma_round_int_exact(n, precision);
            if b + shift > precision {
                let s = (b + shift - precision) as nat;
                let rest = (shift - s) as nat;
                lemma_pow2_adds(rest, s);
                lemma_pow2_pos(s);
                lemma_mul_is_associative(n as int, pow2(rest) as int, pow2(s) as int);
                lemma_nearest_exact(n * pow2(rest), pow2(s));
                assert(1 * pow2(s) == pow2(s));
            } else {
                lemma_round_int_exact(m, precision);
            }
        }
    }
}

/// Scaling a quotient that already fills the precision scales what it rounds to.
pub proof fn lemma_round_ratio_shift(num: nat, den: nat, precision: nat, shift: nat)
    requires
        den > 0,
        0 < precision <= bit_length(num / den),
    ensures
        round_ratio(num * pow2(shift), den, precision) == round_ratio(num, den, precision) * pow2(
            shift,
        ),
{
    let q = num / den;
    let b = bit_length(q);
    assert(q > 0);
    lemma_bit_length_bounds(q);
    lemma_fundamental_div_mod(num as int, den as int);
    let lo = pow2((b - 1) as nat);
    let hi = pow2(b);
    let f = pow2(shift);
    lemma_pow2_pos(shift);
    lemma_pow2_adds((b - 1) as nat, shift);
    lemma_pow2_adds(b, shift);
    let m = num * f;
    let qm = m / den;
    lemma_fundamental_div_mod(m as int, den as int);
    let rm = m % den;
    let r = num % den;
    assert(lo * f <= qm < hi * f) by (nonlinear_arith)
        requires
            num == den * q + r,
            0 <= r < den,
            lo <= q,
            q + 1 <= hi,
            m == num * f,
            m == den * qm + rm,
            0 <= rm < den,
            f > 0,
    {
        assert(den * (q * f) <= m);
        assert(m < den * ((q + 1) * f)) by {
            assert(m == den * q * f + r * f);
            assert(r * f < den * f);
        }
        assert(den * (lo * f) <= den * (q * f)) by {
            assert(lo * f <= q * f);
        }
        assert(den * ((q + 1) * f) <= den * (hi * f)) by {
            assert((q + 1) * f <= hi * f);
        }
        if qm < lo * f {
            assert(den * (qm + 1) <= den * (lo * f));
            assert(den * (qm + 1) == den * qm + den);
            assert(false);
        }
        if qm >= hi * f {
            assert(den * qm >= den * (hi * f));
            assert(false);
        }
    }
    lemma_bit_length_unique(qm, b + shift);
    let s = (b - precision) as nat;
    lemma_pow2_adds(s, shift);
    lemma_pow2_pos(s);
    assert(den * pow2(s + shift) == (den * pow2(s)) * f) by (nonlinear_arith)
        requires
            pow2(s + shift) == pow2(s) * f,
    ;
    lemma_mul_strictly_positive(den as int, pow2(s) as int);
    lemma_nearest_scale(num, den * pow2(s), f);
    lemma_mul_is_associative(nearest(num, den * pow2(s)) as int, pow2(s) as int, f as int);
}

/// Digits far below the rounding position matter only through being there: they
/// can be replaced by one trailing digit.
pub proof fn lemma_round_int_sticky(high: nat, low: nat, shift: nat, precision: nat)
    requires
        shift > 0,
        0 < low < pow2(shift),
        0 < precision < bit_length(high),
    ensures
        round_int(high * pow2(shift) + low, precision) == round_int(2 * high + 1, precision)
            * pow2((shift - 1) as nat),
{
    let p = precision;
    let b = bit_length(high);
    let f = pow2(shift);
    let n = high * f + low;
    let m = 2 * high + 1;
    lemma_bit_length_bounds(high);
    lemma_pow2_pos(shift);
    lemma_pow2_adds((b - 1) as nat, shift);
    lemma_pow2_adds(b, shift);
    assert(pow2((b - 1) as nat) * f <= n < pow2(b) * f) by (nonlinear_arith)
        requires
            n == high * f + low,
            pow2((b - 1) as nat) <= high,
            high + 1 <= pow2(b),
            0 < low < f,
    {
        assert(pow2((b - 1) as nat) * f <= high * f);
        assert((high + 1) * f <= pow2(b) * f);
    }
    lemma_bit_length_unique(n, b + shift);
    lemma_pow2_unfold(b);
    lemma_pow2_unfold(b + 1);
    lemma_bit_length_unique(m, b + 1);
    // Both are cut at the same digit of `high`.
    let k = (b - p) as nat;
    let d = pow2(k);
    lemma_pow2_pos(k);
    lemma_pow2_unfold(k);
    let half = pow2((k - 1) as nat);
    lemma_pow2_pos((k - 1) as nat);
    let q = high / d;
    let r = high % d;
    lemma_fundamental_div_mod(high as int, d as int);
    lemma_pow2_adds(k, shift);
    lemma_pow2_unfold(k + 1);
    let rn = r * f + low;
    assert(n == q * (d * f) + rn && 0 <= rn < d * f) by (nonlinear_arith)
        requires
            n == high * f + low,
            high == d * q + r,
            0 <= r,
            r + 1 <= d,
            0 < low < f,
            rn == r * f + low,
    {
        assert((r + 1) * f <= d * f);
    }
    lemma_fundamental_div_mod_converse(n as int, (d * f) as int, q as int, rn as int);
    let rm = 2 * r + 1;
    assert(m == q * (2 * d) + rm) by (nonlinear_arith)
        requires
            m == 2 * high + 1,
            high == d * q + r,
            rm == 2 * r + 1,
    ;
    lemma_fundamental_div_mod_converse(m as int, (2 * d) as int, q as int, rm as int);
    assert((2 * rn < d * f) == (r < half) && 2 * rn != d * f) by (nonlinear_arith)
        requires
            rn == r * f + low,
            0 < low < f,
            d == 2 * half,
    {
        if r < half {
            assert((r + 1) * f <= half * f);
        } else {
            assert(half * f <= r * f);
        }
    }
    assert((2 * rm < 2 * d) == (r < half) && 2 * rm != 2 * d);
    let z = nearest(n, d * f);
    assert(nearest(m, 2 * d) == z);
    assert(n / 1 == n && m / 1 == m);
    assert(1 * pow2(k + shift) == pow2(k + shift));
    assert(1 * pow2(k + 1) == pow2(k + 1));
    assert(round_int(n, p) == z * pow2(k + shift));
    assert(round_int(m, p) == z * pow2(k + 1));
    lemma_pow2_adds(k + 1, (shift - 1) as nat);
    lemma_mul_is_associative(z as int, pow2(k + 1) as int, pow2((shift - 1) as nat) as int);
}

/// Two to the power `exponent`.
pub fn power_of_two(exponent: u32) -> (result: u128)
    requires
        exponent < 128,
    ensures
        result == pow2(exponent as nat),
{
    let mut result: u128 = 1;
    let mut i: u32 = 0;
    proof {
        lemma2_to64();
    }
    while i < exponent
        invariant
            i <= exponent < 128,
            result == pow2(i as nat),
        decreases exponent - i,
    {
        proof {
            lemma_pow2_unfold((i + 1) as nat);
            lemma_pow2_below_u128((i + 1) as nat);
        }
        result = result * 2;
        i = i + 1;
    }
    result
}

proof fn lemma_pow2_below_u128(exponent: nat)
    requires
        exponent < 128,
    ensures
        pow2(exponent) <= u128::MAX,
        pow2(128) == u128::MAX + 1,
{
    lemma2_to64();
    lemma_pow2_adds(64, 64);
    assert(pow2(64) == 0x10000000000000000) by {
        lemma_pow2_unfold(64);
        lemma2_to64_rest();
    }
    lemma_pow2_strictly_increases(exponent, 128);
}

/// The number of binary digits of `n`.
pub fn count_bits(n: u128) -> (bits: u32)
    ensures
        bits == bit_length(n as nat),
        bits <= 128,
{
    let mut rest: u128 = n;
    let mut bits: u32 = 0;
    proof {
        lemma_pow2_below_u128(0);
        lemma_bit_length_at_most(n as nat, 128);
    }
    while rest > 0
        invariant
            bits + bit_length(rest as nat) == bit_length(n as nat),
            bit_length(n as nat) <= 128,
        decreases rest,
    {
        rest = rest / 2;
        bits = bits + 1;
    }
    bits
}

/// A number with a bounded count of significant digits: `mant` times two to the
/// power `exp`.
#[derive(Debug, Clone, Copy, PartialEq, Eq, Structural)]
pub struct Scaled {
    pub mant: u64,
    pub exp: u32,
}

impl View for Scaled {
    type V = nat;

    open spec fn view(&self) -> nat {
        self.mant as nat * pow2(self.exp as nat)
    }
}

/// `num / den` rounded to `precision` significant bits.
pub fn round_quotient(num: u128, den: u128, precision: u32) -> (result: Scaled)
    requires
        den > 0,
        0 < precision <= 53,
    ensures
        result@ == round_ratio(num as nat, den as nat, precision as nat),
        result.mant <= pow2(precision as nat),
        num / den > 0 ==> result.mant > 0,
        result.exp == 0 || result.exp == bit_length((num / den) as nat) - precision,
        result.exp <= 128,
{
    let quotient: u128 = num / den;
    let bits: u32 = count_bits(quotient);
    let drop: u32 = if bits > precision {
        bits - precision
    } else {
        0
    };
    proof {
        lemma2_to64();
        lemma_pow2_below_u128(0);
        if bits > precision {
            lemma_bit_length_bounds(quotient as nat);
            lemma_pow2_strictly_increases(drop as nat, bits as nat);
            if precision > 1 {
                lemma_pow2_strictly_increases(drop as nat, (bits - 1) as nat);
            }
        }
        lemma_pow2_pos(drop as nat);
        assert(drop < 128);
        if bits > precision {
            let f = pow2(drop as nat) as int;
            assert(f <= quotient);
            lemma_fundamental_div_mod(num as int, den as int);
            let r = num as int % den as int;
            assert(den * f <= u128::MAX) by (nonlinear_arith)
                requires
                    f <= quotient,
                    num == den * quotient + r,
                    r >= 0,
                    num <= u128::MAX,
                    den > 0,
            ;
        } else {
            assert(pow2(drop as nat) == 1);
            lemma_mul_basics(den as int);
        }
    }
    let unit: u128 = den * power_of_two(drop);
    proof {
        lemma_mul_strictly_positive(den as int, pow2(drop as nat) as int);
    }
    let q: u128 = num / unit;
    let r: u128 = num % unit;
    proof {
        // The quotient at the rounding position has at most `precision` digits.
        lemma_div_denominator(num as int, den as int, pow2(drop as nat) as int);
        assert(q == quotient as int / pow2(drop as nat) as int);
        lemma_fundamental_div_mod(quotient as int, pow2(drop as nat) as int);
        if bits > precision {
            lemma_pow2_adds(precision as nat, drop as nat);
            if q >= pow2(precision as nat) {
                lemma_mul_inequality(pow2(precision as nat) as int, q as int, pow2(drop as nat) as int);
                lemma_mul_is_commutative(q as int, pow2(drop as nat) as int);
            }
            if q == 0 {
                lemma_mul_basics(pow2(drop as nat) as int);
                assert(false);
            }
        } else {
            assert(pow2(drop as nat) == 1);
            if quotient > 0 {
                lemma_bit_length_bounds(quotient as nat);
                if bits < precision {
                    lemma_pow2_strictly_increases(bits as nat, precision as nat);
                }
            } else {
                lemma_pow2_pos(precision as nat);
            }
        }
        assert(q < pow2(precision as nat));
        assert(pow2(precision as nat) <= 0x20000000000000) by {
            if precision < 53 {
                lemma_pow2_strictly_increases(precision as nat, 53);
            }
            lemma2_to64_rest();
        }
    }
    let rest: u128 = unit - r;
    let mant: u64 = if r < rest || (r == rest && q % 2 == 0) {
        q as u64
    } else {
        q as u64 + 1
    };
    Scaled { mant, exp: drop }
}

/// `n` rounded to `precision` significant bits.
pub fn round_integer(n: u128, precision: u32) -> (result: Scaled)
    requires
        0 < precision <= 53,
    ensures
        result@ == round_int(n as nat, precision as nat),
        result.mant <= pow2(precision as nat),
        n > 0 ==> result.mant > 0,
        result.exp == 0 || result.exp == bit_length(n as nat) - precision,
        result.exp <= 128,
{
    round_quotient(n, 1, precision)
}

/// Rounding never goes past the next power of two.
pub proof fn lemma_round_int_bound(n: nat, precision: nat)
    requires
        0 < precision,
    ensures
        round_int(n, precision) <= pow2(bit_length(n)),
{
    let b = bit_length(n);
    lemma2_to64();
    if b <= precision {
        lemma_round_int_exact(n, precision);
        if n > 0 {
            lemma_bit_length_bounds(n);
        }
    } else {
        let s = (b - precision) as nat;
        lemma_bit_length_bounds(n);
        lemma_pow2_adds(precision, s);
        lemma_pow2_pos(s);
        assert(n / 1 == n);
        assert(1 * pow2(s) == pow2(s));
        let q = n / pow2(s);
        lemma_fundamental_div_mod(n as int, pow2(s) as int);
        if q >= pow2(precision) {
            lemma_mul_inequality(pow2(precision) as int, q as int, pow2(s) as int);
            lemma_mul_is_commutative(q as int, pow2(s) as int);
        }
        lemma_mul_inequality(nearest(n, pow2(s)) as int, pow2(precision) as int, pow2(s) as int);
    }
}

/// A number of at most `precision` significant digits is kept as it is.
pub proof fn lemma_round_int_scaled(mant: nat, exp: nat, precision: nat)
    requires
        0 < precision,
        mant <= pow2(precision),
    ensures
        round_int(mant * pow2(exp), precision) == mant * pow2(exp),
{
    lemma_round_int_shift(mant, precision, exp);
    if mant < pow2(precision) {
        lemma_bit_length_at_most(mant, precision);
        lemma_round_int_exact(mant, precision);
    } else {
        lemma2_to64();
        lemma_pow2_pos(precision);
        lemma_round_int_shift(1, precision, precision);
        assert(bit_length(1) == 1) by {
            assert(bit_length(0) == 0);
        }
        lemma_round_int_exact(1, precision);
        assert(1 * pow2(precision) == pow2(precision));
    }
}

/// `x` times `factor`, rounded to `precision` significant bits.
pub fn scaled_times(x: Scaled, factor: u64, precision: u32) -> (result: Scaled)
    requires
        0 < precision <= 53,
        x.exp <= u32::MAX - 128,
    ensures
        result@ == round_int(x@ * factor as nat, precision as nat),
        result.mant <= pow2(precision as nat),
        result.exp <= x.exp + 128,
{
    assert(x.mant as u128 * factor as u128 <= u128::MAX) by (nonlinear_arith)
        requires
            x.mant <= u64::MAX,
            factor <= u64::MAX,
    ;
    let rounded: Scaled = round_integer(x.mant as u128 * factor as u128, precision);
    proof {
        let e = pow2(x.exp as nat);
        let m = x.mant as nat * factor as nat;
        assert(x@ * factor as nat == m * e) by (nonlinear_arith)
            requires
                x@ == x.mant as nat * e,
                m == x.mant as nat * factor as nat,
        ;
        lemma_round_int_shift(m, precision as nat, x.exp as nat);
        lemma_pow2_adds(rounded.exp as nat, x.exp as nat);
        lemma_mul_is_associative(
            rounded.mant as int,
            pow2(rounded.exp as nat) as int,
            e as int,
        );
    }
    Scaled { mant: rounded.mant, exp: rounded.exp + x.exp }
}

/// The integer part of `n` units of two to the power minus `unit`, cut off at the
/// largest 64-bit number.
pub open spec fn whole_part(n: nat, unit: nat) -> u64 {
    let whole = n / pow2(unit);
    if whole > u64::MAX {
        u64::MAX
    } else {
        whole as u64
    }
}

/// The integer part of a number given in units of two to the power minus `unit`.
pub fn scaled_whole_part(x: Scaled, unit: u32) -> (result: u64)
    ensures
        result == whole_part(x@, unit as nat),
{
    proof {
        lemma2_to64();
        lemma2_to64_rest();
        lemma_pow2_unfold(64);
        lemma_pow2_pos(unit as nat);
        lemma_pow2_pos(x.exp as nat);
    }
    if x.mant == 0 {
        assert(x@ == 0) by {
            lemma_mul_basics(pow2(x.exp as nat) as int);
        }
        assert(0nat / pow2(unit as nat) == 0) by {
            vstd::arithmetic::div_mod::lemma_div_of0(pow2(unit as nat) as int);
        }
        return 0;
    }
    if x.exp >= unit {
        let shift: u32 = x.exp - unit;
        let ghost f = pow2(shift as nat);
        proof {
            lemma_pow2_adds(shift as nat, unit as nat);
            lemma_mul_is_associative(x.mant as int, f as int, pow2(unit as nat) as int);
            vstd::arithmetic::div_mod::lemma_div_by_multiple(
                x.mant as int * f as int,
                pow2(unit as nat) as int,
            );
            assert(x@ / pow2(unit as nat) == x.mant as nat * f);
        }
        if shift >= 64 {
            proof {
                if shift > 64 {
                    lemma_pow2_strictly_increases(64, shift as nat);
                }
                lemma_mul_inequality(1, x.mant as int, f as int);
            }
            return u64::MAX;
        }
        proof {
            lemma_pow2_strictly_increases(shift as nat, 64);
        }
        assert(x.mant * f <= u128::MAX) by (nonlinear_arith)
            requires
                x.mant <= u64::MAX,
                f <= 0x10000000000000000,
        ;
        let whole: u128 = x.mant as u128 * power_of_two(shift);
        if whole > u64::MAX as u128 {
            u64::MAX
        } else {
            whole as u64
        }
    } else {
        let shift: u32 = unit - x.exp;
        proof {
            lemma_pow2_pos(shift as nat);
            lemma_pow2_adds(x.exp as nat, shift as nat);
            lemma_div_denominator(x@ as int, pow2(x.exp as nat) as int, pow2(shift as nat) as int);
            vstd::arithmetic::div_mod::lemma_div_by_multiple(
                x.mant as int,
                pow2(x.exp as nat) as int,
            );
            assert(x@ / pow2(unit as nat) == x.mant as nat / pow2(shift as nat));
        }
        if shift >= 64 {
            proof {
                if shift > 64 {
                    lemma_pow2_strictly_increases(64, shift as nat);
                }
                vstd::arithmetic::div_mod::lemma_basic_div(x.mant as int, pow2(shift as nat) as int);
            }
            return 0;
        }
        proof {
            lemma_pow2_strictly_increases(shift as nat, 64);
            vstd::arithmetic::div_mod::lemma_div_nonincreasing(
                x.mant as int,
                pow2(shift as nat) as int,
            );
        }
        (x.mant as u128 / power_of_two(shift)) as u64
    }
}

/// The bit pattern, without a sign, of a number of `n` of the smallest positive
/// numbers of a binary format, where `n` has at most `precision` significant
/// digits. The largest exponent is `top`; beyond it lies infinity.
pub open spec fn pattern(n: nat, precision: nat, top: nat) -> nat {
    let hidden = pow2((precision - 1) as nat);
    if n < pow2(precision) {
        n
    } else {
        let exp = (bit_length(n) - precision) as nat;
        if exp > top {
            (top + 2) * hidden
        } else {
            exp * hidden + n / pow2(exp)
        }
    }
}

/// The bit pattern of a number of at most `precision` significant digits.
pub fn encode_pattern(x: Scaled, precision: u32, top: u32) -> (bits: u64)
    requires
        0 < precision <= 53,
        top <= 2045,
        x.mant <= pow2(precision as nat),
        x.exp <= 4096,
    ensures
        bits == pattern(x@, precision as nat, top as nat),
        bits <= (top + 2) * pow2((precision - 1) as nat),
{
    let ghost p = precision as nat;
    let ghost hidden = pow2((precision - 1) as nat);
    proof {
        lemma2_to64();
        lemma2_to64_rest();
        lemma_pow2_pos(x.exp as nat);
        lemma_pow2_pos(p);
        lemma_pow2_unfold(p);
        if p < 53 {
            lemma_pow2_strictly_increases(p, 53);
        }
        assert((top + 2) * hidden <= 2047 * 0x10_0000_0000_0000) by (nonlinear_arith)
            requires
                top <= 2045,
                0 <= hidden <= 0x10_0000_0000_0000,
        ;
        assert(2 * hidden <= (top + 2) * hidden) by (nonlinear_arith)
            requires
                hidden >= 0,
        ;
    }
    if x.mant == 0 {
        assert(x@ == 0) by {
            lemma_mul_basics(pow2(x.exp as nat) as int);
        }
        return 0;
    }
    let digits: u32 = count_bits(x.mant as u128);
    let bits: u32 = digits + x.exp;
    proof {
        lemma_pow2_unfold(p + 1);
        lemma_bit_length_at_most(x.mant as nat, p + 1);
        lemma_bit_length_bounds(x.mant as nat);
        lemma_bit_length_shift(x.mant as nat, x.exp as nat);
        lemma_bit_length_bounds(x@);
    }
    if bits <= precision {
        proof {
            if bits < precision {
                lemma_pow2_strictly_increases(bits as nat, p);
            }
            assert(x@ < pow2(p));
        }
        return (x.mant as u128 * power_of_two(x.exp)) as u64;
    }
    let exp: u32 = bits - precision;
    proof {
        if bits > precision + 1 {
            lemma_pow2_strictly_increases(p, (bits - 1) as nat);
        }
        assert(x@ >= pow2(p));
    }
    let unit: u64 = power_of_two(precision - 1) as u64;
    if exp > top {
        return (top as u64 + 2) * unit;
    }
    let ghost f = pow2(exp as nat);
    let ghost high = x@ / f;
    proof {
        lemma_pow2_pos(exp as nat);
        lemma_fundamental_div_mod(x@ as int, f as int);
        lemma_pow2_adds((p - 1) as nat, exp as nat);
        lemma_pow2_adds(p, exp as nat);
        let r = x@ % f;
        assert(hidden <= high < 2 * hidden) by (nonlinear_arith)
            requires
                x@ == f * high + r,
                0 <= r < f,
                hidden * f <= x@,
                x@ < (2 * hidden) * f,
        ;
    }
    let mant: u64 = if x.exp >= exp {
        proof {
            let up = (x.exp - exp) as nat;
            lemma_pow2_adds(up, exp as nat);
            lemma_mul_is_associative(x.mant as int, pow2(up) as int, f as int);
            vstd::arithmetic::div_mod::lemma_div_by_multiple(
                x.mant as int * pow2(up) as int,
                f as int,
            );
            assert(x.mant as nat * pow2(up) == high);
        }
        (x.mant as u128 * power_of_two(x.exp - exp)) as u64
    } else {
        proof {
            let down = (exp - x.exp) as nat;
            lemma_pow2_pos(down);
            lemma_pow2_adds(x.exp as nat, down);
            lemma_div_denominator(x@ as int, pow2(x.exp as nat) as int, pow2(down) as int);
            vstd::arithmetic::div_mod::lemma_div_by_multiple(
                x.mant as int,
                pow2(x.exp as nat) as int,
            );
            assert(x.mant as nat / pow2(down) == high);
        }
        (x.mant as u128 / power_of_two(exp - x.exp)) as u64
    };
    proof {
        assert(exp * hidden + mant <= (top + 2) * hidden) by (nonlinear_arith)
            requires
                exp <= top,
                mant < 2 * hidden,
                hidden >= 0,
        ;
        assert(exp * hidden >= 0 && exp * hidden <= exp * hidden + mant) by (nonlinear_arith)
            requires
                hidden >= 0,
                exp >= 0,
                mant >= 0,
        ;
    }
    exp as u64 * unit + mant
}

/// A common factor of both sides cancels before rounding.
pub proof fn lemma_round_ratio_cancel(num: nat, den: nat, factor: nat, precision: nat)
    requires
        den > 0,
        factor > 0,
    ensures
        round_ratio(num * factor, den * factor, precision) == round_ratio(num, den, precision),
{
    lemma_div_denominator((num * factor) as int, factor as int, den as int);
    vstd::arithmetic::div_mod::lemma_div_by_multiple(num as int, factor as int);
    lemma_mul_is_commutative(factor as int, den as int);
    let bits = bit_length(num / den);
    let drop = if bits > precision {
        (bits - precision) as nat
    } else {
        0
    };
    lemma_pow2_pos(drop);
    lemma_mul_strictly_positive(den as int, pow2(drop) as int);
    lemma_nearest_scale(num, den * pow2(drop), factor);
    assert(den * factor * pow2(drop) == den * pow2(drop) * factor) by (nonlinear_arith);
}

/// What a single-precision quotient of two integers is, both taken to single
/// precision first: a pattern in units of two to the power -149.
pub open spec fn single_quotient(num: nat, den: nat) -> nat {
    round_ratio(round_int(num, 24) * pow2(149), round_int(den, 24), 24)
}

/// The single-precision quotient of two integers.
pub fn divide_single(num: u128, den: u128) -> (result: Scaled)
    requires
        den > 0,
        num <= 0x1_0000_0000_0000_0000,
        den <= 0x1_0000_0000_0000_0000,
    ensures
        result@ == single_quotient(num as nat, den as nat),
        result.mant <= 0x100_0000,
        result.exp <= 512,
{
    proof {
        lemma2_to64();
        lemma2_to64_rest();
        lemma_pow2_unfold(65);
        lemma_pow2_unfold(64);
        lemma_bit_length_at_most(den as nat, 65);
    }
    let a: Scaled = round_integer(num, 24);
    let b: Scaled = round_integer(den, 24);
    if num == 0 {
        proof {
            lemma_round_int_exact(0, 24);
            lemma_pow2_pos(149);
            lemma_mul_basics(pow2(149) as int);
            let d = round_int(den as nat, 24);
            lemma_pow2_pos(b.exp as nat);
            lemma_mul_strictly_positive(b.mant as int, pow2(b.exp as nat) as int);
            vstd::arithmetic::div_mod::lemma_div_of0(d as int);
            lemma_nearest_exact(0, d);
            lemma_mul_basics(d as int);
        }
        return Scaled { mant: 0, exp: 0 };
    }
    assert(a.mant as u128 * 0x1_0000_0000_0000 <= u128::MAX);
    let q: Scaled = round_quotient(a.mant as u128 * 0x1_0000_0000_0000, b.mant as u128, 24);
    let shift: u32 = 101 + a.exp - b.exp;
    proof {
        let m1 = a.mant as nat;
        let m2 = b.mant as nat;
        let n = m1 * pow2(48);
        let e2 = pow2(b.exp as nat);
        let up = (149 + a.exp - b.exp) as nat;
        lemma_pow2_pos(b.exp as nat);
        lemma_pow2_adds(a.exp as nat, 149);
        lemma_pow2_adds(up, b.exp as nat);
        lemma_pow2_adds(48, shift as nat);
        lemma_mul_is_associative(m1 as int, pow2(a.exp as nat) as int, pow2(149) as int);
        lemma_mul_is_associative(m1 as int, pow2(up) as int, e2 as int);
        lemma_mul_is_associative(m1 as int, pow2(48) as int, pow2(shift as nat) as int);
        assert(round_int(num as nat, 24) * pow2(149) == (n * pow2(shift as nat)) * e2);
        lemma_round_ratio_cancel(n * pow2(shift as nat), m2, e2, 24);
        let whole = n / m2;
        lemma_fundamental_div_mod(n as int, m2 as int);
        let r = n % m2;
        assert(whole >= 0x80_0000) by (nonlinear_arith)
            requires
                n == m2 * whole + r,
                0 <= r < m2,
                0 < m2 <= 0x100_0000,
                n >= 0x1_0000_0000_0000,
        ;
        if bit_length(whole) < 24 {
            lemma_bit_length_bounds(whole);
            if bit_length(whole) < 23 {
                lemma_pow2_strictly_increases(bit_length(whole), 23);
            }
        }
        lemma_round_ratio_shift(n, m2, 24, shift as nat);
        lemma_pow2_adds(q.exp as nat, shift as nat);
        lemma_mul_is_associative(q.mant as int, pow2(q.exp as nat) as int, pow2(shift as nat) as int);
    }
    Scaled { mant: q.mant, exp: q.exp + shift }
}

/// The sum of two magnitudes, the first with the larger exponent, rounded.
pub fn add_magnitudes(big: Scaled, small: Scaled, precision: u32) -> (result: Scaled)
    requires
        0 < precision <= 53,
        big.mant < pow2(precision as nat),
        small.mant < pow2(precision as nat),
        small.exp <= big.exp <= 2045,
        big.exp > 0 ==> big.mant >= pow2((precision - 1) as nat),
    ensures
        result@ == round_int(big@ + small@, precision as nat),
        result.mant <= pow2(precision as nat),
        result.exp <= 4096,
{
    let ghost p = precision as nat;
    proof {
        lemma2_to64();
        lemma2_to64_rest();
        lemma_pow2_unfold(p);
        lemma_pow2_pos((p - 1) as nat);
        if p < 53 {
            lemma_pow2_strictly_increases(p, 53);
        }
    }
    let gap: u32 = big.exp - small.exp;
    let ghost low_unit = pow2(small.exp as nat);
    proof {
        lemma_pow2_adds(gap as nat, small.exp as nat);
        lemma_mul_is_associative(big.mant as int, pow2(gap as nat) as int, low_unit as int);
        lemma_mul_is_distributive_add(
            low_unit as int,
            big.mant as int * pow2(gap as nat) as int,
            small.mant as int,
        );
        lemma_mul_is_commutative(
            low_unit as int,
            big.mant as int * pow2(gap as nat) as int + small.mant as int,
        );
        lemma_mul_is_commutative(low_unit as int, big.mant as int * pow2(gap as nat) as int);
        lemma_mul_is_commutative(low_unit as int, small.mant as int);
    }
    let ghost exact = big.mant as nat * pow2(gap as nat) + small.mant as nat;
    assert(big@ + small@ == exact * low_unit);
    proof {
        lemma_round_int_shift(exact, p, small.exp as nat);
    }
    if gap <= 70 {
        proof {
            lemma_pow2_adds(35, 35);
            if gap < 70 {
                lemma_pow2_strictly_increases(gap as nat, 70);
            }
            let f = pow2(gap as nat);
            lemma_pow2_pos(gap as nat);
            assert(big.mant * f < 0x20_0000_0000_0000 * 0x40_0000_0000_0000_0000) by (nonlinear_arith)
                requires
                    0 <= big.mant < 0x20_0000_0000_0000,
                    0 < f <= 0x40_0000_0000_0000_0000,
            ;
        }
        let rounded: Scaled = round_integer(
            big.mant as u128 * power_of_two(gap) + small.mant as u128,
            precision,
        );
        proof {
            lemma_pow2_adds(rounded.exp as nat, small.exp as nat);
            lemma_mul_is_associative(
                rounded.mant as int,
                pow2(rounded.exp as nat) as int,
                low_unit as int,
            );
        }
        Scaled { mant: rounded.mant, exp: rounded.exp + small.exp }
    } else if small.mant == 0 {
        proof {
            lemma_round_int_scaled(big.mant as nat, big.exp as nat, p);
        }
        big
    } else {
        let high: u128 = big.mant as u128 * 0x1_0000;
        let shift: u32 = gap - 16;
        proof {
            lemma_pow2_adds(16, shift as nat);
            lemma_mul_is_associative(big.mant as int, 0x1_0000, pow2(shift as nat) as int);
            assert(exact == high as nat * pow2(shift as nat) + small.mant as nat);
            lemma_pow2_strictly_increases(p, shift as nat);
            lemma_wide(big.mant as nat, high as nat, p);
            lemma_round_int_sticky(high as nat, small.mant as nat, shift as nat, p);
        }
        let rounded: Scaled = round_integer(2 * high + 1, precision);
        proof {
            let rest = (shift - 1) as nat;
            lemma_pow2_adds(rounded.exp as nat, rest);
            lemma_pow2_adds(rounded.exp as nat + rest, small.exp as nat);
            lemma_mul_is_associative(
                rounded.mant as int,
                pow2(rounded.exp as nat) as int,
                pow2(rest) as int,
            );
            lemma_mul_is_associative(
                rounded.mant as int,
                pow2(rounded.exp as nat + rest) as int,
                low_unit as int,
            );
        }
        Scaled { mant: rounded.mant, exp: rounded.exp + (shift - 1) + small.exp }
    }
}

/// Sixteen more digits than the precision holds are enough to cut the rest off.
proof fn lemma_wide(mant: nat, high: nat, precision: nat)
    requires
        0 < precision,
        mant >= pow2((precision - 1) as nat),
        high + 1 >= mant * 0x1_0000,
    ensures
        bit_length(high) > precision,
{
    lemma2_to64();
    lemma_pow2_unfold(precision);
    lemma_pow2_pos((precision - 1) as nat);
    if bit_length(high) <= precision {
        lemma_bit_length_bounds(high);
        if bit_length(high) < precision {
            lemma_pow2_strictly_increases(bit_length(high), precision);
        }
    }
}

/// The difference of two magnitudes, the first being the larger, rounded.
pub fn sub_magnitudes(big: Scaled, small: Scaled, precision: u32) -> (result: Scaled)
    requires
        0 < precision <= 53,
        big.mant < pow2(precision as nat),
        small.mant < pow2(precision as nat),
        small.exp <= big.exp <= 2045,
        small.exp == big.exp ==> small.mant <= big.mant,
        big.exp > 0 ==> big.mant >= pow2((precision - 1) as nat),
    ensures
        big@ >= small@,
        result@ == round_int((big@ - small@) as nat, precision as nat),
        result.mant <= pow2(precision as nat),
        result.exp <= 4096,
        (big@ == small@) == (big == small),
{
    let ghost p = precision as nat;
    proof {
        lemma2_to64();
        lemma2_to64_rest();
        lemma_pow2_unfold(p);
        lemma_pow2_pos((p - 1) as nat);
        if p < 53 {
            lemma_pow2_strictly_increases(p, 53);
        }
    }
    let gap: u32 = big.exp - small.exp;
    let ghost low_unit = pow2(small.exp as nat);
    let ghost f = pow2(gap as nat);
    let ghost exact = (big.mant as nat * f - small.mant as nat) as nat;
    proof {
        lemma_pow2_pos(small.exp as nat);
        lemma_pow2_pos(gap as nat);
        lemma_pow2_adds(gap as nat, small.exp as nat);
        lemma_mul_is_associative(big.mant as int, f as int, low_unit as int);
        if gap > 0 {
            lemma_pow2_unfold(gap as nat);
            lemma_pow2_pos((gap - 1) as nat);
            assert(big.mant * f > small.mant) by (nonlinear_arith)
                requires
                    2 * big.mant > small.mant,
                    big.mant >= 0,
                    f >= 2,
            ;
        } else {
            assert(f == 1);
            assert(big.mant * f == big.mant);
        }
        assert(big@ - small@ == exact * low_unit) by (nonlinear_arith)
            requires
                big@ == big.mant as nat * f * low_unit,
                small@ == small.mant as nat * low_unit,
                exact == big.mant as nat * f - small.mant as nat,
        ;
        assert(exact * low_unit >= 0 && (exact * low_unit == 0 <==> exact == 0)) by (nonlinear_arith)
            requires
                low_unit > 0,
                exact >= 0,
        ;
        lemma_round_int_shift(exact, p, small.exp as nat);
    }
    if gap <= 70 {
        proof {
            lemma_pow2_adds(35, 35);
            if gap < 70 {
                lemma_pow2_strictly_increases(gap as nat, 70);
            }
            assert(big.mant * f < 0x20_0000_0000_0000 * 0x40_0000_0000_0000_0000) by (nonlinear_arith)
                requires
                    0 <= big.mant < 0x20_0000_0000_0000,
                    0 < f <= 0x40_0000_0000_0000_0000,
            ;
        }
        let rounded: Scaled = round_integer(
            big.mant as u128 * power_of_two(gap) - small.mant as u128,
            precision,
        );
        proof {
            lemma_pow2_adds(rounded.exp as nat, small.exp as nat);
            lemma_mul_is_associative(
                rounded.mant as int,
                pow2(rounded.exp as nat) as int,
                low_unit as int,
            );
        }
        Scaled { mant: rounded.mant, exp: rounded.exp + small.exp }
    } else if small.mant == 0 {
        proof {
            lemma_round_int_scaled(big.mant as nat, big.exp as nat, p);
        }
        big
    } else {
        let high: u128 = big.mant as u128 * 0x1_0000 - 1;
        let shift: u32 = gap - 16;
        proof {
            let g = pow2(shift as nat);
            lemma_pow2_adds(16, shift as nat);
            lemma_pow2_strictly_increases(p, shift as nat);
            let low = (g - small.mant) as nat;
            assert(exact == high as nat * g + low) by (nonlinear_arith)
                requires
                    exact == big.mant as nat * f - small.mant as nat,
                    f == 0x1_0000 * g,
                    high as nat == big.mant as nat * 0x1_0000 - 1,
                    low == g - small.mant,
            ;
            lemma_wide(big.mant as nat, high as nat, p);
            lemma_round_int_sticky(high as nat, low, shift as nat, p);
        }
        let rounded: Scaled = round_integer(2 * high + 1, precision);
        proof {
            let rest = (shift - 1) as nat;
            lemma_pow2_adds(rounded.exp as nat, rest);
            lemma_pow2_adds(rounded.exp as nat + rest, small.exp as nat);
            lemma_mul_is_associative(
                rounded.mant as int,
                pow2(rounded.exp as nat) as int,
                pow2(rest) as int,
            );
            lemma_mul_is_associative(
                rounded.mant as int,
                pow2(rounded.exp as nat + rest) as int,
                low_unit as int,
            );
        }
        Scaled { mant: rounded.mant, exp: rounded.exp + (shift - 1) + small.exp }
    }
}

/// A larger number has a nearest integer that is no smaller.
pub proof fn lemma_nearest_monotone(a: nat, b: nat, den: nat)
    requires
        den > 0,
        a <= b,
    ensures
        nearest(a, den) <= nearest(b, den),
{
    lemma_fundamental_div_mod(a as int, den as int);
    lemma_fundamental_div_mod(b as int, den as int);
    let qa = a / den;
    let qb = b / den;
    let ra = a % den;
    let rb = b % den;
    if qa > qb {
        assert(den * qa >= den * qb + den) by (nonlinear_arith)
            requires
                qa >= qb + 1,
                den > 0,
        ;
        assert(false);
    }
}

/// A nearest integer is at most half a denominator away.
pub proof fn lemma_nearest_error(num: nat, den: nat)
    requires
        den > 0,
    ensures
        2 * (nearest(num, den) * den) <= 2 * num + den,
        2 * num <= 2 * (nearest(num, den) * den) + den,
{
    lemma_fundamental_div_mod(num as int, den as int);
    let q = num / den;
    lemma_mul_is_commutative(q as int, den as int);
    lemma_mul_is_distributive_add(den as int, q as int, 1);
    lemma_mul_is_commutative(q as int + 1, den as int);
    lemma_mul_basics(den as int);
}

/// Rounding to `precision` digits goes no further than the powers of two around the
/// quotient.
pub proof fn lemma_round_ratio_bounds(num: nat, den: nat, precision: nat)
    requires
        den > 0,
        0 < precision <= bit_length(num / den),
    ensures
        pow2((bit_length(num / den) - 1) as nat) <= round_ratio(num, den, precision),
        round_ratio(num, den, precision) <= pow2(bit_length(num / den)),
{
    let q = num / den;
    let b = bit_length(q);
    let drop = (b - precision) as nat;
    let unit = pow2(drop);
    lemma2_to64();
    assert(drop == 0 ==> unit == 1);
    lemma_pow2_pos(drop);
    lemma_bit_length_bounds(q);
    lemma_fundamental_div_mod(num as int, den as int);
    let r = num % den;
    let lo = pow2((precision - 1) as nat);
    let hi = pow2(precision);
    lemma_pow2_adds((precision - 1) as nat, drop);
    lemma_pow2_adds(precision, drop);
    let d = den * unit;
    lemma_mul_strictly_positive(den as int, unit as int);
    // The quotient lies between `lo` and `hi` units, and these are their own nearest.
    assert(lo * d <= num && num <= hi * d) by (nonlinear_arith)
        requires
            num == den * q + r,
            0 <= r < den,
            lo * unit <= q,
            q + 1 <= hi * unit,
            d == den * unit,
            den > 0,
    {
        assert(den * (lo * unit) <= den * q);
        assert(den * (q + 1) <= den * (hi * unit));
        assert(lo * d == den * (lo * unit));
        assert(hi * d == den * (hi * unit));
    }
    lemma_nearest_exact(lo, d);
    lemma_nearest_exact(hi, d);
    lemma_nearest_monotone(lo * d, num, d);
    lemma_nearest_monotone(num, hi * d, d);
    lemma_mul_inequality(lo as int, nearest(num, d) as int, unit as int);
    lemma_mul_inequality(nearest(num, d) as int, hi as int, unit as int);
}

/// A larger number is rounded to one that is no smaller.
pub proof fn lemma_round_ratio_monotone(a: nat, b: nat, den: nat, precision: nat)
    requires
        den > 0,
        0 < precision,
        a <= b,
    ensures
        round_ratio(a, den, precision) <= round_ratio(b, den, precision),
{
    let qa = a / den;
    let qb = b / den;
    vstd::arithmetic::div_mod::lemma_div_is_ordered(a as int, b as int, den as int);
    let ba = bit_length(qa);
    let bb = bit_length(qb);
    lemma2_to64();
    lemma_mul_basics(den as int);
    if qb > 0 {
        lemma_bit_length_bounds(qb);
        lemma_bit_length_at_most(qa, bb);
    } else {
        assert(qa == 0);
    }
    assert(ba <= bb);
    if bb <= precision {
        assert(den * pow2(0) == den);
        lemma_mul_basics(nearest(a, den) as int);
        lemma_mul_basics(nearest(b, den) as int);
        lemma_nearest_monotone(a, b, den);
    } else if ba == bb {
        let unit = pow2((bb - precision) as nat);
        lemma_pow2_pos((bb - precision) as nat);
        lemma_mul_strictly_positive(den as int, unit as int);
        lemma_nearest_monotone(a, b, den * unit);
        lemma_mul_inequality(
            nearest(a, den * unit) as int,
            nearest(b, den * unit) as int,
            unit as int,
        );
    } else {
        lemma_round_ratio_bounds(b, den, precision);
        let floor = pow2((bb - 1) as nat);
        if ba >= precision {
            lemma_round_ratio_bounds(a, den, precision);
            if ba < bb - 1 {
                lemma_pow2_strictly_increases(ba, (bb - 1) as nat);
            }
        } else {
            // The smaller one is rounded to an integer, which is no larger than the
            // power of two above it.
            lemma_fundamental_div_mod(a as int, den as int);
            assert(den * pow2(0) == den);
            lemma_mul_basics(nearest(a, den) as int);
            assert(round_ratio(a, den, precision) == nearest(a, den));
            assert(nearest(a, den) <= qa + 1);
            if qa > 0 {
                lemma_bit_length_bounds(qa);
            }
            lemma_pow2_pos(ba);
            assert(qa + 1 <= pow2(ba));
            if ba < bb - 1 {
                lemma_pow2_strictly_increases(ba, (bb - 1) as nat);
            }
        }
    }
}

/// A quotient that fills the precision is rounded by at most one part in two to the
/// power of the precision.
pub proof fn lemma_round_ratio_error(num: nat, den: nat, precision: nat)
    requires
        den > 0,
        0 < precision <= bit_length(num / den),
    ensures
        pow2(precision) * (round_ratio(num, den, precision) * den) <= pow2(precision) * num + num,
        pow2(precision) * num <= pow2(precision) * (round_ratio(num, den, precision) * den) + num,
{
    let q = num / den;
    let b = bit_length(q);
    let drop = (b - precision) as nat;
    let unit = pow2(drop);
    lemma2_to64();
    assert(drop == 0 ==> unit == 1);
    lemma_pow2_pos(drop);
    lemma_bit_length_bounds(q);
    lemma_fundamental_div_mod(num as int, den as int);
    let d = den * unit;
    lemma_mul_strictly_positive(den as int, unit as int);
    lemma_nearest_error(num, d);
    let z = nearest(num, d);
    let half = pow2((precision - 1) as nat);
    let p = pow2(precision);
    lemma_pow2_unfold(precision);
    lemma_pow2_adds((precision - 1) as nat, drop);
    let r = num % den;
    let w = (z * unit) * den;
    assert(w == z * d) by (nonlinear_arith)
        requires
            d == den * unit,
            w == (z * unit) * den,
    ;
    assert(half * d <= num) by (nonlinear_arith)
        requires
            num == den * q + r,
            r >= 0,
            half * unit <= q,
            d == den * unit,
            den > 0,
    {
        assert(den * (half * unit) <= den * q);
        assert(half * d == den * (half * unit));
    }
    lemma_pow2_pos((precision - 1) as nat);
    assert(p * w <= p * num + num && p * num <= p * w + num) by (nonlinear_arith)
        requires
            p == 2 * half,
            half > 0,
            2 * w <= 2 * num + d,
            2 * num <= 2 * w + d,
            half * d <= num,
    {
        assert(half * (2 * w) <= half * (2 * num + d));
        assert(half * (2 * num) <= half * (2 * w + d));
    }
}

/// A positive number is not rounded to zero.
pub proof fn lemma_round_int_positive(n: nat, precision: nat)
    requires
        0 < precision,
        n > 0,
    ensures
        round_int(n, precision) > 0,
{
    assert(n / 1 == n);
    if precision <= bit_length(n) {
        lemma_round_ratio_bounds(n, 1, precision);
        lemma_pow2_pos((bit_length(n) - 1) as nat);
    } else {
        lemma_round_int_exact(n, precision);
    }
}

/// What has been rounded is not changed by rounding again.
pub proof fn lemma_round_ratio_fixed(num: nat, den: nat, precision: nat)
    requires
        den > 0,
        0 < precision,
    ensures
        round_int(round_ratio(num, den, precision), precision) == round_ratio(num, den, precision),
{
    let q = num / den;
    let b = bit_length(q);
    lemma2_to64();
    lemma_mul_basics(den as int);
    if b > precision {
        let drop = (b - precision) as nat;
        let z = nearest(num, den * pow2(drop));
        lemma_round_ratio_bounds(num, den, precision);
        lemma_pow2_adds(precision, drop);
        lemma_pow2_pos(drop);
        if z > pow2(precision) {
            lemma_mul_strict_inequality(pow2(precision) as int, z as int, pow2(drop) as int);
        }
        lemma_round_int_scaled(z, drop, precision);
    } else {
        let z = nearest(num, den);
        assert(den * pow2(0) == den);
        lemma_mul_basics(z as int);
        if q > 0 {
            lemma_bit_length_bounds(q);
            if b < precision {
                lemma_pow2_strictly_increases(b, precision);
            }
        } else {
            lemma_pow2_pos(precision);
        }
        lemma_round_int_scaled(z, 0, precision);
    }
}

/// A number is rounded by at most one part in two to the power of the precision.
pub proof fn lemma_round_int_error(n: nat, precision: nat)
    requires
        0 < precision,
    ensures
        pow2(precision) * round_int(n, precision) <= pow2(precision) * n + n,
        pow2(precision) * n <= pow2(precision) * round_int(n, precision) + n,
{
    assert(n / 1 == n);
    if precision <= bit_length(n) {
        lemma_round_ratio_error(n, 1, precision);
        lemma_mul_basics(round_int(n, precision) as int);
    } else {
        lemma_round_int_exact(n, precision);
    }
}

/// No multiple of the denominator is nearer than the nearest integer's, and where another
/// is as near, that integer is even.
proof fn lemma_nearest_best(num: nat, den: nat, j: nat)
    requires
        den > 0,
    ensures
        abs(nearest(num, den) * den - num) <= abs(j * den - num),
        abs(nearest(num, den) * den - num) == abs(j * den - num) && j != nearest(num, den)
            ==> nearest(num, den) % 2 == 0,
{
    let q = num / den;
    let r = num % den;
    lemma_fundamental_div_mod(num as int, den as int);
    let a = (q * den) as int;
    lemma_mul_is_commutative(q as int, den as int);
    assert((q + 1) * den == a + den) by (nonlinear_arith)
        requires
            a == q * den,
    ;
    if j < q {
        assert(j * den <= a - den) by (nonlinear_arith)
            requires
                j + 1 <= q,
                a == q * den,
                den > 0,
        ;
    }
    if j > q + 1 {
        assert(j * den >= a + 2 * den) by (nonlinear_arith)
            requires
                j >= q + 2,
                a == q * den,
                den > 0,
        ;
    }
}

/// No number of the precision is nearer to a quotient than the rounded one. Where another
/// is as near, the last digit of the rounded one is zero.
pub proof fn lemma_round_ratio_best(num: nat, den: nat, precision: nat, x: nat)
    requires
        den > 0,
        0 < precision,
        round_int(x, precision) == x,
    ensures
        abs(round_ratio(num, den, precision) * den - num) <= abs(x * den - num),
        ({
            let bits = bit_length(num / den);
            let drop = if bits > precision {
                (bits - precision) as nat
            } else {
                0
            };
            abs(round_ratio(num, den, precision) * den - num) == abs(x * den - num) && x
                != round_ratio(num, den, precision) ==> nearest(num, den * pow2(drop)) % 2 == 0
        }),
{
    let whole = num / den;
    let bits = bit_length(whole);
    let drop = if bits > precision {
        (bits - precision) as nat
    } else {
        0
    };
    let unit = pow2(drop);
    let step = den * unit;
    let z = nearest(num, step);
    let rounded = round_ratio(num, den, precision);
    lemma2_to64();
    lemma_pow2_pos(drop);
    lemma_mul_strictly_positive(den as int, unit as int);
    assert(rounded * den == z * step) by (nonlinear_arith)
        requires
            rounded == z * unit,
            step == den * unit,
    ;
    if drop == 0 {
        lemma_mul_basics(den as int);
        lemma_mul_basics(z as int);
        lemma_nearest_best(num, step, x);
    } else {
        lemma_bit_length_bounds(whole);
        if bit_length(x) >= bits {
            // A multiple of the unit.
            let more = (bit_length(x) - precision) as nat;
            assert(x / 1 == x);
            lemma_mul_basics(pow2(more) as int);
            let m = nearest(x, pow2(more));
            assert(x == m * pow2(more));
            let k = (more - drop) as nat;
            lemma_pow2_adds(k, drop);
            let j = m * pow2(k);
            lemma_mul_is_associative(m as int, pow2(k) as int, unit as int);
            assert(x == j * unit);
            assert(x * den == j * step) by (nonlinear_arith)
                requires
                    x == j * unit,
                    step == den * unit,
            ;
            lemma_nearest_best(num, step, j);
        } else {
            // Below the power of two that the quotient reaches.
            let half = pow2((precision - 1) as nat);
            let y = pow2((bits - 1) as nat);
            lemma_pow2_adds((precision - 1) as nat, drop);
            assert(y == half * unit);
            if x > 0 {
                lemma_bit_length_bounds(x);
                if bit_length(x) < bits - 1 {
                    lemma_pow2_strictly_increases(bit_length(x), (bits - 1) as nat);
                }
            } else {
                lemma_pow2_pos((bits - 1) as nat);
            }
            assert(x < y);
            lemma_nearest_best(num, step, half);
            lemma_fundamental_div_mod(num as int, den as int);
            assert(half * step == y * den) by (nonlinear_arith)
                requires
                    y == half * unit,
                    step == den * unit,
            ;
            lemma_mul_strict_inequality(x as int, y as int, den as int);
            lemma_mul_inequality(y as int, whole as int, den as int);
            lemma_mul_is_commutative(whole as int, den as int);
        }
    }
}

/// A number with few digits is below a power of two.
pub proof fn lemma_bit_length_below(n: nat, bits: nat)
    requires
        bit_length(n) <= bits,
    ensures
        n < pow2(bits),
{
    lemma_pow2_pos(bits);
    if n > 0 {
        lemma_bit_length_bounds(n);
        if bit_length(n) < bits {
            lemma_pow2_strictly_increases(bit_length(n), bits);
        }
    }
}

} // verus!
