//! Helpers that the streamers share: one-shot callbacks and linear fades.

use std::collections::HashMap;
use vstd::prelude::*;
use vstd::arithmetic::power2::{
    lemma2_to64, lemma2_to64_rest, lemma_pow2_adds, lemma_pow2_pos, lemma_pow2_strictly_increases,
    lemma_pow2_unfold, pow2,
};
use crate::float::{
    bit_length, lemma_bit_length_at_most, lemma_bit_length_bounds, lemma_round_int_bound,
    lemma_round_int_error, lemma_round_int_positive, lemma_round_int_scaled,
    lemma_round_ratio_error, lemma_round_ratio_fixed, lemma_round_ratio_monotone, round_int,
    single_quotient,
};
use crate::sample::{
    law_onto_silence, law_ratio_ends, law_sum_commutes, lemma_units_of_pattern, Sample, SILENCE,
    UNITY,
};

verus! {

/// Takes the callback that is due at `callback_time` out of the map and hands it
/// over to be run.
///
/// A callback runs once. It is taken out first and run by the caller, who no
/// longer holds the map then: a callback may itself ask for the next one.
pub fn execute_callback<F>(callbacks: &mut HashMap<u64, F>, callback_time: u64) -> (due: Option<F>)
    ensures
        final(callbacks)@ == old(callbacks)@.remove(callback_time),
        due == (if old(callbacks)@.contains_key(callback_time) {
            Some(old(callbacks)@[callback_time])
        } else {
            None
        }),
        !final(callbacks)@.contains_key(callback_time),
{
    broadcast use vstd::std_specs::hash::group_hash_axioms;

    callbacks.remove(&callback_time)
}

/// The gain of a linear fade-out over `cutoff` samples at sample `x`.
pub open spec fn fadeout_linear(x: nat, cutoff: nat) -> Sample {
    if x < cutoff {
        Sample::of_ratio((cutoff - x) as nat, cutoff)
    } else {
        Sample { bits: SILENCE }
    }
}

/// The gain of a linear fade-in over `cutoff` samples at sample `x`.
pub open spec fn fadein_linear(x: nat, cutoff: nat) -> Sample {
    if x < cutoff {
        Sample::of_ratio(x, cutoff)
    } else {
        Sample { bits: UNITY }
    }
}

/// The gain of a linear fade-out: what is left of the fade, silence after it.
pub fn f_fadeout_linear(x: usize, cutoff_samples: usize) -> (gain: Sample)
    ensures
        gain == fadeout_linear(x as nat, cutoff_samples as nat),
        x < cutoff_samples ==> gain == Sample::of_ratio(
            (cutoff_samples - x) as nat,
            cutoff_samples as nat,
        ),
        x >= cutoff_samples ==> gain == (Sample { bits: SILENCE }),
{
    if x < cutoff_samples {
        return Sample::from_ratio((cutoff_samples - x) as u64, cutoff_samples as u64);
    }
    Sample { bits: SILENCE }
}

/// The gain of a linear fade-in: what has passed of the fade, unity after it.
pub fn f_fadein_linear(x: usize, cutoff_samples: usize) -> (gain: Sample)
    ensures
        gain == fadein_linear(x as nat, cutoff_samples as nat),
        x < cutoff_samples ==> gain == Sample::of_ratio(x as nat, cutoff_samples as nat),
        x >= cutoff_samples ==> gain == (Sample { bits: UNITY }),
{
    if x < cutoff_samples {
        return Sample::from_ratio(x as u64, cutoff_samples as u64);
    }
    Sample { bits: UNITY }
}

/// A fade starts and ends as it should: a fade-in goes from silence to unity, a
/// fade-out from unity to silence. One of no length is at its end from the start.
pub proof fn law_fade_ends(cutoff: nat)
    ensures
        cutoff > 0 ==> fadein_linear(0, cutoff) == (Sample { bits: SILENCE }),
        cutoff > 0 ==> fadeout_linear(0, cutoff) == (Sample { bits: UNITY }),
        forall|x: nat|
            x >= cutoff ==> #[trigger] fadein_linear(x, cutoff) == (Sample { bits: UNITY }),
        forall|x: nat|
            x >= cutoff ==> #[trigger] fadeout_linear(x, cutoff) == (Sample { bits: SILENCE }),
{
    if cutoff > 0 {
        law_ratio_ends(cutoff);
    }
}

/// A fade-out is the fade-in backwards.
pub proof fn law_fades_mirror(x: nat, cutoff: nat)
    requires
        0 < cutoff,
        x <= cutoff,
    ensures
        fadeout_linear(x, cutoff) == fadein_linear((cutoff - x) as nat, cutoff),
{
    law_ratio_ends(cutoff);
}

/// The single-precision quotient of two counts, the first no larger: a number from
/// zero to one that is rounded by one part in two to the power 24, if it is not zero.
proof fn lemma_ratio(num: nat, den: nat)
    requires
        num <= den,
        0 < den < pow2(64),
    ensures
        Sample::of_ratio(num, den).units() == single_quotient(num, den),
        Sample::of_ratio(num, den).is_finite(),
        !Sample::of_ratio(num, den).negative(),
        single_quotient(num, den) <= pow2(149),
        num > 0 ==> ({
            let n = round_int(num, 24) * pow2(149);
            let d = round_int(den, 24);
            let q = single_quotient(num, den);
            &&& d > 0
            &&& pow2(24) * (q * d) <= pow2(24) * n + n
            &&& pow2(24) * n <= pow2(24) * (q * d) + n
        }),
{
    let t = pow2(149);
    let n = round_int(num, 24);
    let d = round_int(den, 24);
    lemma2_to64();
    lemma2_to64_rest();
    lemma_pow2_pos(149);
    lemma_round_int_positive(den, 24);
    assert(den / 1 == den && num / 1 == num);
    lemma_round_ratio_monotone(num, den, 1, 24);
    assert(n <= d);
    lemma_round_ratio_fixed(n * t, d, 24);
    // The quotient is at most one.
    vstd::arithmetic::mul::lemma_mul_inequality(n as int, d as int, t as int);
    lemma_round_ratio_monotone(n * t, d * t, d, 24);
    vstd::arithmetic::mul::lemma_mul_is_commutative(d as int, t as int);
    vstd::arithmetic::mul::lemma_mul_basics(d as int);
    crate::float::lemma_round_ratio_cancel(t, 1, d, 24);
    vstd::arithmetic::mul::lemma_mul_basics(t as int);
    lemma_round_int_scaled(1, 149, 24);
    lemma_pow2_strictly_increases(149, 150);
    lemma_bit_length_at_most(single_quotient(num, den), 150);
    lemma_units_of_pattern(single_quotient(num, den));
    if num > 0 {
        lemma_round_int_positive(num, 24);
        lemma_round_int_bound(den, 24);
        lemma_bit_length_at_most(den, 64);
        if bit_length(den) < 64 {
            lemma_pow2_strictly_increases(bit_length(den), 64);
        }
        // There are digits enough to fill the precision.
        let whole = (n * t) / d;
        vstd::arithmetic::div_mod::lemma_fundamental_div_mod((n * t) as int, d as int);
        let r = (n * t) % d;
        lemma_pow2_adds(85, 64);
        lemma_pow2_pos(64);
        let low = pow2(85);
        let high = pow2(64);
        assert(n * t >= t) by (nonlinear_arith)
            requires
                n >= 1,
                t > 0,
        ;
        assert(whole >= low) by (nonlinear_arith)
            requires
                n * t == d * whole + r,
                0 <= r < d,
                0 < d <= high,
                n * t >= t,
                t == low * high,
        {
            if whole < low {
                assert(d * (whole + 1) <= d * low);
                assert(d * low <= high * low);
                assert(d * (whole + 1) == d * whole + d);
            }
        }
        if bit_length(whole) < 24 {
            lemma_pow2_pos(85);
            lemma_bit_length_bounds(whole);
            lemma_pow2_strictly_increases(bit_length(whole), 85);
        }
        lemma_round_ratio_error(n * t, d, 24);
    }
}

/// A fade-in never goes down, and stays between silence and unity.
pub proof fn law_fade_in_rises(x: usize, y: usize, cutoff: usize)
    requires
        x <= y,
    ensures
        fadein_linear(x as nat, cutoff as nat).units() <= fadein_linear(
            y as nat,
            cutoff as nat,
        ).units() <= (Sample { bits: UNITY }).units(),
        fadein_linear(x as nat, cutoff as nat).is_finite(),
        !fadein_linear(x as nat, cutoff as nat).negative(),
{
    let c = cutoff as nat;
    lemma2_to64();
    lemma2_to64_rest();
    lemma_pow2_unfold(64);
    lemma_pow2_adds(23, 126);
    if x < cutoff {
        lemma_ratio(x as nat, c);
    }
    if y < cutoff {
        lemma_ratio(y as nat, c);
        let t = pow2(149);
        let a = round_int(x as nat, 24);
        let b = round_int(y as nat, 24);
        let d = round_int(c, 24);
        lemma_round_ratio_monotone(x as nat, y as nat, 1, 24);
        lemma_round_int_positive(c, 24);
        lemma_pow2_pos(149);
        vstd::arithmetic::mul::lemma_mul_inequality(a as int, b as int, t as int);
        lemma_round_ratio_monotone(a * t, b * t, d, 24);
    }
}

/// The gains of a linear crossfade add up to one at every sample, but for rounding: to
/// within one part in two to the power 22.
pub proof fn law_fades_add_up(x: usize, cutoff: usize)
    ensures
        ({
            let sum = fadein_linear(x as nat, cutoff as nat).sum(
                fadeout_linear(x as nat, cutoff as nat),
            );
            &&& sum.is_finite()
            &&& !sum.negative()
            &&& pow2(149) - pow2(127) <= sum.units() <= pow2(149) + pow2(127)
        }),
        (Sample { bits: UNITY }).units() == pow2(149),
{
    let c = cutoff as nat;
    let t = pow2(149);
    let one = Sample { bits: UNITY };
    let zero = Sample { bits: SILENCE };
    lemma2_to64();
    lemma2_to64_rest();
    lemma_pow2_unfold(64);
    lemma_pow2_adds(23, 126);
    lemma_pow2_pos(127);
    if cutoff > 0 {
        law_ratio_ends(c);
    }
    law_onto_silence(one);
    law_sum_commutes(one, zero);
    if 0 < x < cutoff {
        let n = round_int(x as nat, 24);
        let m = round_int((c - x) as nat, 24);
        let d = round_int(c, 24);
        let a = single_quotient(x as nat, c);
        let b = single_quotient((c - x) as nat, c);
        lemma_ratio(x as nat, c);
        lemma_ratio((c - x) as nat, c);
        lemma_round_int_error(x as nat, 24);
        lemma_round_int_error((c - x) as nat, 24);
        lemma_round_int_error(c, 24);
        let p = 0x100_0000int;
        let s = a + b;
        let q = n + m;
        lemma_close_to_one(p, t as int, c as int, d as int, n as int, m as int, a as int, b as int);
        // Both bounds have few digits, so rounding stays between them.
        lemma_pow2_adds(22, 127);
        lemma_pow2_adds(24, 125);
        lemma_pow2_adds(2, 125);
        let low = (t - pow2(127)) as nat;
        let high = (t + pow2(127)) as nat;
        let u = pow2(127);
        assert(low == 0x3F_FFFF * u);
        assert(high == 0x40_0001 * u);
        lemma_round_int_scaled(0x3F_FFFF, 127, 24);
        lemma_round_int_scaled(0x40_0001, 127, 24);
        assert(s <= high && low <= s);
        lemma_round_ratio_monotone(s, high, 1, 24);
        lemma_round_ratio_monotone(low, s, 1, 24);
        lemma_round_ratio_fixed(s, 1, 24);
        let r = round_int(s, 24);
        lemma_pow2_adds(1, 149);
        lemma_pow2_strictly_increases(127, 149);
        lemma_bit_length_at_most(r, 150);
        lemma_units_of_pattern(r);
        assert(low > 0);
    }
}

/// Two quotients of parts over their whole add up to one, if each number is off by at
/// most one part in `p`.
proof fn lemma_close_to_one(p: int, t: int, c: int, d: int, n: int, m: int, a: int, b: int)
    requires
        p == 0x100_0000,
        t > 0,
        c > 0,
        d > 0,
        n >= 0,
        m >= 0,
        a >= 0,
        b >= 0,
        p * (a * d) <= p * (n * t) + n * t,
        p * (n * t) <= p * (a * d) + n * t,
        p * (b * d) <= p * (m * t) + m * t,
        p * (m * t) <= p * (b * d) + m * t,
        p * (n + m) <= p * c + c,
        p * c <= p * (n + m) + c,
        p * d <= p * c + c,
        p * c <= p * d + c,
    ensures
        p * (a + b) <= (p + 4) * t,
        (p - 4) * t <= p * (a + b),
{
    let s = a + b;
    let q = n + m;
    assert(s * d == a * d + b * d) by (nonlinear_arith)
        requires
            s == a + b,
    ;
    assert(q * t == n * t + m * t) by (nonlinear_arith)
        requires
            q == n + m,
    ;
    let sd = s * d;
    let qt = q * t;
    assert(p * sd <= (p + 1) * qt && (p - 1) * qt <= p * sd);
    let ct = c * t;
    // p * q lies between (p - 1) * c and (p + 1) * c.
    assert(p * qt <= (p + 1) * ct && (p - 1) * ct <= p * qt) by (nonlinear_arith)
        requires
            p == 0x100_0000,
            qt == q * t,
            ct == c * t,
            t > 0,
            p * q <= (p + 1) * c,
            (p - 1) * c <= p * q,
    {
        assert((p * q) * t <= ((p + 1) * c) * t);
        assert(((p - 1) * c) * t <= (p * q) * t);
    }
    assert(p * (p * sd) <= (p + 1) * ((p + 1) * ct) && (p - 1) * ((p - 1) * ct) <= p * (p * sd));
    let sc = s * c;
    assert((p - 1) * sc <= p * sd && p * sd <= (p + 1) * sc) by (nonlinear_arith)
        requires
            p == 0x100_0000,
            sd == s * d,
            sc == s * c,
            s >= 0,
            p * d <= (p + 1) * c,
            (p - 1) * c <= p * d,
    {
        assert(s * (p * d) <= s * ((p + 1) * c));
        assert(s * ((p - 1) * c) <= s * (p * d));
    }
    assert(p * ((p - 1) * sc) <= (p + 1) * ((p + 1) * ct));
    assert((p - 1) * ((p - 1) * ct) <= p * ((p + 1) * sc));
    assert(p * sc <= (p + 4) * ct);
    assert((p - 4) * ct <= p * sc);
    assert(p * s <= (p + 4) * t && (p - 4) * t <= p * s) by (nonlinear_arith)
        requires
            p == 0x100_0000,
            c > 0,
            sc == s * c,
            ct == c * t,
            p * sc <= (p + 4) * ct,
            (p - 4) * ct <= p * sc,
    {
        assert((p * s) * c <= ((p + 4) * t) * c);
        assert(((p - 4) * t) * c <= (p * s) * c);
    }
}

/// A fade is linear: the gain is the part of the fade that has passed, or is left, but for
/// rounding, which is a few parts in two to the power 24.
pub proof fn law_fades_are_linear(x: usize, cutoff: usize)
    requires
        x <= cutoff,
    ensures
        ({
            let up = fadein_linear(x as nat, cutoff as nat).units() * cutoff;
            let down = fadeout_linear(x as nat, cutoff as nat).units() * cutoff;
            &&& 0x100_0000 * up <= 0x100_0004 * (x * pow2(149))
            &&& 0xFF_FFFC * (x * pow2(149)) <= 0x100_0000 * up
            &&& 0x100_0000 * down <= 0x100_0004 * ((cutoff - x) * pow2(149))
            &&& 0xFF_FFFC * ((cutoff - x) * pow2(149)) <= 0x100_0000 * down
        }),
{
    let c = cutoff as nat;
    let t = pow2(149);
    lemma2_to64();
    lemma2_to64_rest();
    lemma_pow2_unfold(64);
    lemma_pow2_adds(23, 126);
    lemma_pow2_pos(149);
    let one = Sample { bits: UNITY };
    let zero = Sample { bits: SILENCE };
    assert(one.units() == t);
    vstd::arithmetic::mul::lemma_mul_basics(pow2(0) as int);
    assert(zero.units() == 0);
    vstd::arithmetic::mul::lemma_mul_basics(c as int);
    vstd::arithmetic::mul::lemma_mul_basics(t as int);
    vstd::arithmetic::mul::lemma_mul_is_commutative(c as int, t as int);
    assert(c * t >= 0);
    if x < cutoff {
        lemma_linear(x as nat, c);
        lemma_linear((c - x) as nat, c);
    }
}

/// The single-precision quotient of two counts is near the exact one.
proof fn lemma_linear(num: nat, den: nat)
    requires
        num <= den,
        0 < den < pow2(64),
    ensures
        0x100_0000 * (Sample::of_ratio(num, den).units() * den) <= 0x100_0004 * (num * pow2(149)),
        0xFF_FFFC * (num * pow2(149)) <= 0x100_0000 * (Sample::of_ratio(num, den).units() * den),
{
    let t = pow2(149) as int;
    let x = num as int;
    let c = den as int;
    let p = 0x100_0000int;
    lemma2_to64();
    lemma_pow2_pos(149);
    lemma_ratio(num, den);
    if num == 0 {
        law_ratio_ends(den);
        vstd::arithmetic::mul::lemma_mul_basics(pow2(0) as int);
        vstd::arithmetic::mul::lemma_mul_basics(c);
        vstd::arithmetic::mul::lemma_mul_basics(t);
        assert((Sample { bits: SILENCE }).units() == 0);
        return;
    }
    let n = round_int(num, 24) as int;
    let d = round_int(den, 24) as int;
    let q = single_quotient(num, den) as int;
    lemma_round_int_error(num, 24);
    lemma_round_int_error(den, 24);
    let nt = n * t;
    let xt = x * t;
    let qd = q * d;
    let qc = q * c;
    assert(p * nt <= (p + 1) * xt && (p - 1) * xt <= p * nt) by (nonlinear_arith)
        requires
            p == 0x100_0000,
            nt == n * t,
            xt == x * t,
            t > 0,
            p * n <= (p + 1) * x,
            (p - 1) * x <= p * n,
    {
        assert((p * n) * t <= ((p + 1) * x) * t);
        assert(((p - 1) * x) * t <= (p * n) * t);
    }
    assert((p - 1) * qc <= p * qd && p * qd <= (p + 1) * qc) by (nonlinear_arith)
        requires
            p == 0x100_0000,
            qd == q * d,
            qc == q * c,
            q >= 0,
            p * d <= (p + 1) * c,
            (p - 1) * c <= p * d,
    {
        assert(q * (p * d) <= q * ((p + 1) * c));
        assert(q * ((p - 1) * c) <= q * (p * d));
    }
    assert(xt >= 0) by (nonlinear_arith)
        requires
            xt == x * t,
            x >= 0,
            t > 0,
    ;
    assert(p * qd <= (p + 1) * nt);
    assert((p - 1) * nt <= p * qd);
}

} // verus!
