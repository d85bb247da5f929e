//! How loud an average of channels can be.

use vstd::prelude::*;
use vstd::arithmetic::mul::{
    lemma_mul_basics, lemma_mul_inequality, lemma_mul_is_commutative, lemma_mul_upper_bound,
};
use vstd::arithmetic::power2::{
    lemma2_to64, lemma2_to64_rest, lemma_pow2_adds, lemma_pow2_pos, lemma_pow2_strictly_increases,
    pow2,
};
use crate::float::{
    bit_length, lemma_bit_length_at_most, lemma_nearest_error, lemma_round_int_error,
    lemma_round_int_positive, lemma_round_int_scaled, lemma_round_ratio_cancel,
    lemma_round_ratio_error, lemma_round_ratio_fixed, lemma_round_ratio_monotone, nearest,
    round_int, round_ratio, single_quotient,
};
use crate::sample::{lemma_count_units, lemma_units_of_pattern, single_bits, Sample, SILENCE};
use super::mixer::{mix_factor, mix_in, mixed, total_weight, weighted, MixChannel};

verus! {

/// A rounded quotient is no more than one part and one unit above the exact one.
proof fn lemma_round_ratio_above(num: nat, den: nat)
    requires
        den > 0,
    ensures
        0x100_0000 * (round_ratio(num, den, 24) * den) <= 0x100_0001 * num + 0x100_0000 * den,
{
    lemma2_to64();
    lemma2_to64_rest();
    if bit_length(num / den) >= 24 {
        lemma_round_ratio_error(num, den, 24);
    } else {
        lemma_mul_basics(den as int);
        lemma_mul_basics(nearest(num, den) as int);
        lemma_nearest_error(num, den);
        assert(round_ratio(num, den, 24) == nearest(num, den));
    }
}

/// A rounded quotient is no more than one part and one unit below the exact one.
proof fn lemma_round_ratio_below(num: nat, den: nat)
    requires
        den > 0,
    ensures
        0xFF_FFFF * num <= 0x100_0000 * (round_ratio(num, den, 24) * den) + 0x100_0000 * den,
{
    lemma2_to64();
    lemma2_to64_rest();
    if bit_length(num / den) >= 24 {
        lemma_round_ratio_error(num, den, 24);
    } else {
        lemma_mul_basics(den as int);
        lemma_mul_basics(nearest(num, den) as int);
        lemma_nearest_error(num, den);
        assert(round_ratio(num, den, 24) == nearest(num, den));
    }
}

/// A number below two to the power 276 stays below two to the power 277 when it is rounded,
/// and its pattern stands for it with either sign.
pub proof fn lemma_signed_units(num: nat, den: nat, negative: bool)
    requires
        den > 0,
        num <= pow2(276) * den,
    ensures
        ({
            let r = round_ratio(num, den, 24);
            let x = Sample::signed(negative, single_bits(r));
            &&& r <= pow2(276)
            &&& x.is_finite()
            &&& x.units() == r
            &&& x.negative() == negative
        }),
{
    let r = round_ratio(num, den, 24);
    lemma2_to64();
    lemma_round_ratio_monotone(num, pow2(276) * den, den, 24);
    lemma_mul_basics(den as int);
    lemma_round_ratio_cancel(pow2(276), 1, den, 24);
    lemma_mul_basics(pow2(276) as int);
    lemma_round_int_scaled(1, 276, 24);
    lemma_round_ratio_fixed(num, den, 24);
    lemma_pow2_strictly_increases(276, 277);
    lemma_bit_length_at_most(r, 277);
    lemma_units_of_pattern(r);
    let plain = Sample { bits: single_bits(r) };
    let x = Sample::signed(negative, single_bits(r));
    assert(plain.magnitude() == x.magnitude());
    assert(plain.digits() == x.digits() && plain.exponent() == x.exponent());
}

/// A sum is no louder than both numbers together, but for one part.
pub proof fn lemma_sum_is_bounded(a: Sample, b: Sample)
    requires
        a.is_finite(),
        b.is_finite(),
        a.units() + b.units() <= pow2(276),
    ensures
        a.sum(b).is_finite(),
        0x100_0000 * a.sum(b).units() <= 0x100_0001 * (a.units() + b.units()),
        0x100_0000 * (a.sum(b).value() - (a.value() + b.value())) <= a.units() + b.units(),
        0x100_0000 * ((a.value() + b.value()) - a.sum(b).value()) <= a.units() + b.units(),
{
    let exact = a.value() + b.value();
    let n = if exact < 0 {
        (-exact) as nat
    } else {
        exact as nat
    };
    assert(n <= a.units() + b.units());
    lemma2_to64();
    lemma2_to64_rest();
    lemma_mul_basics(pow2(276) as int);
    if n == 0 {
        let x = Sample::signed(a.negative() && b.negative(), 0);
        assert(x.magnitude() == 0);
        lemma_mul_basics(pow2(0) as int);
        assert(x.units() == 0);
    } else {
        lemma_signed_units(n, 1, exact < 0);
        lemma_round_int_error(n, 24);
    }
}

/// How loud a sample is once it is weighted for an average, against the share of its weight:
/// a few parts and a unit more at most.
pub proof fn lemma_weighted_is_bounded(s: Sample, weight: u32, total: nat, peak: nat)
    requires
        s.is_finite(),
        s.units() <= peak,
        peak <= pow2(240),
        0 < total <= u32::MAX,
    ensures
        ({
            let t = weighted(s, weight, mix_factor(true, total));
            &&& t.is_finite()
            &&& 0x100_0000 * (total * (t.units() - 1)) <= 0x100_0008 * (peak * weight)
            &&& 0x100_0000 * (total * (t.units() - 1)) <= 0x100_0008 * (s.units() * weight)
            &&& 0xFF_FFF8 * (s.units() * weight) <= 0x100_0000 * (total * (t.units() + 1))
            &&& t.negative() == s.negative()
        }),
{
    let unit = pow2(149);
    let w = weight as nat;
    let c = round_int(w, 24);
    let d = round_int(total, 24);
    let k = single_quotient(1, total);
    let factor = Sample::of_ratio(1, total);
    let count = Sample::of_count(w);
    let u = s.units();
    lemma2_to64();
    lemma2_to64_rest();
    lemma_pow2_pos(149);
    // The weight, and the total.
    lemma_count_units(w);
    lemma_round_int_error(w, 24);
    lemma_round_int_error(total, 24);
    lemma_round_int_positive(total, 24);
    assert(c <= 0x1_0000_0000 && d <= 0x1_0000_0000) by {
        lemma_round_ratio_monotone(w, pow2(32), 1, 24);
        lemma_round_ratio_monotone(total, pow2(32), 1, 24);
        lemma_mul_basics(pow2(32) as int);
        lemma_round_int_scaled(1, 32, 24);
    }
    // The sample times its weight is a whole number of units.
    let first = s.product(count);
    let uc = u * c;
    assert(u * (c * unit) == uc * unit) by (nonlinear_arith)
        requires
            uc == u * c,
    ;
    lemma_mul_basics(unit as int);
    lemma_round_ratio_cancel(uc, 1, unit, 24);
    lemma_pow2_adds(240, 32);
    lemma_pow2_strictly_increases(272, 276);
    lemma_mul_upper_bound(u as int, pow2(240) as int, c as int, pow2(32) as int);
    lemma_mul_inequality(uc as int, pow2(276) as int, unit as int);
    lemma_signed_units(uc * unit, unit, s.negative() != count.negative());
    let a = round_int(uc, 24);
    assert(first.is_finite() && first.units() == a);
    lemma_round_int_error(uc, 24);
    // One over the total.
    lemma_mul_basics(1);
    lemma_round_int_scaled(1, 0, 24);
    assert(round_int(1, 24) == 1);
    lemma_round_ratio_above(unit, d);
    lemma_round_ratio_below(unit, d);
    lemma_pow2_adds(56, 93);
    lemma_pow2_strictly_increases(0, 93);
    assert(0x100_0000 * d <= unit) by (nonlinear_arith)
        requires
            d <= 0x1_0000_0000,
            unit == pow2(56) * pow2(93),
            pow2(56) == 0x100_0000_0000_0000,
            pow2(93) >= 1,
    ;
    assert(0x100_0000 * (k * d) <= 0x100_0002 * unit);
    assert(0xFF_FFFE * unit <= 0x100_0000 * (k * d));
    assert(k <= 2 * unit) by (nonlinear_arith)
        requires
            0x100_0000 * (k * d) <= 0x100_0002 * unit,
            d >= 1,
            k >= 0,
    {
        assert(k * d >= k);
    }
    assert(unit <= pow2(276) * d) by {
        lemma_pow2_strictly_increases(149, 276);
        lemma_mul_inequality(1, d as int, pow2(276) as int);
        lemma_mul_is_commutative(d as int, pow2(276) as int);
    }
    lemma_signed_units(unit, d, false);
    assert(factor.is_finite() && factor.units() == k);
    // The product of both.
    let t = first.product(factor);
    let ak = a * k;
    lemma_round_ratio_above(ak, unit);
    lemma_round_ratio_below(ak, unit);
    assert(a <= 2 * uc);
    lemma_pow2_adds(2, 272);
    lemma_pow2_strictly_increases(274, 276);
    assert(ak <= pow2(276) * unit) by (nonlinear_arith)
        requires
            ak == a * k,
            0 <= a <= 2 * uc,
            0 <= k <= 2 * unit,
            uc <= pow2(272),
            pow2(274) == 4 * pow2(272),
            pow2(274) <= pow2(276),
            unit > 0,
    {
        assert(a <= 2 * pow2(272));
        assert(a * k <= (2 * pow2(272)) * k);
        assert((2 * pow2(272)) * k <= (2 * pow2(272)) * (2 * unit));
        assert((2 * pow2(272)) * (2 * unit) == pow2(274) * unit);
        assert(pow2(274) * unit <= pow2(276) * unit);
    }
    lemma_signed_units(ak, unit, first.negative() != factor.negative());
    let n = t.units();
    assert(n == round_ratio(ak, unit, 24));
    lemma_share(
        unit as int,
        u as int,
        w as int,
        total as int,
        c as int,
        d as int,
        k as int,
        a as int,
        n as int,
    );
    lemma_share_below(
        unit as int,
        u as int,
        w as int,
        total as int,
        c as int,
        d as int,
        k as int,
        a as int,
        n as int,
    );
    assert(u * w <= peak * w) by (nonlinear_arith)
        requires
            u <= peak,
            w >= 0,
    ;
    assert(weighted(s, weight, mix_factor(true, total)) == t);
}

/// A product of four numbers that are each rounded is a few parts and a unit above the exact
/// share at most.
proof fn lemma_share(
    unit: int,
    u: int,
    w: int,
    total: int,
    c: int,
    d: int,
    k: int,
    a: int,
    n: int,
)
    requires
        unit > 0,
        u >= 0,
        w >= 0,
        total > 0,
        c >= 0,
        d > 0,
        k >= 0,
        a >= 0,
        n >= 0,
        0x100_0000 * c <= 0x100_0001 * w,
        0x100_0000 * total <= 0x100_0000 * d + total,
        0x100_0000 * a <= 0x100_0001 * (u * c),
        0x100_0000 * (k * d) <= 0x100_0002 * unit,
        0x100_0000 * (n * unit) <= 0x100_0001 * (a * k) + 0x100_0000 * unit,
    ensures
        0x100_0000 * (total * (n - 1)) <= 0x100_0008 * (u * w),
{
    let uw = u * w;
    assert(uw >= 0) by (nonlinear_arith)
        requires
            uw == u * w,
            u >= 0,
            w >= 0,
    ;
    if n <= 1 {
        assert(total * (n - 1) <= 0) by (nonlinear_arith)
            requires
                total > 0,
                n <= 1,
        ;
        return;
    }
    let m = n - 1;
    let mu = m * unit;
    assert(n * unit == mu + unit) by (nonlinear_arith)
        requires
            mu == m * unit,
            m == n - 1,
    ;
    // The weight.
    let uc = u * c;
    assert(0x100_0000 * uc <= 0x100_0001 * uw) by (nonlinear_arith)
        requires
            uc == u * c,
            uw == u * w,
            u >= 0,
            0x100_0000 * c <= 0x100_0001 * w,
    ;
    // Two roundings so far: a against the product of the sample and its weight.
    assert(0x100_0000 * (0x100_0000 * a) <= 0x100_0001 * (0x100_0001 * uw));
    // Times the factor, and divided by the unit.
    let ak = a * k;
    let uwk = uw * k;
    assert(0x100_0000 * (0x100_0000 * ak) <= 0x100_0001 * (0x100_0001 * uwk)) by (nonlinear_arith)
        requires
            ak == a * k,
            uwk == uw * k,
            k >= 0,
            0x100_0000 * (0x100_0000 * a) <= 0x100_0001 * (0x100_0001 * uw),
    ;
    assert(0x100_0000 * (0x100_0000 * (0x100_0000 * mu)) <= 0x100_0001 * (0x100_0001 * (0x100_0001
        * uwk)));
    // Times the total as it was rounded.
    let mud = mu * d;
    let uwkd = uwk * d;
    assert(0x100_0000 * (0x100_0000 * (0x100_0000 * mud)) <= 0x100_0001 * (0x100_0001 * (
    0x100_0001 * uwkd))) by (nonlinear_arith)
        requires
            mud == mu * d,
            uwkd == uwk * d,
            d > 0,
            0x100_0000 * (0x100_0000 * (0x100_0000 * mu)) <= 0x100_0001 * (0x100_0001 * (
            0x100_0001 * uwk)),
    ;
    let kd = k * d;
    let uwu = uw * unit;
    assert(0x100_0000 * uwkd <= 0x100_0002 * uwu) by (nonlinear_arith)
        requires
            uwkd == (uw * k) * d,
            kd == k * d,
            uwu == uw * unit,
            uw >= 0,
            0x100_0000 * kd <= 0x100_0002 * unit,
    {
        assert((uw * k) * d == uw * (k * d));
        assert(uw * (0x100_0000 * kd) <= uw * (0x100_0002 * unit));
    }
    // The total itself is at most one part above.
    let mtu = mu * total;
    assert(0xFF_FFFF * mtu <= 0x100_0000 * mud) by (nonlinear_arith)
        requires
            mtu == mu * total,
            mud == mu * d,
            mu >= 0,
            0x100_0000 * total <= 0x100_0000 * d + total,
    {
        assert(mu * (0xFF_FFFF * total) <= mu * (0x100_0000 * d));
    }
    assert(mu >= 0) by (nonlinear_arith)
        requires
            mu == m * unit,
            m >= 0,
            unit > 0,
    ;
    assert(uwu >= 0) by (nonlinear_arith)
        requires
            uwu == uw * unit,
            uw >= 0,
            unit > 0,
    ;
    assert(0x100_0000 * mtu <= 0x100_0008 * uwu);
    // And the unit goes.
    let mt = total * m;
    assert(0x100_0000 * mt <= 0x100_0008 * uw) by (nonlinear_arith)
        requires
            mtu == (m * unit) * total,
            mt == total * m,
            uwu == uw * unit,
            unit > 0,
            0x100_0000 * mtu <= 0x100_0008 * uwu,
    {
        assert((m * unit) * total == (total * m) * unit);
        assert((0x100_0000 * mt) * unit <= (0x100_0008 * uw) * unit);
    }
}

/// A product of four numbers that are each rounded is a few parts and a unit below the exact
/// share at most.
proof fn lemma_share_below(
    unit: int,
    u: int,
    w: int,
    total: int,
    c: int,
    d: int,
    k: int,
    a: int,
    n: int,
)
    requires
        unit > 0,
        u >= 0,
        w >= 0,
        total > 0,
        c >= 0,
        d > 0,
        k >= 0,
        a >= 0,
        n >= 0,
        0x100_0000 * w <= 0x100_0000 * c + w,
        0x100_0000 * d <= 0x100_0000 * total + total,
        0x100_0000 * (u * c) <= 0x100_0000 * a + u * c,
        0xFF_FFFE * unit <= 0x100_0000 * (k * d),
        0xFF_FFFF * (a * k) <= 0x100_0000 * (n * unit) + 0x100_0000 * unit,
    ensures
        0xFF_FFF8 * (u * w) <= 0x100_0000 * (total * (n + 1)),
{
    let uw = u * w;
    let uc = u * c;
    let m = n + 1;
    let mu = m * unit;
    assert(n * unit + unit == mu) by (nonlinear_arith)
        requires
            mu == m * unit,
            m == n + 1,
    ;
    assert(uw >= 0 && mu >= 0) by (nonlinear_arith)
        requires
            uw == u * w,
            u >= 0,
            w >= 0,
            mu == m * unit,
            m >= 0,
            unit > 0,
    ;
    assert(0xFF_FFFF * uw <= 0x100_0000 * uc) by (nonlinear_arith)
        requires
            uc == u * c,
            uw == u * w,
            u >= 0,
            0xFF_FFFF * w <= 0x100_0000 * c,
    ;
    assert(0xFF_FFFF * (0xFF_FFFF * uw) <= 0x100_0000 * (0x100_0000 * a));
    let ak = a * k;
    let uwk = uw * k;
    assert(0xFF_FFFF * (0xFF_FFFF * uwk) <= 0x100_0000 * (0x100_0000 * ak)) by (nonlinear_arith)
        requires
            ak == a * k,
            uwk == uw * k,
            k >= 0,
            0xFF_FFFF * (0xFF_FFFF * uw) <= 0x100_0000 * (0x100_0000 * a),
    ;
    assert(0xFF_FFFF * (0xFF_FFFF * (0xFF_FFFF * uwk)) <= 0x100_0000 * (0x100_0000 * (0x100_0000
        * mu)));
    let mud = mu * d;
    let uwkd = uwk * d;
    assert(0xFF_FFFF * (0xFF_FFFF * (0xFF_FFFF * uwkd)) <= 0x100_0000 * (0x100_0000 * (0x100_0000
        * mud))) by (nonlinear_arith)
        requires
            mud == mu * d,
            uwkd == uwk * d,
            d > 0,
            0xFF_FFFF * (0xFF_FFFF * (0xFF_FFFF * uwk)) <= 0x100_0000 * (0x100_0000 * (0x100_0000
                * mu)),
    ;
    let kd = k * d;
    let uwu = uw * unit;
    assert(0xFF_FFFE * uwu <= 0x100_0000 * uwkd) by (nonlinear_arith)
        requires
            uwkd == (uw * k) * d,
            kd == k * d,
            uwu == uw * unit,
            uw >= 0,
            0xFF_FFFE * unit <= 0x100_0000 * kd,
    {
        assert((uw * k) * d == uw * (k * d));
        assert(uw * (0xFF_FFFE * unit) <= uw * (0x100_0000 * kd));
    }
    let mtu = mu * total;
    assert(0x100_0000 * mud <= 0x100_0001 * mtu) by (nonlinear_arith)
        requires
            mtu == mu * total,
            mud == mu * d,
            mu >= 0,
            0x100_0000 * d <= 0x100_0000 * total + total,
    {
        assert(mu * (0x100_0000 * d) <= mu * (0x100_0001 * total));
    }
    assert(uwu >= 0) by (nonlinear_arith)
        requires
            uwu == uw * unit,
            uw >= 0,
            unit > 0,
    ;
    assert(0xFF_FFF8 * uwu <= 0x100_0000 * mtu);
    let mt = total * m;
    assert(0xFF_FFF8 * uw <= 0x100_0000 * mt) by (nonlinear_arith)
        requires
            mtu == (m * unit) * total,
            mt == total * m,
            uwu == uw * unit,
            unit > 0,
            0xFF_FFF8 * uwu <= 0x100_0000 * mtu,
    {
        assert((m * unit) * total == (total * m) * unit);
        assert((0xFF_FFF8 * uw) * unit <= (0x100_0000 * mt) * unit);
    }
}

/// How loud the channels are together at a sample, each weighted for a mix.
pub open spec fn load(channels: Seq<MixChannel>, k: int, factor: Sample) -> nat
    decreases channels.len(),
{
    if channels.len() == 0 {
        0
    } else {
        let c = channels.last();
        load(channels.drop_last(), k, factor) + if c.finished {
            0
        } else {
            weighted(c.buffer@[k], c.weight, factor).units()
        }
    }
}

/// Every unfinished channel has a sample at `k` that is no louder than `peak`.
pub open spec fn peaks_at(channels: Seq<MixChannel>, k: int, peak: nat) -> bool {
    forall|j: int|
        0 <= j < channels.len() && !(#[trigger] channels[j]).finished ==> {
            let c = channels[j];
            &&& k < c.buffer@.len()
            &&& c.buffer@[k].is_finite()
            &&& c.buffer@[k].units() <= peak
        }
}

/// A prefix weighs no more than the whole, and no channel of it is louder.
pub proof fn lemma_prefix(channels: Seq<MixChannel>, k: int, peak: nat)
    requires
        channels.len() > 0,
        peaks_at(channels, k, peak),
    ensures
        peaks_at(channels.drop_last(), k, peak),
        total_weight(channels.drop_last()) <= total_weight(channels),
{
    let rest = channels.drop_last();
    assert forall|j: int| 0 <= j < rest.len() && !(#[trigger] rest[j]).finished implies {
        let c = rest[j];
        &&& k < c.buffer@.len()
        &&& c.buffer@[k].is_finite()
        &&& c.buffer@[k].units() <= peak
    } by {
        assert(rest[j] == channels[j]);
    }
}

/// The channels together are as loud as the loudest, in the share of their weights, but for
/// rounding.
proof fn lemma_load_is_bounded(channels: Seq<MixChannel>, k: int, total: nat, peak: nat)
    requires
        0 <= k,
        peaks_at(channels, k, peak),
        peak <= pow2(240),
        0 < total <= u32::MAX,
    ensures
        0x100_0000 * (total * (load(channels, k, mix_factor(true, total)) - channels.len()))
            <= 0x100_0008 * (peak * total_weight(channels)),
    decreases channels.len(),
{
    let factor = mix_factor(true, total);
    if channels.len() == 0 {
        lemma_mul_basics(total as int);
        lemma_mul_basics(peak as int);
    } else {
        let rest = channels.drop_last();
        let c = channels.last();
        assert(channels[channels.len() - 1] == c);
        lemma_prefix(channels, k, peak);
        lemma_load_is_bounded(rest, k, total, peak);
        let before = load(rest, k, factor) as int - rest.len();
        let after = load(channels, k, factor) as int - channels.len();
        let weights = total_weight(rest) as int;
        if c.finished {
            assert(total * after <= total * before) by (nonlinear_arith)
                requires
                    after <= before,
                    total > 0,
            ;
        } else {
            let n = weighted(c.buffer@[k], c.weight, factor).units() as int;
            lemma_weighted_is_bounded(c.buffer@[k], c.weight, total, peak);
            let w = c.weight as int;
            assert(after == before + (n - 1));
            assert(total * after == total * before + total * (n - 1)) by (nonlinear_arith)
                requires
                    after == before + (n - 1),
            ;
            assert(peak * (weights + w) == peak * weights + peak * w) by (nonlinear_arith);
        }
    }
}

/// The channels together are no louder than the loudest, but for a few parts and a unit for
/// each.
pub proof fn lemma_load_is_small(channels: Seq<MixChannel>, k: int, total: nat, peak: nat)
    requires
        0 <= k,
        peaks_at(channels, k, peak),
        peak <= pow2(240),
        0 < total <= u32::MAX,
        total_weight(channels) <= total,
    ensures
        0x100_0000 * (load(channels, k, mix_factor(true, total)) - channels.len()) <= 0x100_0008
            * peak,
{
    let l = load(channels, k, mix_factor(true, total)) as int - channels.len();
    let weights = total_weight(channels) as int;
    let p = peak as int;
    let t = total as int;
    lemma_load_is_bounded(channels, k, total, peak);
    assert(0x100_0000 * l <= 0x100_0008 * p) by (nonlinear_arith)
        requires
            0x100_0000 * (t * l) <= 0x100_0008 * (p * weights),
            0 <= weights <= t,
            t > 0,
            p >= 0,
    {
        assert(p * weights <= p * t);
        assert((0x100_0000 * l) * t <= (0x100_0008 * p) * t);
    }
}

/// Adding up changes little: the output is no louder than the channels together, but for two
/// parts for each channel.
proof fn lemma_mixed_is_bounded(
    channels: Seq<MixChannel>,
    size: nat,
    k: int,
    total: nat,
    peak: nat,
)
    requires
        0 <= k < size,
        peaks_at(channels, k, peak),
        peak <= pow2(240),
        0 < total <= u32::MAX,
        total_weight(channels) <= total,
        channels.len() <= 0x40_0000,
    ensures
        ({
            let factor = mix_factor(true, total);
            let out = mixed(channels, size, factor);
            &&& out.len() == size
            &&& out[k].is_finite()
            &&& 0x100_0000 * out[k].units() <= (0x100_0000 + 2 * channels.len()) * load(
                channels,
                k,
                factor,
            )
        }),
    decreases channels.len(),
{
    let factor = mix_factor(true, total);
    let out = mixed(channels, size, factor);
    lemma2_to64();
    if channels.len() == 0 {
        let zero = Sample { bits: SILENCE };
        lemma_mul_basics(pow2(0) as int);
        assert(out[k] == zero);
        assert(zero.units() == 0);
        lemma_mul_basics(0x100_0000);
    } else {
        let rest = channels.drop_last();
        let c = channels.last();
        assert(channels[channels.len() - 1] == c);
        lemma_prefix(channels, k, peak);
        lemma_mixed_is_bounded(rest, size, k, total, peak);
        lemma_load_is_small(channels, k, total, peak);
        lemma_load_is_small(rest, k, total, peak);
        let before = mixed(rest, size, factor);
        let s = before[k].units() as int;
        let a = load(rest, k, factor) as int;
        let n = channels.len() as int;
        assert(out == mix_in(before, c, factor));
        if c.finished {
            assert((0x100_0000 + 2 * (n - 1)) * a <= (0x100_0000 + 2 * n) * a) by (nonlinear_arith)
                requires
                    a >= 0,
            ;
        } else {
            let x = weighted(c.buffer@[k], c.weight, factor);
            let t = x.units() as int;
            lemma_weighted_is_bounded(c.buffer@[k], c.weight, total, peak);
            assert(out[k] == before[k].sum(x));
            // All of it is far from the end of the format.
            lemma_pow2_adds(240, 36);
            lemma_pow2_pos(240);
            assert(0x100_0000 * s <= 0x180_0000 * a) by (nonlinear_arith)
                requires
                    0x100_0000 * s <= (0x100_0000 + 2 * (n - 1)) * a,
                    0 <= n <= 0x40_0000,
                    a >= 0,
            ;
            assert(a + t <= 2 * pow2(240) + 0x40_0000);
            lemma_pow2_strictly_increases(23, 240);
            lemma2_to64_rest();
            assert(s + t <= pow2(276));
            lemma_sum_is_bounded(before[k], x);
            lemma_one_more(s, t, a, n, out[k].units() as int);
        }
    }
}

/// One more rounded addition.
proof fn lemma_one_more(s: int, t: int, a: int, n: int, r: int)
    requires
        s >= 0,
        t >= 0,
        a >= 0,
        1 <= n <= 0x40_0000,
        0x100_0000 * s <= (0x100_0000 + 2 * (n - 1)) * a,
        0x100_0000 * r <= 0x100_0001 * (s + t),
    ensures
        0x100_0000 * r <= (0x100_0000 + 2 * n) * (a + t),
{
    let b = a + t;
    let q = 0x100_0000 + 2 * (n - 1);
    let qa = q * a;
    let qb = q * b;
    assert(qa + 0x100_0000 * t <= qb) by (nonlinear_arith)
        requires
            qa == q * a,
            qb == q * b,
            b == a + t,
            q >= 0x100_0000,
            t >= 0,
    ;
    let nb = n * b;
    assert(qb == 0x100_0000 * b + 2 * nb - 2 * b) by (nonlinear_arith)
        requires
            qb == q * b,
            q == 0x100_0000 + 2 * (n - 1),
            nb == n * b,
    ;
    assert(0 <= nb <= 0x40_0000 * b) by (nonlinear_arith)
        requires
            nb == n * b,
            1 <= n <= 0x40_0000,
            b >= 0,
    ;
    assert((0x100_0000 + 2 * n) * b == 0x100_0000 * b + 2 * nb) by (nonlinear_arith)
        requires
            nb == n * b,
    ;
    assert(0x100_0000 * (0x100_0000 * r) <= 0x100_0001 * qb);
}

/// An average is no louder than the loudest of its inputs, but for rounding: about two
/// parts in two to the power 24 for each channel, and a unit.
pub proof fn law_average_is_no_louder(channels: Seq<MixChannel>, size: nat, k: int, peak: nat)
    requires
        0 <= k < size,
        peaks_at(channels, k, peak),
        peak <= pow2(240),
        0 < total_weight(channels) <= u32::MAX,
        channels.len() <= 0x40_0000,
    ensures
        ({
            let out = mixed(channels, size, mix_factor(true, total_weight(channels)))[k];
            let n = channels.len();
            &&& out.is_finite()
            &&& 0x100_0000 * (0x100_0000 * out.units()) <= (0x100_0000 + 2 * n) * (0x100_0008 * peak
                + 0x100_0000 * n)
        }),
{
    let total = total_weight(channels);
    let factor = mix_factor(true, total);
    let n = channels.len() as int;
    let l = load(channels, k, factor) as int;
    let p = peak as int;
    lemma_mixed_is_bounded(channels, size, k, total, peak);
    lemma_load_is_small(channels, k, total, peak);
    let q = 0x100_0000 + 2 * n;
    assert(0x100_0000 * (q * l) <= q * (0x100_0008 * p + 0x100_0000 * n)) by (nonlinear_arith)
        requires
            q >= 0,
            0x100_0000 * l <= 0x100_0008 * p + 0x100_0000 * n,
    {
        assert(q * (0x100_0000 * l) <= q * (0x100_0008 * p + 0x100_0000 * n));
    }
}

} // verus!
