//! What a mix comes to: the weighted mean of its inputs, or their weighted sum.
//!
//! The channels are taken at one sample. Numbers are whole units of the sample format.

use vstd::prelude::*;
use vstd::arithmetic::mul::{lemma_mul_basics, lemma_mul_inequality};
use vstd::arithmetic::power2::{
    lemma2_to64, lemma2_to64_rest, lemma_pow2_adds, lemma_pow2_pos, lemma_pow2_strictly_increases,
    pow2,
};
use crate::float::{lemma_round_int_error, lemma_round_int_exact, lemma_round_ratio_cancel, round_int};
use crate::sample::{
    law_product_is_nearest, law_sum_is_nearest, law_times_unity, lemma_count_units, Sample, SILENCE,
    UNITY,
};
use super::average::{
    lemma_load_is_small, lemma_prefix, lemma_signed_units, lemma_sum_is_bounded,
    lemma_weighted_is_bounded, load, peaks_at,
};
use super::mixer::{mix_factor, mix_in, mixed, total_weight, weighted, MixChannel};

verus! {

/// The inputs at a sample, each times the weight of its channel, added up without rounding.
pub open spec fn moment(channels: Seq<MixChannel>, k: int) -> int
    decreases channels.len(),
{
    if channels.len() == 0 {
        0
    } else {
        let c = channels.last();
        moment(channels.drop_last(), k) + if c.finished {
            0
        } else {
            c.weight * c.buffer@[k].value()
        }
    }
}

/// The same without signs.
pub open spec fn loudness(channels: Seq<MixChannel>, k: int) -> nat
    decreases channels.len(),
{
    if channels.len() == 0 {
        0
    } else {
        let c = channels.last();
        loudness(channels.drop_last(), k) + if c.finished {
            0
        } else {
            c.weight as nat * c.buffer@[k].units()
        }
    }
}

/// What the channels add to the output at a sample, without rounding.
spec fn parts(channels: Seq<MixChannel>, k: int, factor: Sample) -> int
    decreases channels.len(),
{
    if channels.len() == 0 {
        0
    } else {
        let c = channels.last();
        parts(channels.drop_last(), k, factor) + if c.finished {
            0
        } else {
            weighted(c.buffer@[k], c.weight, factor).value()
        }
    }
}

/// Every unfinished channel adds a finite number at `k`.
spec fn adds_finite(channels: Seq<MixChannel>, k: int, factor: Sample) -> bool {
    forall|j: int|
        0 <= j < channels.len() && !(#[trigger] channels[j]).finished ==> k
            < channels[j].buffer@.len() && weighted(
            channels[j].buffer@[k],
            channels[j].weight,
            factor,
        ).is_finite()
}

/// The weights, the inputs times their weights, and their magnitudes add up channel by
/// channel, and a channel that has finished adds nothing.
pub proof fn law_sums_are_by_channel(channels: Seq<MixChannel>, c: MixChannel, k: int)
    ensures
        total_weight(Seq::<MixChannel>::empty()) == 0,
        moment(Seq::<MixChannel>::empty(), k) == 0,
        loudness(Seq::<MixChannel>::empty(), k) == 0,
        c.finished ==> total_weight(channels.push(c)) == total_weight(channels) && moment(
            channels.push(c),
            k,
        ) == moment(channels, k) && loudness(channels.push(c), k) == loudness(channels, k),
        !c.finished ==> total_weight(channels.push(c)) == total_weight(channels) + c.weight
            && moment(channels.push(c), k) == moment(channels, k) + c.weight * c.buffer@[k].value()
            && loudness(channels.push(c), k) == loudness(channels, k) + c.weight as nat
            * c.buffer@[k].units(),
{
    assert(channels.push(c).drop_last() =~= channels);
}

/// A mix is made channel by channel: it starts from silence, and each channel that has not
/// finished and has a sample adds the sample times its weight, and over the total weight for
/// an average.
pub proof fn law_mixed_by_channel(
    channels: Seq<MixChannel>,
    c: MixChannel,
    size: nat,
    factor: Sample,
    k: int,
)
    requires
        0 <= k < size,
    ensures
        mixed(channels, size, factor).len() == size,
        mixed(Seq::<MixChannel>::empty(), size, factor)[k] == (Sample { bits: SILENCE }),
        c.finished || k >= c.buffer@.len() ==> mixed(channels.push(c), size, factor)[k] == mixed(
            channels,
            size,
            factor,
        )[k],
        !c.finished && k < c.buffer@.len() ==> mixed(channels.push(c), size, factor)[k] == mixed(
            channels,
            size,
            factor,
        )[k].sum(c.buffer@[k].product(Sample::of_count(c.weight as nat)).product(factor)),
        forall|total: nat| #[trigger] mix_factor(false, total) == (Sample { bits: UNITY }),
        forall|total: nat|
            total > 0 ==> #[trigger] mix_factor(true, total) == Sample::of_ratio(1, total),
    decreases channels.len(),
{
    if channels.len() > 0 {
        law_mixed_by_channel(channels.drop_last(), channels.last(), size, factor, k);
        assert(channels.drop_last().push(channels.last()) =~= channels);
    }
    assert(channels.push(c).drop_last() =~= channels);
}

/// Adding up changes little: two parts of all that is added for each channel at most.
proof fn lemma_added_up(channels: Seq<MixChannel>, size: nat, k: int, factor: Sample)
    requires
        0 <= k < size,
        adds_finite(channels, k, factor),
        2 * load(channels, k, factor) <= pow2(276),
        channels.len() <= 0x40_0000,
    ensures
        mixed(channels, size, factor).len() == size,
        mixed(channels, size, factor)[k].is_finite(),
        ({
            let out = mixed(channels, size, factor)[k];
            let n = channels.len();
            let all = load(channels, k, factor);
            &&& 0x100_0000 * out.units() <= (0x100_0000 + 2 * n) * all
            &&& 0x100_0000 * (out.value() - parts(channels, k, factor)) <= 2 * (n * all)
            &&& 0x100_0000 * (parts(channels, k, factor) - out.value()) <= 2 * (n * all)
        }),
    decreases channels.len(),
{
    let out = mixed(channels, size, factor);
    lemma2_to64();
    if channels.len() == 0 {
        let zero = Sample { bits: SILENCE };
        lemma_mul_basics(pow2(0) as int);
        assert(out[k] == zero);
        assert(zero.units() == 0);
        lemma_mul_basics(0x100_0000);
        lemma_mul_basics(0);
    } else {
        let rest = channels.drop_last();
        let c = channels.last();
        assert(channels[channels.len() - 1] == c);
        assert forall|j: int| 0 <= j < rest.len() && !(#[trigger] rest[j]).finished implies k
            < rest[j].buffer@.len() && weighted(
            rest[j].buffer@[k],
            rest[j].weight,
            factor,
        ).is_finite() by {
            assert(rest[j] == channels[j]);
        }
        lemma_added_up(rest, size, k, factor);
        let before = mixed(rest, size, factor);
        let s = before[k].units() as int;
        let a = load(rest, k, factor) as int;
        let n = channels.len() as int;
        let m = n - 1;
        assert(out == mix_in(before, c, factor));
        assert(2 * (m * a) <= 2 * (n * a)) by (nonlinear_arith)
            requires
                a >= 0,
                m == n - 1,
        ;
        assert((0x100_0000 + 2 * m) * a <= (0x100_0000 + 2 * n) * a) by (nonlinear_arith)
            requires
                a >= 0,
                m == n - 1,
        ;
        if !c.finished {
            let x = weighted(c.buffer@[k], c.weight, factor);
            let t = x.units() as int;
            assert(out[k] == before[k].sum(x));
            assert(0x100_0000 * s <= 0x180_0000 * a) by (nonlinear_arith)
                requires
                    0x100_0000 * s <= (0x100_0000 + 2 * m) * a,
                    0 <= m <= 0x40_0000,
                    a >= 0,
            ;
            assert(s + t <= 2 * (a + t));
            lemma_sum_is_bounded(before[k], x);
            let b = a + t;
            assert(m * a <= m * b) by (nonlinear_arith)
                requires
                    b == a + t,
                    t >= 0,
                    m >= 0,
            ;
            assert(n * b == m * b + b) by (nonlinear_arith)
                requires
                    m == n - 1,
            ;
            assert((0x100_0000 + 2 * n) * b == 0x100_0000 * b + 2 * (n * b)) by (nonlinear_arith);
            assert((0x100_0000 + 2 * m) * a == 0x100_0000 * a + 2 * (m * a)) by (nonlinear_arith);
            assert(0 <= m * a <= 0x40_0000 * a) by (nonlinear_arith)
                requires
                    0 <= m <= 0x40_0000,
                    a >= 0,
            ;
            let r = out[k].units() as int;
            assert(0x100_0000 * (0x100_0000 * r) <= 0x100_0001 * (0x100_0000 * s + 0x100_0000 * t));
            assert(0x100_0000 * s <= 0x100_0000 * a + 2 * (m * a));
            assert(0x100_0000 * r <= 0x100_0000 * b + 2 * (n * b));
        }
    }
}

/// What the channels add to an average is near the share of each, and as loud together as
/// the inputs are.
proof fn lemma_average_parts(channels: Seq<MixChannel>, k: int, total: nat, peak: nat)
    requires
        0 <= k,
        peaks_at(channels, k, peak),
        peak <= pow2(240),
        0 < total <= u32::MAX,
    ensures
        ({
            let factor = mix_factor(true, total);
            let n = channels.len();
            let l = loudness(channels, k);
            let p = total * parts(channels, k, factor);
            &&& adds_finite(channels, k, factor)
            &&& 0x100_0000 * (p - moment(channels, k)) <= 8 * l + 0x100_0000 * (n * total)
            &&& 0x100_0000 * (moment(channels, k) - p) <= 8 * l + 0x100_0000 * (n * total)
            &&& 0x100_0000 * (total * load(channels, k, factor)) <= 0x100_0008 * l + 0x100_0000 * (n
                * total)
        }),
    decreases channels.len(),
{
    let factor = mix_factor(true, total);
    if channels.len() == 0 {
        lemma_mul_basics(total as int);
    } else {
        let rest = channels.drop_last();
        let c = channels.last();
        assert(channels[channels.len() - 1] == c);
        lemma_prefix(channels, k, peak);
        lemma_average_parts(rest, k, total, peak);
        let n = channels.len() as int;
        let w = total as int;
        assert(n * w == (n - 1) * w + w) by (nonlinear_arith);
        if c.finished {
            assert(adds_finite(channels, k, factor)) by {
                assert forall|j: int|
                    0 <= j < channels.len() && !(#[trigger] channels[j]).finished implies k
                    < channels[j].buffer@.len() && weighted(
                    channels[j].buffer@[k],
                    channels[j].weight,
                    factor,
                ).is_finite() by {
                    assert(channels[j] == rest[j]);
                }
            }
        } else {
            let s = c.buffer@[k];
            let x = weighted(s, c.weight, factor);
            let t = x.units() as int;
            let u = s.units() as int;
            let cw = c.weight as int;
            lemma_weighted_is_bounded(s, c.weight, total, peak);
            assert(adds_finite(channels, k, factor)) by {
                assert forall|j: int|
                    0 <= j < channels.len() && !(#[trigger] channels[j]).finished implies k
                    < channels[j].buffer@.len() && weighted(
                    channels[j].buffer@[k],
                    channels[j].weight,
                    factor,
                ).is_finite() by {
                    if j < rest.len() {
                        assert(channels[j] == rest[j]);
                    }
                }
            }
            let wt = w * t;
            let uw = u * cw;
            assert(w * (t - 1) == wt - w && w * (t + 1) == wt + w) by (nonlinear_arith)
                requires
                    wt == w * t,
            ;
            assert(cw * u == uw) by (nonlinear_arith)
                requires
                    uw == u * cw,
            ;
            // The share of this channel.
            assert(0x100_0000 * (wt - uw) <= 8 * uw + 0x100_0000 * w);
            assert(0x100_0000 * (uw - wt) <= 8 * uw + 0x100_0000 * w);
            let tv = x.value();
            let sv = s.value();
            assert(w * tv == (if s.negative() {
                -wt
            } else {
                wt
            })) by (nonlinear_arith)
                requires
                    wt == w * t,
                    tv == (if s.negative() {
                        -t
                    } else {
                        t
                    }),
            ;
            assert(cw * sv == (if s.negative() {
                -uw
            } else {
                uw
            })) by (nonlinear_arith)
                requires
                    uw == u * cw,
                    sv == (if s.negative() {
                        -u
                    } else {
                        u
                    }),
            ;
            let p = parts(rest, k, factor);
            assert(w * (p + tv) == w * p + w * tv) by (nonlinear_arith);
            let l = load(rest, k, factor) as int;
            assert(w * (l + t) == w * l + wt) by (nonlinear_arith)
                requires
                    wt == w * t,
            ;
        }
    }
}

/// An average is the weighted mean of its inputs, from below as well as from above: the total
/// weight times the output differs from the inputs times their weights by no more than
/// rounding, which is a few parts in two to the power 24 and a unit for each channel.
pub proof fn law_average_is_weighted_mean(
    channels: Seq<MixChannel>,
    size: nat,
    k: int,
    peak: nat,
)
    requires
        0 <= k < size,
        peaks_at(channels, k, peak),
        peak <= pow2(240),
        0 < total_weight(channels) <= u32::MAX,
        channels.len() <= 0x40_0000,
    ensures
        ({
            let total = total_weight(channels);
            let out = mixed(channels, size, mix_factor(true, total))[k];
            let n = channels.len();
            let rounding = (4 * n + 8) * loudness(channels, k) + n * (0x100_0000 + 2 * n) * total;
            &&& out.is_finite()
            &&& 0x100_0000 * (total * out.value() - moment(channels, k)) <= rounding
            &&& 0x100_0000 * (moment(channels, k) - total * out.value()) <= rounding
        }),
{
    let total = total_weight(channels);
    let factor = mix_factor(true, total);
    let n = channels.len() as int;
    let w = total as int;
    let a = load(channels, k, factor) as int;
    let l = loudness(channels, k) as int;
    let p = parts(channels, k, factor);
    let m = moment(channels, k);
    lemma_average_parts(channels, k, total, peak);
    lemma_load_is_small(channels, k, total, peak);
    assert(2 * a <= pow2(276)) by {
        lemma2_to64();
        lemma2_to64_rest();
        lemma_pow2_pos(240);
        lemma_pow2_adds(240, 36);
        lemma_pow2_strictly_increases(23, 240);
    }
    lemma_added_up(channels, size, k, factor);
    let x = mixed(channels, size, factor)[k].value();
    let na = n * a;
    let nw = n * w;
    let wa = w * a;
    // The error of the sum, times the total weight.
    assert(0x100_0000 * (w * x - w * p) <= 2 * (n * wa) && 0x100_0000 * (w * p - w * x) <= 2 * (n
        * wa)) by (nonlinear_arith)
        requires
            0x100_0000 * (x - p) <= 2 * na,
            0x100_0000 * (p - x) <= 2 * na,
            na == n * a,
            wa == w * a,
            w > 0,
    {
        assert(w * (0x100_0000 * (x - p)) <= w * (2 * na));
        assert(w * (0x100_0000 * (p - x)) <= w * (2 * na));
        assert(w * (2 * na) == 2 * (n * wa));
        assert(w * (0x100_0000 * (x - p)) == 0x100_0000 * (w * x - w * p));
        assert(w * (0x100_0000 * (p - x)) == 0x100_0000 * (w * p - w * x));
    }
    // The load is no more than twice the inputs.
    assert(wa <= 2 * l + nw);
    assert(n * wa <= 2 * (n * l) + n * nw) by (nonlinear_arith)
        requires
            wa <= 2 * l + nw,
            n >= 0,
    {
        assert(n * wa <= n * (2 * l + nw));
    }
    assert((4 * n + 8) * l == 4 * (n * l) + 8 * l) by (nonlinear_arith);
    assert(n * (0x100_0000 + 2 * n) * w == 0x100_0000 * nw + 2 * (n * nw)) by (nonlinear_arith)
        requires
            nw == n * w,
    ;
}

/// All unfinished channels have the same sample.
proof fn lemma_same_sample(channels: Seq<MixChannel>, k: int, s: Sample)
    requires
        forall|j: int|
            0 <= j < channels.len() && !(#[trigger] channels[j]).finished ==> channels[j].buffer@[k]
                == s,
    ensures
        moment(channels, k) == total_weight(channels) * s.value(),
        loudness(channels, k) == total_weight(channels) * s.units(),
    decreases channels.len(),
{
    if channels.len() == 0 {
        lemma_mul_basics(s.value());
        lemma_mul_basics(s.units() as int);
    } else {
        let rest = channels.drop_last();
        let c = channels.last();
        assert(channels[channels.len() - 1] == c);
        assert forall|j: int|
            0 <= j < rest.len() && !(#[trigger] rest[j]).finished implies rest[j].buffer@[k]
            == s by {
            assert(rest[j] == channels[j]);
        }
        lemma_same_sample(rest, k, s);
        let t = total_weight(rest) as int;
        let w = c.weight as int;
        let v = s.value();
        let u = s.units() as int;
        assert((t + w) * v == t * v + w * v) by (nonlinear_arith);
        assert((t + w) * u == t * u + w * u) by (nonlinear_arith);
    }
}

/// An average of channels that all have the same sample is that sample, whatever their
/// weights are, but for rounding: a few parts in two to the power 24 and a unit for each
/// channel.
pub proof fn law_average_of_the_same(
    channels: Seq<MixChannel>,
    size: nat,
    k: int,
    s: Sample,
    one: int,
)
    requires
        0 <= k < size,
        s.is_finite(),
        s.units() <= pow2(240),
        forall|j: int|
            0 <= j < channels.len() && !(#[trigger] channels[j]).finished ==> k
                < channels[j].buffer@.len() && channels[j].buffer@[k] == s,
        0 <= one < channels.len(),
        !channels[one].finished,
        channels[one].weight > 0,
        total_weight(channels) <= u32::MAX,
        channels.len() <= 0x40_0000,
    ensures
        ({
            let out = mixed(channels, size, mix_factor(true, total_weight(channels)))[k];
            let n = channels.len();
            let rounding = (4 * n + 8) * s.units() + n * (0x100_0000 + 2 * n);
            &&& out.is_finite()
            &&& 0x100_0000 * (out.value() - s.value()) <= rounding
            &&& 0x100_0000 * (s.value() - out.value()) <= rounding
        }),
{
    let total = total_weight(channels);
    lemma_weight_is_in_total(channels, one);
    assert(peaks_at(channels, k, s.units())) by {
        assert forall|j: int| 0 <= j < channels.len() && !(#[trigger] channels[j]).finished implies {
            let c = channels[j];
            &&& k < c.buffer@.len()
            &&& c.buffer@[k].is_finite()
            &&& c.buffer@[k].units() <= s.units()
        } by {}
    }
    law_average_is_weighted_mean(channels, size, k, s.units());
    lemma_same_sample(channels, k, s);
    let n = channels.len() as int;
    let w = total as int;
    let x = mixed(channels, size, mix_factor(true, total))[k].value();
    let v = s.value();
    let u = s.units() as int;
    let q = n * (0x100_0000 + 2 * n);
    assert(0x100_0000 * (x - v) <= (4 * n + 8) * u + q && 0x100_0000 * (v - x) <= (4 * n + 8) * u
        + q) by (nonlinear_arith)
        requires
            w > 0,
            0x100_0000 * (w * x - w * v) <= (4 * n + 8) * (w * u) + q * w,
            0x100_0000 * (w * v - w * x) <= (4 * n + 8) * (w * u) + q * w,
    {
        assert((4 * n + 8) * (w * u) + q * w == ((4 * n + 8) * u + q) * w);
        assert(0x100_0000 * (w * x - w * v) == (0x100_0000 * (x - v)) * w);
        assert(0x100_0000 * (w * v - w * x) == (0x100_0000 * (v - x)) * w);
    }
}

/// The weight of a channel that has not finished counts.
proof fn lemma_weight_is_in_total(channels: Seq<MixChannel>, j: int)
    requires
        0 <= j < channels.len(),
        !channels[j].finished,
    ensures
        total_weight(channels) >= channels[j].weight,
    decreases channels.len(),
{
    if j < channels.len() - 1 {
        assert(channels.drop_last()[j] == channels[j]);
        lemma_weight_is_in_total(channels.drop_last(), j);
    }
}

/// A sample times a weight, without an average.
proof fn lemma_weighted_plain(s: Sample, weight: u32)
    requires
        s.is_finite(),
        weight as nat * s.units() <= pow2(270),
    ensures
        ({
            let t = weighted(s, weight, Sample { bits: UNITY });
            let uw = weight as nat * s.units();
            &&& t.is_finite()
            &&& t.negative() == s.negative()
            &&& 0x100_0000 * (t.units() - uw) <= 3 * uw
            &&& 0x100_0000 * (uw - t.units()) <= 3 * uw
        }),
{
    let unit = pow2(149);
    let w = weight as nat;
    let c = round_int(w, 24);
    let u = s.units();
    let count = Sample::of_count(w);
    let uc = u * c;
    let uw = w * u;
    lemma2_to64();
    lemma2_to64_rest();
    lemma_pow2_pos(149);
    lemma_count_units(w);
    lemma_round_int_error(w, 24);
    assert(0x100_0000 * uc <= 0x100_0001 * uw && 0xFF_FFFF * uw <= 0x100_0000 * uc)
        by (nonlinear_arith)
        requires
            uc == u * c,
            uw == w * u,
            u >= 0,
            0x100_0000 * c <= 0x100_0001 * w,
            0xFF_FFFF * w <= 0x100_0000 * c,
    ;
    assert(u * (c * unit) == uc * unit) by (nonlinear_arith)
        requires
            uc == u * c,
    ;
    lemma_mul_basics(unit as int);
    lemma_round_ratio_cancel(uc, 1, unit, 24);
    lemma_pow2_adds(1, 270);
    lemma_pow2_strictly_increases(271, 276);
    lemma_mul_inequality(uc as int, pow2(276) as int, unit as int);
    lemma_signed_units(uc * unit, unit, s.negative() != count.negative());
    let first = s.product(count);
    assert(first.is_finite() && first.units() == round_int(uc, 24));
    lemma_round_int_error(uc, 24);
    law_times_unity(first);
}

/// What the channels add to a sum is near the inputs times their weights.
proof fn lemma_sum_parts(channels: Seq<MixChannel>, k: int)
    requires
        0 <= k,
        forall|j: int|
            0 <= j < channels.len() && !(#[trigger] channels[j]).finished ==> k
                < channels[j].buffer@.len() && channels[j].buffer@[k].is_finite(),
        loudness(channels, k) <= pow2(270),
    ensures
        ({
            let factor = Sample { bits: UNITY };
            let l = loudness(channels, k);
            &&& adds_finite(channels, k, factor)
            &&& 0x100_0000 * (parts(channels, k, factor) - moment(channels, k)) <= 3 * l
            &&& 0x100_0000 * (moment(channels, k) - parts(channels, k, factor)) <= 3 * l
            &&& 0x100_0000 * load(channels, k, factor) <= 0x100_0003 * l
        }),
    decreases channels.len(),
{
    let factor = Sample { bits: UNITY };
    if channels.len() > 0 {
        let rest = channels.drop_last();
        let c = channels.last();
        assert(channels[channels.len() - 1] == c);
        assert forall|j: int| 0 <= j < rest.len() && !(#[trigger] rest[j]).finished implies k
            < rest[j].buffer@.len() && rest[j].buffer@[k].is_finite() by {
            assert(rest[j] == channels[j]);
        }
        let s = c.buffer@[k];
        let u = s.units() as int;
        let w = c.weight as int;
        assert(w * u >= 0) by (nonlinear_arith)
            requires
                w >= 0,
                u >= 0,
        ;
        lemma_sum_parts(rest, k);
        if !c.finished {
            lemma_weighted_plain(s, c.weight);
            let v = s.value();
            assert(w * v == (if s.negative() {
                -(w * u)
            } else {
                w * u
            })) by (nonlinear_arith)
                requires
                    v == (if s.negative() {
                        -u
                    } else {
                        u
                    }),
            ;
        }
        assert forall|j: int| 0 <= j < channels.len() && !(#[trigger] channels[j]).finished implies k
            < channels[j].buffer@.len() && weighted(
            channels[j].buffer@[k],
            channels[j].weight,
            factor,
        ).is_finite() by {
            if j < rest.len() {
                assert(channels[j] == rest[j]);
            }
        }
    }
}

/// A mix that does not average is the sum of its inputs, each times its weight, but for
/// rounding: a few parts in two to the power 24 for each channel.
pub proof fn law_mix_is_weighted_sum(channels: Seq<MixChannel>, size: nat, k: int, total: nat)
    requires
        0 <= k < size,
        forall|j: int|
            0 <= j < channels.len() && !(#[trigger] channels[j]).finished ==> k
                < channels[j].buffer@.len() && channels[j].buffer@[k].is_finite(),
        loudness(channels, k) <= pow2(270),
        channels.len() <= 0x40_0000,
    ensures
        ({
            let out = mixed(channels, size, mix_factor(false, total))[k];
            let rounding = (4 * channels.len() + 4) * loudness(channels, k);
            &&& out.is_finite()
            &&& 0x100_0000 * (out.value() - moment(channels, k)) <= rounding
            &&& 0x100_0000 * (moment(channels, k) - out.value()) <= rounding
        }),
{
    let factor = Sample { bits: UNITY };
    let n = channels.len() as int;
    let l = loudness(channels, k) as int;
    let a = load(channels, k, factor) as int;
    lemma_sum_parts(channels, k);
    lemma2_to64();
    lemma_pow2_adds(2, 270);
    lemma_pow2_strictly_increases(272, 276);
    lemma_added_up(channels, size, k, factor);
    assert(n * a <= 2 * (n * l)) by (nonlinear_arith)
        requires
            0 <= a <= 2 * l,
            n >= 0,
    {
        assert(n * a <= n * (2 * l));
    }
    assert((4 * n + 4) * l == 4 * (n * l) + 4 * l) by (nonlinear_arith);
}

/// An average of channels that have no weight is silence.
pub proof fn law_no_weight_is_silent(channels: Seq<MixChannel>, size: nat, k: int)
    requires
        0 <= k < size,
        forall|j: int|
            0 <= j < channels.len() && !(#[trigger] channels[j]).finished ==> channels[j].weight == 0
                && (k < channels[j].buffer@.len() ==> channels[j].buffer@[k].is_finite()),
    ensures
        total_weight(channels) == 0,
        mixed(channels, size, mix_factor(true, total_weight(channels))).len() == size,
        mixed(channels, size, mix_factor(true, total_weight(channels)))[k].value() == 0,
        mixed(channels, size, mix_factor(true, total_weight(channels)))[k].is_finite(),
    decreases channels.len(),
{
    let zero = Sample { bits: SILENCE };
    lemma2_to64();
    lemma_mul_basics(pow2(0) as int);
    assert(zero.units() == 0);
    if channels.len() > 0 {
        let rest = channels.drop_last();
        let c = channels.last();
        assert(channels[channels.len() - 1] == c);
        assert forall|j: int| 0 <= j < rest.len() && !(#[trigger] rest[j]).finished implies rest[j].weight
            == 0 && (k < rest[j].buffer@.len() ==> rest[j].buffer@[k].is_finite()) by {
            assert(rest[j] == channels[j]);
        }
        law_no_weight_is_silent(rest, size, k);
        if !c.finished && k < c.buffer@.len() {
            let s = c.buffer@[k];
            let before = mixed(rest, size, zero)[k];
            let x = weighted(s, 0, zero);
            lemma_pow2_pos(64);
            lemma_pow2_pos(149);
            lemma_count_units(0);
            lemma_round_int_exact(0, 24);
            lemma_mul_basics(pow2(149) as int);
            lemma_mul_basics(s.units() as int);
            law_product_is_nearest(s, Sample::of_count(0), zero);
            let first = s.product(Sample::of_count(0));
            lemma_mul_basics(s.value());
            assert(first.value() * pow2(149) == 0 ==> first.value() == 0) by (nonlinear_arith)
                requires
                    pow2(149) > 0,
            ;
            lemma_pow2_pos(253);
            assert(0xFF_FFFF * pow2(253) * pow2(149) >= 0) by (nonlinear_arith)
                requires
                    pow2(149) > 0,
                    pow2(253) > 0,
            ;
            assert(first.is_finite() && first.value() == 0);
            law_product_is_nearest(first, zero, zero);
            assert(x.value() * pow2(149) == 0 ==> x.value() == 0) by (nonlinear_arith)
                requires
                    pow2(149) > 0,
            ;
            assert(x.is_finite() && x.value() == 0);
            law_sum_is_nearest(before, x, zero);
        }
    }
}

} // verus!
