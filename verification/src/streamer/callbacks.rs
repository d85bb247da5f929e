//! Callbacks that run once, a given time into the playback.
//!
//! A callback can be asked for before the output device is known. It then waits
//! under its delay; once playback starts, delays become sample positions.

use std::collections::HashMap;
use vstd::prelude::*;
use vstd::arithmetic::power2::{
    lemma2_to64, lemma2_to64_rest, lemma_pow2_adds, lemma_pow2_pos, lemma_pow2_strictly_increases,
    lemma_pow2_unfold, pow2,
};
use vstd::arithmetic::mul::{
    lemma_mul_basics, lemma_mul_is_associative, lemma_mul_inequality, lemma_mul_upper_bound,
};
use crate::float::{
    bit_length, lemma_bit_length_at_most, lemma_bit_length_bounds, lemma_bit_length_unique,
    lemma_round_int_bound, lemma_round_int_error, lemma_round_int_exact, lemma_round_int_scaled,
    lemma_round_int_shift, lemma_round_int_sticky, lemma_round_ratio_error,
    lemma_round_ratio_fixed, lemma_round_ratio_monotone, nearest, power_of_two, round_int,
    round_integer, round_quotient, round_ratio, scaled_times, scaled_whole_part, whole_part,
    Scaled,
};
use super::utils::execute_callback;
use super::{DeviceOutputInfo, Duration, StreamerAddError};

verus! {

/// Told to the callbacks' side when playback has reached a sample.
#[derive(Debug, Clone, Copy, PartialEq, Eq, Structural)]
pub enum Callback {
    CbOnSample(u64),
}

/// The duration in seconds as a double-precision number, in units of two to the
/// power -82: whole seconds and nanoseconds become doubles, then their sum does.
pub open spec fn seconds_of(d: Duration) -> nat {
    let whole = round_int(d.secs as nat, 53) * pow2(82);
    let fraction = round_ratio(d.nanos as nat * pow2(82), 1_000_000_000, 53);
    round_int(whole + fraction, 53)
}

/// How many samples an output plays in a duration, over all its channels. Each
/// product is a double-precision one; the last is cut to its integer part.
pub open spec fn samples_of(d: Duration, info: DeviceOutputInfo) -> u64 {
    let per_channel = round_int(seconds_of(d) * info.sample_rate as nat, 53);
    whole_part(round_int(per_channel * info.channels as nat, 53), 82)
}

/// The whole seconds and the fraction, added and rounded.
fn add_fraction(whole: Scaled, fraction: Scaled) -> (result: Scaled)
    requires
        whole.mant <= pow2(53),
        whole@ <= pow2(64),
        whole.exp <= 64,
        fraction.mant <= pow2(53),
        fraction@ <= pow2(85),
        fraction.exp <= 85,
    ensures
        result@ == round_int(whole@ * pow2(82) + fraction@, 53),
        result.mant <= pow2(53),
        result.exp <= 256,
{
    proof {
        lemma2_to64();
        lemma2_to64_rest();
        lemma_pow2_unfold(64);
        lemma_pow2_pos(82);
    }
    if whole.mant == 0 {
        proof {
            lemma_mul_basics(pow2(whole.exp as nat) as int);
            lemma_mul_basics(pow2(82) as int);
            lemma_round_int_scaled(fraction.mant as nat, fraction.exp as nat, 53);
        }
        return fraction;
    }
    proof {
        lemma_pow2_adds(64, 18);
        lemma_pow2_adds(64, 21);
        lemma_pow2_adds(61, 21);
        lemma_pow2_pos(whole.exp as nat);
        lemma_mul_inequality(1, whole.mant as int, pow2(whole.exp as nat) as int);
    }
    assert(whole@ >= 1);
    let seconds: u128 = whole.mant as u128 * power_of_two(whole.exp);
    let parts: u128 = fraction.mant as u128 * power_of_two(fraction.exp);
    let high: u128 = seconds * 0x2000_0000_0000_0000 + parts / 0x20_0000;
    let low: u128 = parts % 0x20_0000;
    let ghost exact = whole@ * pow2(82) + fraction@;
    proof {
        assert(exact == high as nat * 0x20_0000 + low as nat);
        if bit_length(high as nat) <= 53 {
            lemma_bit_length_bounds(high as nat);
            if bit_length(high as nat) < 53 {
                lemma_pow2_strictly_increases(bit_length(high as nat), 53);
            }
        }
    }
    if low == 0 {
        let rounded: Scaled = round_integer(high, 53);
        proof {
            lemma_round_int_shift(high as nat, 53, 21);
            lemma_pow2_adds(rounded.exp as nat, 21);
            lemma_mul_is_associative(rounded.mant as int, pow2(rounded.exp as nat) as int, pow2(21) as int);
        }
        Scaled { mant: rounded.mant, exp: rounded.exp + 21 }
    } else {
        let rounded: Scaled = round_integer(2 * high + 1, 53);
        proof {
            lemma_round_int_sticky(high as nat, low as nat, 21, 53);
            lemma_pow2_adds(rounded.exp as nat, 20);
            lemma_mul_is_associative(rounded.mant as int, pow2(rounded.exp as nat) as int, pow2(20) as int);
        }
        Scaled { mant: rounded.mant, exp: rounded.exp + 20 }
    }
}

/// How many samples an output plays in a duration.
pub fn duration_to_samples(d: Duration, info: DeviceOutputInfo) -> (samples: u64)
    ensures
        samples == samples_of(d, info),
{
    proof {
        lemma2_to64();
        lemma2_to64_rest();
        lemma_pow2_unfold(64);
        lemma_pow2_adds(64, 18);
        lemma_bit_length_at_most(d.secs as nat, 64);
    }
    let whole: Scaled = round_integer(d.secs as u128, 53);
    let fraction: Scaled = round_quotient(
        d.nanos as u128 * 0x4_0000_0000_0000_0000_0000,
        1_000_000_000,
        53,
    );
    proof {
        lemma_round_int_bound(d.secs as nat, 53);
        lemma_bit_length_at_most(d.secs as nat, 64);
        if bit_length(d.secs as nat) < 64 {
            lemma_pow2_strictly_increases(bit_length(d.secs as nat), 64);
        }
        let q = (d.nanos as nat * pow2(82)) / 1_000_000_000;
        lemma_pow2_adds(64, 21);
        lemma_bit_length_at_most(q, 85);
        lemma_pow2_adds(53, 32);
        if fraction.exp < 32 {
            lemma_pow2_strictly_increases(fraction.exp as nat, 32);
        }
        lemma_mul_upper_bound(
            fraction.mant as int,
            pow2(53) as int,
            pow2(fraction.exp as nat) as int,
            pow2(32) as int,
        );
    }
    let total: Scaled = add_fraction(whole, fraction);
    let per_channel: Scaled = scaled_times(total, info.sample_rate as u64, 53);
    let all: Scaled = scaled_times(per_channel, info.channels as u64, 53);
    scaled_whole_part(all, 82)
}

/// The place of the callback that waits for delay `d`.
pub open spec fn position_of<F>(pending: Seq<(Duration, F)>, d: Duration) -> int {
    choose|i: int| 0 <= i < pending.len() && #[trigger] pending[i].0 == d
}

/// A callback waits for delay `d`.
pub open spec fn waits<F>(pending: Seq<(Duration, F)>, d: Duration) -> bool {
    exists|i: int| 0 <= i < pending.len() && #[trigger] pending[i].0 == d
}

/// The waiting callbacks once one more is asked for: a delay that is taken already
/// gets the new callback in its place, a new delay goes to the end.
pub open spec fn with_pending<F>(
    pending: Seq<(Duration, F)>,
    d: Duration,
    callback: F,
) -> Seq<(Duration, F)> {
    if waits(pending, d) {
        pending.update(position_of(pending, d), (d, callback))
    } else {
        pending.push((d, callback))
    }
}

/// Each delay waits once.
pub open spec fn distinct_delays<F>(pending: Seq<(Duration, F)>) -> bool {
    forall|i: int, j: int|
        0 <= i < j < pending.len() ==> (#[trigger] pending[i]).0 != (#[trigger] pending[j]).0
}

/// The scheduled callbacks once the waiting ones have joined them one by one, each
/// at the sample its delay comes to.
pub open spec fn scheduled<F>(
    callbacks: Map<u64, F>,
    pending: Seq<(Duration, F)>,
    info: DeviceOutputInfo,
) -> Map<u64, F>
    decreases pending.len(),
{
    if pending.len() == 0 {
        callbacks
    } else {
        scheduled(callbacks, pending.drop_last(), info).insert(
            samples_of(pending.last().0, info),
            pending.last().1,
        )
    }
}

/// The callbacks of a playback: those that wait for the output device, and those
/// that are scheduled at a sample.
pub struct StreamerCallbackShared<F> {
    registered: bool,
    pending: Vec<(Duration, F)>,
    callbacks: HashMap<u64, F>,
    device_output_info: Option<DeviceOutputInfo>,
}

impl<F> StreamerCallbackShared<F> {
    /// Playback takes registrations of sample positions.
    pub closed spec fn registered(self) -> bool {
        self.registered
    }

    /// The callbacks that wait under their delay, in the order in which the delays
    /// were first asked for.
    pub closed spec fn pending(self) -> Seq<(Duration, F)> {
        self.pending@
    }

    /// The callbacks that are scheduled at a sample.
    pub closed spec fn callbacks(self) -> Map<u64, F> {
        self.callbacks@
    }

    /// The output that delays are measured against.
    pub closed spec fn output_info(self) -> Option<DeviceOutputInfo> {
        self.device_output_info
    }

    /// Once registrations are taken the output is known and nothing waits any more. No delay
    /// waits twice.
    pub open spec fn wf(self) -> bool {
        &&& self.registered() ==> self.output_info() is Some
        &&& self.registered() ==> self.pending().len() == 0
        &&& distinct_delays(self.pending())
    }

    /// The sample that a delay comes to; zero as long as the output is unknown.
    pub open spec fn samples_after(self, d: Duration) -> u64 {
        match self.output_info() {
            Some(info) => samples_of(d, info),
            None => 0,
        }
    }

    /// `self` is `before` with one more callback asked for: among the waiting ones
    /// before playback starts, at its sample afterwards.
    pub open spec fn has_added(self, before: Self, after: Duration, callback: F) -> bool {
        &&& self.registered() == before.registered()
        &&& self.output_info() == before.output_info()
        &&& self.pending() == (if before.registered() {
            before.pending()
        } else {
            with_pending(before.pending(), after, callback)
        })
        &&& self.callbacks() == (if before.registered() {
            before.callbacks().insert(before.samples_after(after), callback)
        } else {
            before.callbacks()
        })
    }

    /// No callbacks, and no output yet.
    pub fn new() -> (shared: Self)
        ensures
            shared.wf(),
            !shared.registered(),
            shared.pending() == Seq::<(Duration, F)>::empty(),
            shared.callbacks() == Map::<u64, F>::empty(),
            shared.output_info() is None,
    {
        StreamerCallbackShared {
            registered: false,
            pending: Vec::new(),
            callbacks: HashMap::new(),
            device_output_info: None,
        }
    }

    /// The sample that a delay comes to; zero as long as the output is unknown.
    pub fn convert_duration_to_samples(&self, d: Duration) -> (samples: u64)
        ensures
            samples == self.samples_after(d),
            self.output_info() is None ==> samples == 0,
            self.output_info() matches Some(info) ==> samples == samples_of(d, info),
    {
        match self.device_output_info {
            None => 0,
            Some(info) => duration_to_samples(d, info),
        }
    }

    /// Asks for `callback` to run `after` the start of the playback.
    ///
    /// Before playback starts the callback waits, and takes the place of an earlier
    /// one with the same delay. Afterwards it is scheduled, again in place of one at
    /// the same sample; the result is then the sample to register with the player.
    pub fn add_callback(&mut self, after: Duration, callback: F) -> (result: Result<
        Option<u64>,
        StreamerAddError,
    >)
        requires
            old(self).wf(),
        ensures
            final(self).wf(),
            final(self).has_added(*old(self), after, callback),
            final(self).registered() == old(self).registered(),
            final(self).output_info() == old(self).output_info(),
            old(self).registered() ==> final(self).pending() == old(self).pending()
                && final(self).callbacks() == old(self).callbacks().insert(
                samples_of(after, old(self).output_info()->Some_0),
                callback,
            ) && result->Ok_0 == Some(samples_of(after, old(self).output_info()->Some_0)),
            !old(self).registered() ==> final(self).callbacks() == old(self).callbacks()
                && final(self).pending().contains((after, callback)) && result->Ok_0 is None,
            !old(self).registered() ==> forall|i: int|
                0 <= i < old(self).pending().len() ==> #[trigger] final(self).pending()[i] == (if old(
                    self,
                ).pending()[i].0 == after {
                    (after, callback)
                } else {
                    old(self).pending()[i]
                }),
            !old(self).registered() ==> final(self).pending().len() == old(self).pending().len() + (if exists|
                i: int,
            |
                0 <= i < old(self).pending().len() && (#[trigger] old(self).pending()[i]).0 == after {
                0int
            } else {
                1
            }),
            result is Ok,
            result == Ok::<Option<u64>, StreamerAddError>(
                if old(self).registered() {
                    Some(old(self).samples_after(after))
                } else {
                    None
                },
            ),
    {
        broadcast use vstd::std_specs::hash::group_hash_axioms;

        if self.registered {
            let samples: u64 = self.convert_duration_to_samples(after);
            self.callbacks.insert(samples, callback);
            return Ok(Some(samples));
        }
        let mut i: usize = 0;
        while i < self.pending.len()
            invariant
                i <= self.pending@.len(),
                *self == *old(self),
                !self.registered,
                distinct_delays(self.pending@),
                forall|j: int| 0 <= j < i ==> (#[trigger] self.pending@[j]).0 != after,
            decreases self.pending@.len() - i,
        {
            if self.pending[i].0 == after {
                assert(waits(self.pending@, after));
                assert(position_of(self.pending@, after) == i) by {
                    assert(self.pending()[i as int].0 == after);
                }
                self.pending.set(i, (after, callback));
                assert(self.pending()[i as int] == (after, callback));
                return Ok(None);
            }
            i = i + 1;
        }
        self.pending.push((after, callback));
        assert(self.pending().last() == (after, callback));
        Ok(None)
    }

    /// Playback starts on an output: every waiting callback is scheduled at the
    /// sample its delay comes to, and registrations are taken from now on. The
    /// result is the samples to register with the player, in the order of the
    /// waiting callbacks.
    pub fn set_callback_receiver(&mut self, device_output_info: DeviceOutputInfo) -> (times: Vec<
        u64,
    >)
        requires
            old(self).wf(),
        ensures
            final(self).wf(),
            final(self).registered(),
            final(self).output_info() == Some(device_output_info),
            final(self).pending() == Seq::<(Duration, F)>::empty(),
            final(self).callbacks() == scheduled(
                old(self).callbacks(),
                old(self).pending(),
                device_output_info,
            ),
            times@ == old(self).pending().map_values(
                |p: (Duration, F)| samples_of(p.0, device_output_info),
            ),
    {
        broadcast use vstd::std_specs::hash::group_hash_axioms;

        self.device_output_info = Some(device_output_info);
        let mut times: Vec<u64> = Vec::new();
        let ghost all = self.pending@;
        let ghost mut done: int = 0;
        assert(all.take(0) =~= Seq::<(Duration, F)>::empty());
        while self.pending.len() > 0
            invariant
                0 <= done <= all.len(),
                self.pending@ =~= all.skip(done),
                times@ =~= all.take(done).map_values(
                    |p: (Duration, F)| samples_of(p.0, device_output_info),
                ),
                self.callbacks@ == scheduled(
                    old(self).callbacks(),
                    all.take(done),
                    device_output_info,
                ),
                self.device_output_info == Some(device_output_info),
            decreases self.pending@.len(),
        {
            proof {
                assert(done < all.len());
                assert(all.take(done + 1).drop_last() =~= all.take(done));
                assert(all.take(done + 1).last() == all[done]);
                assert(all.skip(done).remove(0) =~= all.skip(done + 1));
            }
            let (delay, callback): (Duration, F) = self.pending.remove(0);
            let samples: u64 = duration_to_samples(delay, device_output_info);
            self.callbacks.insert(samples, callback);
            times.push(samples);
            proof {
                done = done + 1;
            }
        }
        assert(all.take(done) =~= all);
        self.registered = true;
        times
    }

    /// Playback has reached a sample: the callback that is scheduled there is taken
    /// out and handed over to be run.
    pub fn take_callback(&mut self, reached: Callback) -> (due: Option<F>)
        requires
            old(self).wf(),
        ensures
            final(self).wf(),
            final(self).registered() == old(self).registered(),
            final(self).output_info() == old(self).output_info(),
            final(self).pending() == old(self).pending(),
            final(self).callbacks() == old(self).callbacks().remove(reached->CbOnSample_0),
            due == (if old(self).callbacks().contains_key(reached->CbOnSample_0) {
                Some(old(self).callbacks()[reached->CbOnSample_0])
            } else {
                None
            }),
            !final(self).callbacks().contains_key(reached->CbOnSample_0),
    {
        match reached {
            Callback::CbOnSample(time) => execute_callback(&mut self.callbacks, time),
        }
    }
}

/// Asks for `callback` to run `after` the start of the playback that `shared` is
/// for. The result is the sample to register with the player, if playback has
/// started.
pub fn add_callback<F>(
    shared: &mut StreamerCallbackShared<F>,
    after: Duration,
    callback: F,
) -> (result: Result<Option<u64>, StreamerAddError>)
    requires
        old(shared).wf(),
    ensures
        final(shared).wf(),
        final(shared).has_added(*old(shared), after, callback),
        final(shared).registered() == old(shared).registered(),
        final(shared).output_info() == old(shared).output_info(),
        old(shared).registered() ==> final(shared).pending() == old(shared).pending()
            && final(shared).callbacks() == old(shared).callbacks().insert(
            samples_of(after, old(shared).output_info()->Some_0),
            callback,
        ) && result->Ok_0 == Some(samples_of(after, old(shared).output_info()->Some_0)),
        !old(shared).registered() ==> final(shared).callbacks() == old(shared).callbacks()
            && final(shared).pending().contains((after, callback)) && result->Ok_0 is None,
        !old(shared).registered() ==> forall|i: int|
            0 <= i < old(shared).pending().len() ==> #[trigger] final(shared).pending()[i] == (if old(
                shared,
            ).pending()[i].0 == after {
                (after, callback)
            } else {
                old(shared).pending()[i]
            }),
        !old(shared).registered() ==> final(shared).pending().len() == old(shared).pending().len() + (if exists|
            i: int,
        |
            0 <= i < old(shared).pending().len() && (#[trigger] old(shared).pending()[i]).0 == after {
            0int
        } else {
            1
        }),
        result is Ok,
        result == Ok::<Option<u64>, StreamerAddError>(
            if old(shared).registered() {
                Some(old(shared).samples_after(after))
            } else {
                None
            },
        ),
{
    shared.add_callback(after, callback)
}

impl<F> Default for StreamerCallbackShared<F> {
    fn default() -> (shared: Self)
        ensures
            shared.wf(),
            !shared.registered(),
            shared.pending() == Seq::<(Duration, F)>::empty(),
            shared.callbacks() == Map::<u64, F>::empty(),
            shared.output_info() is None,
    {
        Self::new()
    }
}

/// Of two callbacks with the same delay the later one waits.
pub proof fn law_latest_callback_waits<F>(
    pending: Seq<(Duration, F)>,
    d: Duration,
    first: F,
    second: F,
)
    requires
        distinct_delays(pending),
    ensures
        with_pending(with_pending(pending, d, first), d, second) == with_pending(
            pending,
            d,
            second,
        ),
{
    let once = with_pending(pending, d, first);
    let i = if waits(pending, d) {
        position_of(pending, d)
    } else {
        pending.len() as int
    };
    assert(once[i].0 == d);
    assert(waits(once, d));
    let j = position_of(once, d);
    assert(once[j].0 == d);
    if i != j {
        if waits(pending, d) {
            assert(pending[j].0 == d && pending[i].0 == d);
        } else {
            assert(pending[j].0 == d);
        }
        assert(false);
    }
    assert(with_pending(once, d, second) =~= with_pending(pending, d, second));
}

/// A callback that waits is scheduled at the sample its delay comes to, unless another
/// that waits behind it comes to the same one.
pub proof fn law_waiting_is_scheduled<F>(
    callbacks: Map<u64, F>,
    pending: Seq<(Duration, F)>,
    info: DeviceOutputInfo,
    i: int,
)
    requires
        0 <= i < pending.len(),
        forall|j: int|
            i < j < pending.len() ==> samples_of((#[trigger] pending[j]).0, info) != samples_of(
                pending[i].0,
                info,
            ),
    ensures
        scheduled(callbacks, pending, info).contains_key(samples_of(pending[i].0, info)),
        scheduled(callbacks, pending, info)[samples_of(pending[i].0, info)] == pending[i].1,
    decreases pending.len(),
{
    let rest = pending.drop_last();
    if i < rest.len() {
        assert(rest[i] == pending[i]);
        assert forall|j: int| i < j < rest.len() implies samples_of(
            (#[trigger] rest[j]).0,
            info,
        ) != samples_of(rest[i].0, info) by {
            assert(rest[j] == pending[j]);
        }
        law_waiting_is_scheduled(callbacks, rest, info, i);
        assert(pending[pending.len() - 1] == pending.last());
    }
}

/// A callback that takes the place of one that waits is scheduled in its place, unless
/// another that waits behind it comes to the same sample.
proof fn lemma_replaced<F>(
    callbacks: Map<u64, F>,
    pending: Seq<(Duration, F)>,
    info: DeviceOutputInfo,
    i: int,
    callback: F,
)
    requires
        0 <= i < pending.len(),
        forall|j: int|
            i < j < pending.len() ==> samples_of((#[trigger] pending[j]).0, info) != samples_of(
                pending[i].0,
                info,
            ),
    ensures
        scheduled(callbacks, pending.update(i, (pending[i].0, callback)), info) == scheduled(
            callbacks,
            pending,
            info,
        ).insert(samples_of(pending[i].0, info), callback),
    decreases pending.len(),
{
    let d = pending[i].0;
    let after = pending.update(i, (d, callback));
    let rest = pending.drop_last();
    if i == rest.len() {
        assert(after.drop_last() =~= rest);
        assert(scheduled(callbacks, after, info) =~= scheduled(callbacks, pending, info).insert(
            samples_of(d, info),
            callback,
        ));
    } else {
        assert forall|j: int| i < j < rest.len() implies samples_of(
            (#[trigger] rest[j]).0,
            info,
        ) != samples_of(rest[i].0, info) by {
            assert(rest[j] == pending[j]);
        }
        lemma_replaced(callbacks, rest, info, i, callback);
        assert(after.drop_last() =~= rest.update(i, (d, callback)));
        assert(pending[pending.len() - 1] == pending.last());
        assert(scheduled(callbacks, after, info) =~= scheduled(callbacks, pending, info).insert(
            samples_of(d, info),
            callback,
        ));
    }
}

/// It does not matter whether a callback is asked for just before playback starts or just
/// after, unless it takes the place of one that waits and another behind that comes to
/// the same sample.
pub proof fn law_before_or_after_start<F>(
    callbacks: Map<u64, F>,
    pending: Seq<(Duration, F)>,
    info: DeviceOutputInfo,
    d: Duration,
    callback: F,
)
    requires
        waits(pending, d) ==> forall|j: int|
            position_of(pending, d) < j < pending.len() ==> samples_of(
                (#[trigger] pending[j]).0,
                info,
            ) != samples_of(d, info),
    ensures
        scheduled(callbacks, with_pending(pending, d, callback), info) == scheduled(
            callbacks,
            pending,
            info,
        ).insert(samples_of(d, info), callback),
{
    if waits(pending, d) {
        let i = position_of(pending, d);
        assert(0 <= i < pending.len() && pending[i].0 == d);
        lemma_replaced(callbacks, pending, info, i, callback);
    } else {
        assert(pending.push((d, callback)).drop_last() =~= pending);
    }
}

/// Once playback starts there are callbacks at the samples that had one already and at those
/// that the waiting ones come to, and a sample that none of the waiting ones comes to keeps
/// what it had.
pub proof fn law_the_rest_stays_scheduled<F>(
    callbacks: Map<u64, F>,
    pending: Seq<(Duration, F)>,
    info: DeviceOutputInfo,
    sample: u64,
)
    ensures
        scheduled(callbacks, pending, info).contains_key(sample) <==> callbacks.contains_key(sample)
            || exists|i: int|
            0 <= i < pending.len() && samples_of((#[trigger] pending[i]).0, info) == sample,
        (forall|i: int|
            0 <= i < pending.len() ==> samples_of((#[trigger] pending[i]).0, info) != sample)
            && callbacks.contains_key(sample) ==> scheduled(callbacks, pending, info)[sample]
            == callbacks[sample],
    decreases pending.len(),
{
    if pending.len() > 0 {
        let rest = pending.drop_last();
        law_the_rest_stays_scheduled(callbacks, rest, info, sample);
        assert(pending[pending.len() - 1] == pending.last());
        assert forall|i: int| 0 <= i < rest.len() implies #[trigger] rest[i] == pending[i] by {}
        if exists|i: int|
            0 <= i < pending.len() && samples_of((#[trigger] pending[i]).0, info) == sample {
            let i = choose|i: int|
                0 <= i < pending.len() && samples_of((#[trigger] pending[i]).0, info) == sample;
            if i < rest.len() {
                assert(rest[i] == pending[i]);
            }
        }
    }
}

/// `a` is no longer than `b`.
pub open spec fn no_longer(a: Duration, b: Duration) -> bool {
    a.secs < b.secs || (a.secs == b.secs && a.nanos <= b.nanos)
}

/// The fraction of a duration stays below one second when it is rounded.
proof fn lemma_fraction_below_one(nanos: nat)
    requires
        nanos < 1_000_000_000,
    ensures
        round_ratio(nanos * pow2(82), 1_000_000_000, 53) < pow2(82),
{
    let t = pow2(82);
    let most = 999_999_999 * t;
    let f = round_ratio(most, 1_000_000_000, 53);
    lemma2_to64();
    lemma2_to64_rest();
    lemma_pow2_unfold(64);
    lemma_pow2_adds(64, 18);
    vstd::arithmetic::mul::lemma_mul_inequality(nanos as int, 999_999_999, t as int);
    lemma_round_ratio_monotone(nanos * t, most, 1_000_000_000, 53);
    let q = most / 1_000_000_000;
    if bit_length(q) < 53 {
        lemma_bit_length_bounds(q);
        lemma_pow2_strictly_increases(bit_length(q), 53);
    }
    lemma_round_ratio_error(most, 1_000_000_000, 53);
    if f >= t {
        assert(false);
    }
}

/// A fraction below one does not show beside a count of seconds that fills more than
/// the precision.
proof fn lemma_fraction_is_lost(m: nat, fraction: nat)
    requires
        round_int(m, 53) == m,
        m >= pow2(53),
        fraction < pow2(82),
    ensures
        round_int(m * pow2(82) + fraction, 53) == m * pow2(82),
{
    let t = pow2(82);
    let n = m * t + fraction;
    let l = bit_length(m);
    lemma2_to64();
    lemma_pow2_pos(53);
    lemma_pow2_pos(82);
    lemma_bit_length_bounds(m);
    if l <= 53 {
        if l < 53 {
            lemma_pow2_strictly_increases(l, 53);
        }
        assert(false);
    }
    let s = (l - 53) as nat;
    let step = pow2(s);
    lemma_pow2_pos(s);
    assert(m / 1 == m);
    lemma_mul_basics(step as int);
    let z = nearest(m, step);
    assert(m == z * step);
    lemma_pow2_adds(s, 82);
    let unit = pow2(s + 82);
    lemma_mul_is_associative(z as int, step as int, t as int);
    assert(n == z * unit + fraction);
    // The sum has as many digits as the count, shifted.
    let low = pow2((l - 1) as nat);
    let high = pow2(l);
    lemma_pow2_adds((l - 1) as nat, 82);
    lemma_pow2_adds(l, 82);
    assert(low * t <= n < high * t) by (nonlinear_arith)
        requires
            n == m * t + fraction,
            low <= m,
            m + 1 <= high,
            0 <= fraction < t,
    {
        assert(low * t <= m * t);
        assert((m + 1) * t <= high * t);
    }
    lemma_bit_length_unique(n, l + 82);
    assert(n / 1 == n);
    lemma_mul_basics(unit as int);
    assert((l + 82 - 53) as nat == s + 82);
    lemma_pow2_unfold(s);
    lemma_pow2_pos((s - 1) as nat);
    assert(unit >= 2 * t) by (nonlinear_arith)
        requires
            unit == step * t,
            step >= 2,
            t > 0,
    ;
    vstd::arithmetic::div_mod::lemma_fundamental_div_mod_converse(
        n as int,
        unit as int,
        z as int,
        fraction as int,
    );
    assert(nearest(n, unit) == z);
}

/// A longer duration is no fewer seconds.
proof fn lemma_seconds_monotone(a: Duration, b: Duration)
    requires
        a.nanos < 1_000_000_000,
        b.nanos < 1_000_000_000,
        no_longer(a, b),
    ensures
        seconds_of(a) <= seconds_of(b),
{
    let t = pow2(82);
    let ma = round_int(a.secs as nat, 53);
    let mb = round_int(b.secs as nat, 53);
    let fa = round_ratio(a.nanos as nat * t, 1_000_000_000, 53);
    let fb = round_ratio(b.nanos as nat * t, 1_000_000_000, 53);
    lemma2_to64();
    lemma_pow2_pos(82);
    lemma_fraction_below_one(a.nanos as nat);
    lemma_fraction_below_one(b.nanos as nat);
    lemma_round_ratio_monotone(a.secs as nat, b.secs as nat, 1, 53);
    if a.secs == b.secs {
        vstd::arithmetic::mul::lemma_mul_inequality(a.nanos as int, b.nanos as int, t as int);
        lemma_round_ratio_monotone(a.nanos as nat * t, b.nanos as nat * t, 1_000_000_000, 53);
        lemma_round_ratio_monotone(ma * t + fa, mb * t + fb, 1, 53);
    } else if ma < mb {
        assert(ma * t + fa <= mb * t) by (nonlinear_arith)
            requires
                ma + 1 <= mb,
                0 <= fa < t,
        {
            assert((ma + 1) * t <= mb * t);
        }
        lemma_round_ratio_monotone(ma * t + fa, mb * t + fb, 1, 53);
    } else {
        // Two counts of seconds that are rounded to the same fill the precision.
        if b.secs <= pow2(53) {
            lemma_bit_length_at_most(a.secs as nat, 53);
            lemma_round_int_exact(a.secs as nat, 53);
            lemma_mul_basics(b.secs as int);
            lemma_round_int_scaled(b.secs as nat, 0, 53);
            assert(false);
        }
        lemma_round_ratio_monotone(pow2(53), b.secs as nat, 1, 53);
        lemma_mul_basics(pow2(53) as int);
        lemma_round_int_scaled(pow2(53), 0, 53);
        lemma_round_ratio_fixed(a.secs as nat, 1, 53);
        lemma_fraction_is_lost(ma, fa);
        lemma_fraction_is_lost(mb, fb);
    }
}

/// A callback with a longer delay is due no earlier.
pub proof fn law_longer_is_no_earlier(a: Duration, b: Duration, info: DeviceOutputInfo)
    requires
        a.nanos < 1_000_000_000,
        b.nanos < 1_000_000_000,
        no_longer(a, b),
    ensures
        samples_of(a, info) <= samples_of(b, info),
{
    let rate = info.sample_rate as nat;
    let channels = info.channels as nat;
    lemma_seconds_monotone(a, b);
    let sa = seconds_of(a);
    let sb = seconds_of(b);
    vstd::arithmetic::mul::lemma_mul_inequality(sa as int, sb as int, rate as int);
    lemma_round_ratio_monotone(sa * rate, sb * rate, 1, 53);
    let pa = round_int(sa * rate, 53);
    let pb = round_int(sb * rate, 53);
    vstd::arithmetic::mul::lemma_mul_inequality(pa as int, pb as int, channels as int);
    lemma_round_ratio_monotone(pa * channels, pb * channels, 1, 53);
    lemma_pow2_pos(82);
    vstd::arithmetic::div_mod::lemma_div_is_ordered(
        round_int(pa * channels, 53) as int,
        round_int(pb * channels, 53) as int,
        pow2(82) as int,
    );
}

/// A count of whole seconds comes to exactly as many samples as the output plays in it, as
/// long as a double-precision number holds them.
pub proof fn law_whole_seconds_are_exact(secs: u64, info: DeviceOutputInfo)
    requires
        secs * info.sample_rate * info.channels <= pow2(53),
    ensures
        samples_of(Duration { secs, nanos: 0 }, info) == secs * info.sample_rate * info.channels,
{
    let t = pow2(82);
    let d = Duration { secs, nanos: 0 };
    let rate = info.sample_rate as nat;
    let channels = info.channels as nat;
    let s = secs as nat;
    lemma2_to64();
    lemma2_to64_rest();
    lemma_pow2_pos(82);
    lemma_round_int_scaled(0, 0, 53);
    if rate == 0 || channels == 0 {
        assert(s * rate * channels == 0) by (nonlinear_arith)
            requires
                rate == 0 || channels == 0,
        ;
        lemma_mul_basics(seconds_of(d) as int);
        lemma_mul_basics(channels as int);
        lemma_mul_basics(round_int(seconds_of(d) * rate, 53) as int);
        assert(0nat / t == 0) by (nonlinear_arith)
            requires
                t > 0,
        ;
        return;
    }
    let per_channel = s * rate;
    let all = per_channel * channels;
    assert(s <= per_channel <= all) by (nonlinear_arith)
        requires
            per_channel == s * rate,
            all == per_channel * channels,
            rate >= 1,
            channels >= 1,
    ;
    // The whole seconds are a double, and there is no fraction.
    lemma_mul_basics(s as int);
    lemma_mul_basics(t as int);
    lemma_round_int_scaled(s, 0, 53);
    assert(round_ratio(0, 1_000_000_000, 53) == 0) by {
        lemma_mul_basics(1_000_000_000);
        assert(bit_length(0) == 0);
    }
    lemma_round_int_scaled(s, 82, 53);
    assert(seconds_of(d) == s * t);
    // Neither product is rounded.
    assert((s * t) * rate == per_channel * t) by (nonlinear_arith)
        requires
            per_channel == s * rate,
    ;
    lemma_round_int_scaled(per_channel, 82, 53);
    assert((per_channel * t) * channels == all * t) by (nonlinear_arith)
        requires
            all == per_channel * channels,
    ;
    lemma_round_int_scaled(all, 82, 53);
    vstd::arithmetic::div_mod::lemma_div_by_multiple(all as int, t as int);
}

/// `x` is `y` but for `k` parts in two to the power 53.
spec fn is_near(x: nat, y: nat, k: nat) -> bool {
    &&& 0x20_0000_0000_0000 * x <= (0x20_0000_0000_0000 + k) * y
    &&& (0x20_0000_0000_0000 - k) * y <= 0x20_0000_0000_0000 * x
}

/// A rounded product is near the exact one.
proof fn lemma_near_product(x: nat, y: nat, k: nat, factor: nat, part: nat)
    requires
        is_near(x * part, y, k),
        k <= 16,
    ensures
        is_near(round_int(x * factor, 53) * part, y * factor, k + 2),
{
    let p = 0x20_0000_0000_0000int;
    let r = round_int(x * factor, 53) as int;
    lemma2_to64();
    lemma2_to64_rest();
    lemma_round_int_error(x * factor, 53);
    let e = (x * factor) as int;
    let ep = e * part;
    let rp = r * part;
    let yf = (y * factor) as int;
    assert(p * rp <= (p + 1) * ep && (p - 1) * ep <= p * rp) by (nonlinear_arith)
        requires
            p == 0x20_0000_0000_0000,
            ep == e * part,
            rp == r * part,
            part >= 0,
            p * r <= (p + 1) * e,
            (p - 1) * e <= p * r,
    {
        assert((p * r) * part <= ((p + 1) * e) * part);
        assert(((p - 1) * e) * part <= (p * r) * part);
    }
    assert(p * ep <= (p + k) * yf && (p - k) * yf <= p * ep) by (nonlinear_arith)
        requires
            p == 0x20_0000_0000_0000,
            e == x * factor,
            ep == e * part,
            yf == y * factor,
            factor >= 0,
            p * (x * part) <= (p + k) * y,
            (p - k) * y <= p * (x * part),
    {
        assert((p * (x * part)) * factor <= ((p + k) * y) * factor);
        assert(((p - k) * y) * factor <= (p * (x * part)) * factor);
        assert(ep == (x * part) * factor);
    }
    lemma_near_chain(rp, ep, yf, k as int);
}

/// What is near something near is near.
proof fn lemma_near_chain(z: int, x: int, y: int, k: int)
    requires
        y >= 0,
        0 <= k <= 16,
        0x20_0000_0000_0000 * z <= 0x20_0000_0000_0001 * x,
        0x1F_FFFF_FFFF_FFFF * x <= 0x20_0000_0000_0000 * z,
        0x20_0000_0000_0000 * x <= (0x20_0000_0000_0000 + k) * y,
        (0x20_0000_0000_0000 - k) * y <= 0x20_0000_0000_0000 * x,
    ensures
        0x20_0000_0000_0000 * z <= (0x20_0000_0000_0000 + k + 2) * y,
        (0x20_0000_0000_0000 - k - 2) * y <= 0x20_0000_0000_0000 * z,
{
    let p = 0x20_0000_0000_0000int;
    let ky = k * y;
    assert(0 <= ky <= 16 * y) by (nonlinear_arith)
        requires
            ky == k * y,
            0 <= k <= 16,
            y >= 0,
    ;
    assert((p + k) * y == p * y + ky && (p - k) * y == p * y - ky && (p + k + 2) * y == p * y + ky
        + 2 * y && (p - k - 2) * y == p * y - ky - 2 * y) by (nonlinear_arith)
        requires
            ky == k * y,
    ;
}

/// A duration comes to as many samples as the output plays in it: the whole samples in its
/// length times the rate and the channels, but for rounding, which is a few parts in two to
/// the power 53. What is too large is cut off.
pub proof fn law_duration_times_rate(d: Duration, info: DeviceOutputInfo)
    ensures
        ({
            let length = d.secs * 1_000_000_000 + d.nanos;
            let exact = length * info.sample_rate * info.channels;
            let samples = samples_of(d, info);
            &&& 0x20_0000_0000_0000 * (samples * 1_000_000_000) <= 0x20_0000_0000_0007 * exact
            &&& samples < u64::MAX ==> 0x1F_FFFF_FFFF_FFF9 * exact < 0x20_0000_0000_0000 * ((samples
                + 1) * 1_000_000_000)
        }),
{
    let t = pow2(82);
    let p = 0x20_0000_0000_0000int;
    let g = 1_000_000_000nat;
    let s = d.secs as nat;
    let n = d.nanos as nat;
    let w = round_int(s, 53);
    let f = round_ratio(n * t, g, 53);
    let sum = w * t + f;
    let length = s * g + n;
    let rate = info.sample_rate as nat;
    let channels = info.channels as nat;
    lemma2_to64();
    lemma2_to64_rest();
    lemma_pow2_unfold(64);
    lemma_pow2_adds(64, 18);
    lemma_pow2_pos(82);
    lemma_round_int_error(s, 53);
    let wt = w * t;
    let st = s * t;
    assert(p * wt <= (p + 1) * st && (p - 1) * st <= p * wt) by (nonlinear_arith)
        requires
            p == 0x20_0000_0000_0000,
            wt == w * t,
            st == s * t,
            t > 0,
            p * w <= (p + 1) * s,
            (p - 1) * s <= p * w,
    {
        assert((p * w) * t <= ((p + 1) * s) * t);
        assert(((p - 1) * s) * t <= (p * w) * t);
    }
    let nt = n * t;
    if n > 0 {
        assert(nt >= t) by (nonlinear_arith)
            requires
                nt == n * t,
                n >= 1,
                t > 0,
        ;
        let q = nt / g;
        if bit_length(q) < 53 {
            lemma_bit_length_bounds(q);
            if bit_length(q) < 52 {
                lemma_pow2_strictly_increases(bit_length(q), 52);
            }
            assert(false);
        }
        lemma_round_ratio_error(nt, g, 53);
    } else {
        lemma_mul_basics(t as int);
        assert(nt == 0);
        assert(round_ratio(0, 1_000_000_000, 53) == 0) by {
            lemma_mul_basics(1_000_000_000);
            assert(0nat / 1_000_000_000nat == 0);
            assert(bit_length(0) == 0);
            assert(nearest(0, 1_000_000_000) == 0);
            lemma_mul_basics(1);
        }
        lemma_mul_basics(g as int);
    }
    assert(p * (f * g) <= (p + 1) * nt && (p - 1) * nt <= p * (f * g));
    let lt = length * t;
    assert(lt == st * g + nt) by (nonlinear_arith)
        requires
            lt == length * t,
            length == s * g + n,
            st == s * t,
            nt == n * t,
    ;
    assert(is_near(sum * g, lt, 1));
    lemma_mul_basics(sum as int);
    lemma_mul_basics(lt as int);
    lemma_near_product(sum, lt, 1, 1, g);
    let seconds = seconds_of(d);
    lemma_near_product(seconds, lt, 3, rate, g);
    let per_channel = round_int(seconds * rate, 53);
    lemma_near_product(per_channel, lt * rate, 5, channels, g);
    let all = round_int(per_channel * channels, 53);
    let exact = length * rate * channels;
    assert(lt * rate * channels == exact * t) by (nonlinear_arith)
        requires
            lt == length * t,
            exact == length * rate * channels,
    ;
    let q = all / t;
    let r = all % t;
    vstd::arithmetic::div_mod::lemma_fundamental_div_mod(all as int, t as int);
    let samples = samples_of(d, info);
    assert(samples <= q);
    assert(p * (samples * g) <= (p + 7) * exact) by (nonlinear_arith)
        requires
            samples <= q,
            all == t * q + r,
            r >= 0,
            t > 0,
            g == 1_000_000_000,
            p == 0x20_0000_0000_0000,
            p * (all * g) <= (p + 7) * (exact * t),
    {
        assert(samples * t <= q * t);
        assert((p * (samples * g)) * t <= ((p + 7) * exact) * t) by {
            assert((samples * t) * (p * g) <= all * (p * g));
        }
    }
    if samples < u64::MAX {
        assert(samples == q);
        assert((p - 7) * exact < p * ((q + 1) * g)) by (nonlinear_arith)
            requires
                all == t * q + r,
                r < t,
                t > 0,
                g == 1_000_000_000,
                p == 0x20_0000_0000_0000,
                (p - 7) * (exact * t) <= p * (all * g),
        {
            assert(all < (q + 1) * t);
            assert(all * (p * g) < ((q + 1) * t) * (p * g));
            assert(((p - 7) * exact) * t < (p * ((q + 1) * g)) * t);
        }
    }
}

} // verus!
