//! Play lists: streamers one after the other, with or without a crossfade.
//!
//! A streamer is consumed by playing it. Before that a fresh copy of it is kept, so
//! that a seek can bring it back.

use vstd::prelude::*;
use vstd::arithmetic::power2::{lemma2_to64, lemma2_to64_rest, pow2};
use crate::sample::{Sample, UNITY};
use crate::seconds::{
    law_count_of_is_product, law_whole_seconds_count, law_whole_seconds_difference,
    law_whole_seconds_sum, law_zero_seconds, Seconds,
};
use crate::shared::{flag_loads, flag_stores, SharedFlag};
use super::control::{
    commands_received, next_command, ControlCommand, ControlHandle, GainFunction,
};
use super::single::gain_at;
use super::utils::law_fades_add_up;
use super::{DeviceOutputInfo, StreamErr, NO_SEEK};
use crossbeam_channel::Receiver;

verus! {

/// How one streamer gives way to the next. The seconds that a fade lasts are a
/// single-precision bit pattern.
#[derive(Debug, Clone, Copy, PartialEq, Eq, Structural)]
pub enum CrossFadeType {
    Logarithmic(u32),
    Linear(u32),
    NoFade,
}

/// The weight of each streamer in the mix for the crossfades, which does not average: the
/// gains of a crossfade add up already.
pub const CROSSFADE_WEIGHT: u32 = 1;

/// The list index before anything plays.
pub const NO_POS: u16 = u16::MAX;

/// The length of a fade; zero means no crossfade.
pub open spec fn fade_seconds(fade: CrossFadeType) -> Seconds {
    match fade {
        CrossFadeType::Linear(f) => Seconds::widened(f),
        CrossFadeType::Logarithmic(f) => Seconds::widened(f),
        CrossFadeType::NoFade => Seconds { bits: 0 },
    }
}

/// `secs <= 0.0`, which a NaN is not.
pub open spec fn not_above_zero(secs: Seconds) -> bool {
    !secs.is_nan() && !secs.above_zero()
}

/// The gains of a crossfade over a number of samples: of the streamer that comes
/// and of the one that goes.
pub open spec fn fades(fade: CrossFadeType, samples: usize) -> (GainFunction, GainFunction) {
    match fade {
        CrossFadeType::Logarithmic(_) => (
            GainFunction::FadeInLog(samples),
            GainFunction::FadeOutLog(samples),
        ),
        _ => (GainFunction::FadeInLinear(samples), GainFunction::FadeOutLinear(samples)),
    }
}

/// The gains of a crossfade: fade-in and fade-out.
pub fn build_fades(fade_type: CrossFadeType, fade_samples: usize) -> (gains: (
    GainFunction,
    GainFunction,
))
    ensures
        gains == fades(fade_type, fade_samples),
        fade_type is Logarithmic ==> gains.0 == GainFunction::FadeInLog(fade_samples) && gains.1
            == GainFunction::FadeOutLog(fade_samples),
        !(fade_type is Logarithmic) ==> gains.0 == GainFunction::FadeInLinear(fade_samples)
            && gains.1 == GainFunction::FadeOutLinear(fade_samples),
{
    match fade_type {
        CrossFadeType::Logarithmic(_) => (
            GainFunction::FadeInLog(fade_samples),
            GainFunction::FadeOutLog(fade_samples),
        ),
        _ => (GainFunction::FadeInLinear(fade_samples), GainFunction::FadeOutLinear(fade_samples)),
    }
}

/// A count as far as it fits an index.
pub open spec fn as_index(count: u64) -> usize {
    if count > usize::MAX {
        usize::MAX
    } else {
        count as usize
    }
}

/// How many samples a time comes to on an output.
pub open spec fn output_samples(secs: Seconds, info: DeviceOutputInfo) -> u64 {
    secs.count_of((info.channels * info.sample_rate) as u64)
}

/// How many samples a time comes to on an output, over all its channels.
pub fn seconds_to_samples(secs: Seconds, info: DeviceOutputInfo) -> (samples: u64)
    ensures
        samples == output_samples(secs, info),
        samples == secs.count_of((info.channels * info.sample_rate) as u64),
{
    assert(info.channels * info.sample_rate <= 0xFFFF * 0xFFFF_FFFF) by (nonlinear_arith)
        requires
            info.channels <= 0xFFFF,
            info.sample_rate <= 0xFFFF_FFFF,
    ;
    assert(info.channels * info.sample_rate >= 0) by (nonlinear_arith);
    secs.count(info.channels as u64 * info.sample_rate as u64)
}

/// A count of whole seconds comes to exactly as many samples as the output plays in it, as
/// long as a double-precision number holds them.
pub proof fn law_whole_seconds_on_output(count: u64, info: DeviceOutputInfo)
    requires
        count * (info.channels * info.sample_rate) <= pow2(53),
    ensures
        output_samples(Seconds::of_count(count), info) == count * (info.channels
            * info.sample_rate),
{
    assert(0 <= info.channels * info.sample_rate <= 0xFFFF * 0xFFFF_FFFF) by (nonlinear_arith)
        requires
            info.channels <= 0xFFFF,
            info.sample_rate <= 0xFFFF_FFFF,
    ;
    law_whole_seconds_count(count, (info.channels * info.sample_rate) as u64);
}

/// A time comes to as many samples as the output plays in it: the whole samples in it times
/// the rate and the channels, but for rounding, which is one part in two to the power 53.
/// NaN and a negative time come to none, and what is too large is cut off.
pub proof fn law_seconds_times_rate(secs: Seconds, info: DeviceOutputInfo)
    ensures
        secs.is_nan() || secs.negative() ==> output_samples(secs, info) == 0,
        !secs.negative() && secs.is_finite() ==> {
            let exact = secs.units() * (info.channels * info.sample_rate);
            let samples = output_samples(secs, info);
            &&& 0x20_0000_0000_0000 * (samples * pow2(1074)) <= 0x20_0000_0000_0001 * exact
            &&& samples < u64::MAX ==> 0x1F_FFFF_FFFF_FFFF * exact < 0x20_0000_0000_0000 * ((samples
                + 1) * pow2(1074))
        },
{
    assert(0 <= info.channels * info.sample_rate <= 0xFFFF * 0xFFFF_FFFF) by (nonlinear_arith)
        requires
            info.channels <= 0xFFFF,
            info.sample_rate <= 0xFFFF_FFFF,
    ;
    law_count_of_is_product(secs, (info.channels * info.sample_rate) as u64);
}

/// In whole seconds the next crossfade starts as much later as the streamer plays before it
/// fades out, and at once if it is no longer than the fade.
pub proof fn law_cutoffs_in_whole_seconds(cutoff: u64, duration: u64, fade: u64)
    requires
        cutoff + duration <= pow2(53),
        fade <= pow2(53),
    ensures
        next_cutoff(
            Seconds::of_count(cutoff),
            Seconds::of_count(duration),
            Seconds::of_count(fade),
        ) == Seconds::of_count(
            if duration > fade {
                (cutoff + (duration - fade)) as u64
            } else {
                cutoff
            },
        ),
{
    let zero = Seconds::of_count(0);
    lemma2_to64();
    lemma2_to64_rest();
    law_whole_seconds_difference(duration, fade);
    law_whole_seconds_difference(0, 0);
    if duration > fade {
        let rest = (duration - fade) as u64;
        law_whole_seconds_difference(rest, 0);
        law_whole_seconds_sum(cutoff, rest);
    } else {
        law_whole_seconds_sum(cutoff, 0);
        law_zero_seconds();
    }
}

/// How a play list starts.
#[derive(Debug, Clone, Copy, PartialEq, Eq, Structural)]
pub enum PlayMode {
    /// There is nothing to play.
    Empty,
    /// One streamer after the other, without a crossfade.
    Sequential,
    /// The first streamer in a mix that the others join. The crossfade to the second
    /// starts at `cutoff` and takes `fade_samples` samples.
    CrossFade { fade_samples: usize, cutoff: Seconds },
}

/// When the next crossfade starts, if the streamer that has just started lasts
/// `duration` and the crossfade to it started at `cutoff`.
pub open spec fn next_cutoff(cutoff: Seconds, duration: Seconds, fade: Seconds) -> Seconds {
    cutoff.sum(duration.difference(fade).clipped())
}

/// What playing the next streamer of a list comes to.
pub enum NextTrack<S> {
    /// The list was stopped.
    Stopped,
    /// No streamer is left.
    Exhausted,
    /// This one plays.
    Play(S),
}

/// The search for the streamer that a seek goes to.
#[derive(Debug, Clone, Copy, PartialEq, Eq, Structural)]
pub struct SeekWalk {
    /// What is left of the time.
    pub time: Seconds,
    /// What was left of it a step earlier.
    pub prev_time: Seconds,
    /// The streamer whose duration is taken off next, counted from the front.
    pub sought: usize,
}

/// What a streamer says of its duration to a seek.
#[derive(Debug, Clone, Copy, PartialEq, Eq, Structural)]
pub enum TrackDuration {
    /// There is no such streamer.
    NoTrack,
    /// It does not know its duration.
    Unknown,
    Known(Seconds),
}

/// How a seek goes on.
#[derive(Debug, Clone, Copy, PartialEq, Eq, Structural)]
pub enum WalkStep {
    /// The duration of the sought streamer is wanted.
    Ask,
    /// The walk has ended.
    Done,
}

/// What the streamer with a number says of its duration.
pub open spec fn asked(durations: Seq<TrackDuration>, number: usize) -> TrackDuration {
    if number < durations.len() {
        durations[number as int]
    } else {
        TrackDuration::NoTrack
    }
}

impl SeekWalk {
    /// How a walk goes on: as long as some time is left.
    pub open spec fn step(self) -> WalkStep {
        if self.time.above_zero() {
            WalkStep::Ask
        } else {
            WalkStep::Done
        }
    }

    /// After the duration of the sought streamer was taken off the time. Without a streamer
    /// the walk ends one further on; without a duration there is no seeking. A duration
    /// does not move the walk on to another streamer.
    pub open spec fn advanced(self, duration: TrackDuration) -> (SeekWalk, Result<
        WalkStep,
        StreamErr,
    >) {
        match duration {
            TrackDuration::NoTrack => (
                SeekWalk {
                    prev_time: self.time,
                    sought: (self.sought + 1) as usize,
                    ..self
                },
                Ok(WalkStep::Done),
            ),
            TrackDuration::Unknown => (
                SeekWalk { prev_time: self.time, ..self },
                Err(StreamErr::SeekNotSupported),
            ),
            TrackDuration::Known(d) => {
                let after = SeekWalk {
                    prev_time: self.time,
                    time: self.time.difference(d),
                    ..self
                };
                (after, Ok(after.step()))
            },
        }
    }

    /// After up to `limit` steps over streamers with the given durations. The walk asks on if
    /// time is left after all of them.
    pub open spec fn walked(self, durations: Seq<TrackDuration>, limit: nat) -> (SeekWalk, Result<
        WalkStep,
        StreamErr,
    >)
        decreases limit,
    {
        if limit == 0 || self.step() == WalkStep::Done {
            (self, Ok(self.step()))
        } else {
            let (after, result) = self.advanced(asked(durations, self.sought));
            if result == Ok::<WalkStep, StreamErr>(WalkStep::Ask) {
                after.walked(durations, (limit - 1) as nat)
            } else {
                (after, result)
            }
        }
    }

    /// Whether the walk goes on: as long as some time is left.
    pub fn next(&self) -> (step: WalkStep)
        ensures
            step == self.step(),
            step == WalkStep::Ask <==> self.time.above_zero(),
    {
        if self.time.is_above_zero() {
            WalkStep::Ask
        } else {
            WalkStep::Done
        }
    }

    /// Takes the duration of the sought streamer off the time. Without a streamer
    /// the walk ends one further on; without a duration there is no seeking.
    pub fn advance(&mut self, duration: TrackDuration) -> (result: Result<WalkStep, StreamErr>)
        requires
            duration == TrackDuration::NoTrack ==> old(self).sought < usize::MAX,
        ensures
            (*final(self), result) == old(self).advanced(duration),
            final(self).prev_time == old(self).time,
            duration is NoTrack ==> result == Ok::<WalkStep, StreamErr>(WalkStep::Done)
                && final(self).sought == old(self).sought + 1 && final(self).time == old(self).time,
            duration is Unknown ==> result == Err::<WalkStep, StreamErr>(
                StreamErr::SeekNotSupported,
            ) && final(self).sought == old(self).sought && final(self).time == old(self).time,
            duration matches TrackDuration::Known(d) ==> final(self).time == old(
                self,
            ).time.difference(d) && final(self).sought == old(self).sought && result is Ok && (
            result->Ok_0 == WalkStep::Ask <==> final(self).time.above_zero()),
    {
        self.prev_time = self.time;
        match duration {
            TrackDuration::NoTrack => {
                self.sought = self.sought + 1;
                Ok(WalkStep::Done)
            },
            TrackDuration::Unknown => Err(StreamErr::SeekNotSupported),
            TrackDuration::Known(d) => {
                self.time = self.time.minus(d);
                Ok(self.next())
            },
        }
    }

    /// Walks over streamers with the given durations, for `limit` steps at most. A walk that
    /// is not done then can go on; one over a streamer that takes nothing off the time
    /// never ends.
    pub fn walk(&mut self, durations: &Vec<TrackDuration>, limit: usize) -> (result: Result<
        WalkStep,
        StreamErr,
    >)
        requires
            old(self).sought < usize::MAX,
        ensures
            (*final(self), result) == old(self).walked(durations@, limit as nat),
            limit == 0 || !old(self).time.above_zero() ==> *final(self) == *old(self) && result is Ok
                && (result->Ok_0 == WalkStep::Ask <==> old(self).time.above_zero()),
    {
        let mut left: usize = limit;
        let mut step: WalkStep = self.next();
        while left > 0 && step == WalkStep::Ask
            invariant
                self.sought == old(self).sought,
                old(self).sought < usize::MAX,
                left <= limit,
                step == self.step(),
                old(self).walked(durations@, limit as nat) == self.walked(durations@, left as nat),
            decreases left,
        {
            let duration: TrackDuration = if self.sought < durations.len() {
                durations[self.sought]
            } else {
                TrackDuration::NoTrack
            };
            assert(duration == asked(durations@, self.sought));
            left = left - 1;
            match self.advance(duration) {
                Ok(WalkStep::Ask) => {
                    step = WalkStep::Ask;
                },
                other => {
                    return other;
                },
            }
        }
        Ok(step)
    }
}

/// A walk over a streamer that lasts whole seconds ends: it takes its duration off as often
/// as it fits, and the last time that is left above zero is what of the seek lies within
/// it.
pub proof fn law_walk_ends(
    walk: SeekWalk,
    durations: Seq<TrackDuration>,
    secs: u64,
    lasts: u64,
    limit: nat,
)
    requires
        walk.time == Seconds::of_count(secs),
        asked(durations, walk.sought) == TrackDuration::Known(Seconds::of_count(lasts)),
        0 < secs <= pow2(53),
        0 < lasts <= pow2(53),
        limit >= secs,
    ensures
        ({
            let (after, result) = walk.walked(durations, limit);
            &&& result == Ok::<WalkStep, StreamErr>(WalkStep::Done)
            &&& after.sought == walk.sought
            &&& after.prev_time == Seconds::of_count((1 + (secs - 1) % (lasts as int)) as u64)
        }),
    decreases secs,
{
    law_whole_seconds_difference(secs, lasts);
    let (next, result) = walk.advanced(asked(durations, walk.sought));
    if secs > lasts {
        let rest = (secs - lasts) as u64;
        law_whole_seconds_difference(rest, lasts);
        law_walk_ends(next, durations, rest, lasts, (limit - 1) as nat);
        vstd::arithmetic::div_mod::lemma_mod_sub_multiples_vanish(secs - 1, lasts as int);
    } else {
        vstd::arithmetic::div_mod::lemma_small_mod((secs - 1) as nat, lasts as nat);
    }
}

/// A walk goes step by step: one step more is a step followed by the rest of the walk, as long
/// as time is left. Where there is no streamer it ends one further on, and where a streamer
/// does not know its duration there is no seeking.
pub proof fn law_walk_steps(walk: SeekWalk, durations: Seq<TrackDuration>, limit: nat)
    requires
        walk.time.above_zero(),
        walk.sought < usize::MAX,
    ensures
        walk.sought >= durations.len() ==> walk.walked(durations, limit + 1) == (
            (SeekWalk {
                time: walk.time,
                prev_time: walk.time,
                sought: (walk.sought + 1) as usize,
            }),
            Ok::<WalkStep, StreamErr>(WalkStep::Done),
        ),
        walk.sought < durations.len() && durations[walk.sought as int] is Unknown ==> walk.walked(
            durations,
            limit + 1,
        ).1 == Err::<WalkStep, StreamErr>(StreamErr::SeekNotSupported),
        walk.sought < durations.len() ==> (durations[walk.sought as int] matches TrackDuration::Known(
            d,
        ) ==> {
            let next = SeekWalk {
                time: walk.time.difference(d),
                prev_time: walk.time,
                sought: walk.sought,
            };
            walk.walked(durations, limit + 1) == next.walked(durations, limit)
        }),
{
}

/// How many of the kept copies stay when a seek goes to a streamer: those in front
/// of the one before it.
pub open spec fn kept_copies(copies: nat, sought: nat) -> nat {
    if sought == 0 {
        0
    } else if copies < sought {
        copies
    } else {
        (sought - 1) as nat
    }
}

/// Puts kept copies back in front of the queue, the latest first, until fewer are
/// left than the number of the streamer that is sought.
pub fn requeue<S>(copies: &mut Vec<S>, queue: &mut Vec<S>, sought: usize)
    ensures
        final(copies)@ == old(copies)@.take(
            kept_copies(old(copies)@.len(), sought as nat) as int,
        ),
        final(queue)@ == old(copies)@.skip(
            kept_copies(old(copies)@.len(), sought as nat) as int,
        ) + old(queue)@,
        final(copies)@ + final(queue)@ == old(copies)@ + old(queue)@,
        old(copies)@.len() < sought ==> final(copies)@.len() == old(copies)@.len(),
        0 < sought <= old(copies)@.len() ==> final(copies)@.len() == sought - 1,
        sought == 0 ==> final(copies)@.len() == 0,
{
    assert(copies@ =~= old(copies)@.take(copies@.len() as int));
    assert(queue@ =~= old(copies)@.skip(copies@.len() as int) + old(queue)@);
    while copies.len() >= sought && copies.len() > 0
        invariant
            copies@.len() <= old(copies)@.len(),
            copies@.len() >= kept_copies(old(copies)@.len(), sought as nat),
            copies@ =~= old(copies)@.take(copies@.len() as int),
            queue@ =~= old(copies)@.skip(copies@.len() as int) + old(queue)@,
        decreases copies@.len(),
    {
        if let Some(copy) = copies.pop() {
            assert(copy == old(copies)@[copies@.len() as int]);
            queue.insert(0, copy);
        }
    }
}

/// A play list: streamers that are still to come, copies of those that have
/// started, and the transport.
pub struct PlayListStreamer<S> {
    streamers: Vec<S>,
    respawned: Vec<S>,
    cross_fade_type: CrossFadeType,
    control: ControlHandle,
    command_rx: Receiver<ControlCommand>,
    current: Option<ControlHandle>,
    mixing: bool,
    stopped: bool,
    sought: bool,
    played_so_far: Seconds,
    current_track: u16,
    next_run: Option<Seconds>,
    last_seek_position: u64,
    current_list_index: u16,
}

/// What can be said of a play list.
pub ghost struct PlayListView<S> {
    /// The streamers that are still to come.
    pub queue: Seq<S>,
    /// Fresh copies of those that have started.
    pub copies: Seq<S>,
    pub fade: CrossFadeType,
    /// Controls what plays now.
    pub current: Option<ControlHandle>,
    /// What plays now is a mix, for the crossfades.
    pub mixing: bool,
    pub stopped: bool,
    /// A seek has found its place, and the list is to go on from there.
    pub sought: bool,
    /// The durations of the streamers that have played, added up.
    pub played: Seconds,
    /// How many crossfades have started.
    pub track: u16,
    /// When the next crossfade is due, once one was asked for.
    pub next_run: Option<Seconds>,
    /// Controls the list.
    pub control: ControlHandle,
    /// Where the commands for the list come from.
    pub commands: Receiver<ControlCommand>,
    /// The last seek position.
    pub seek_position: u64,
    pub list_index: u16,
}

impl<S> View for PlayListStreamer<S> {
    type V = PlayListView<S>;

    closed spec fn view(&self) -> PlayListView<S> {
        PlayListView {
            queue: self.streamers@,
            copies: self.respawned@,
            fade: self.cross_fade_type,
            current: self.current,
            mixing: self.mixing,
            stopped: self.stopped,
            sought: self.sought,
            played: self.played_so_far,
            track: self.current_track,
            next_run: self.next_run,
            control: self.control,
            commands: self.command_rx,
            seek_position: self.last_seek_position,
            list_index: self.current_list_index,
        }
    }
}

impl<S> PlayListView<S> {
    /// A list of streamers, of which none has started and which nobody has told anything.
    pub open spec fn is_fresh(self, queue: Seq<S>, fade: CrossFadeType) -> bool {
        &&& self == (PlayListView {
            queue,
            copies: Seq::<S>::empty(),
            fade,
            current: None,
            mixing: false,
            stopped: false,
            sought: false,
            played: Seconds { bits: 0 },
            track: 0,
            next_run: None,
            seek_position: NO_SEEK,
            list_index: NO_POS,
            control: self.control,
            commands: self.commands,
        })
        &&& self.control.is_fresh()
        &&& self.control.feeds(self.commands)
        &&& commands_received(self.commands) == Seq::<Option<ControlCommand>>::empty()
    }

    /// `self` is `list` after it was told a command, and `result` is what is left to do.
    pub open spec fn has_taken(
        self,
        list: PlayListView<S>,
        command: ControlCommand,
        result: Result<ListAction, StreamErr>,
    ) -> bool {
        match command {
            ControlCommand::Seek(time) => {
                let left = Seconds::of_count(time).difference(list.played);
                let goes = list.current is Some && !list.mixing;
                &&& self == (PlayListView {
                    stopped: list.stopped || goes,
                    ..list
                })
                &&& result == Ok::<ListAction, StreamErr>(
                    if goes && !left.below_zero() {
                        ListAction::Walk((SeekWalk { time: left, prev_time: left, sought: 0 }))
                    } else {
                        ListAction::Handled
                    },
                )
            },
            ControlCommand::Rewind => {
                let goes = list.current is Some && !list.mixing;
                let start = Seconds { bits: 0 };
                &&& self == (PlayListView {
                    stopped: list.stopped || goes,
                    ..list
                })
                &&& result == Ok::<ListAction, StreamErr>(
                    if goes {
                        ListAction::Walk((SeekWalk { time: start, prev_time: start, sought: 0 }))
                    } else {
                        ListAction::Handled
                    },
                )
            },
            _ => match list.current {
                None => {
                    &&& result == Ok::<ListAction, StreamErr>(ListAction::Handled)
                    &&& self == list
                },
                Some(before) => {
                    &&& self.current matches Some(after)
                    &&& after.flag() == before.flag()
                    &&& after.controls_like(before)
                    &&& after.sent() == before.sent().push((command, result is Ok))
                    &&& result is Ok ==> result == Ok::<ListAction, StreamErr>(
                        ListAction::Handled,
                    )
                    &&& result is Err ==> result == Err::<ListAction, StreamErr>(
                        StreamErr::SendError,
                    )
                    &&& self == (PlayListView {
                        current: Some(after),
                        stopped: list.stopped || (command == ControlCommand::Stop
                            && result is Ok),
                        sought: list.sought && !(command == ControlCommand::Stop
                            && result is Ok),
                        ..list
                    })
                },
            },
        }
    }

    /// After a fresh copy of a streamer was kept, if there is one.
    pub open spec fn kept(self, copy: Result<S, StreamErr>) -> PlayListView<S> {
        PlayListView {
            copies: (match copy {
                Ok(s) => self.copies.push(s),
                Err(_) => self.copies,
            }),
            ..self
        }
    }

    /// After kept copies went back in front of the queue for a seek, and what played was
    /// told to stop.
    pub open spec fn requeued(self, current: Option<ControlHandle>, sought: nat) -> PlayListView<S> {
        let kept = kept_copies(self.copies.len(), sought) as int;
        PlayListView {
            current,
            sought: true,
            copies: self.copies.take(kept),
            queue: self.copies.skip(kept) + self.queue,
            ..self
        }
    }

    /// After the list went on from its queue, if it was to. If no copy is kept, nothing has
    /// been played any more.
    pub open spec fn restarted(self) -> PlayListView<S> {
        if !self.sought {
            self
        } else {
            PlayListView {
                stopped: false,
                sought: false,
                played: (if self.copies.len() == 0 {
                    Seconds { bits: 0 }
                } else {
                    self.played
                }),
                ..self
            }
        }
    }

    /// After a crossfade was due: the streamer that comes, if there is one left, is taken.
    pub open spec fn due(self) -> PlayListView<S> {
        PlayListView {
            queue: (if self.queue.len() == 0 {
                self.queue
            } else {
                self.queue.skip(1)
            }),
            track: self.track.wrapping_add(1),
            ..self
        }
    }

    /// After a crossfade started that was due at `cutoff`, to a streamer that lasts
    /// `duration`: if that is known, the next one is asked for.
    pub open spec fn crossfaded(
        self,
        copy: Result<S, StreamErr>,
        duration: Option<Seconds>,
        cutoff: Seconds,
    ) -> PlayListView<S> {
        PlayListView {
            next_run: (match duration {
                Some(d) => Some(next_cutoff(cutoff, d, fade_seconds(self.fade))),
                None => self.next_run,
            }),
            ..self.kept(copy)
        }
    }
}

/// What a play list does with a command.
#[derive(Debug, Clone, Copy, PartialEq, Eq, Structural)]
pub enum ListAction {
    /// Nothing more is to be done.
    Handled,
    /// Look for the streamer that the seek goes to, then go there.
    Walk(SeekWalk),
}

impl<S> PlayListStreamer<S> {
    /// A list of streamers, of which none has started.
    pub fn new(streamers: Vec<S>, cross_fade_type: CrossFadeType) -> (list: Self)
        ensures
            list@.is_fresh(streamers@, cross_fade_type),
            list@.queue == streamers@,
            list@.copies.len() == 0,
            list@.fade == cross_fade_type,
            list@.current is None,
            !list@.mixing && !list@.stopped && !list@.sought,
            list@.played.bits == 0,
            list@.track == 0,
            list@.next_run is None,
            list@.seek_position == u64::MAX,
            list@.list_index == u16::MAX,
            list@.control.sent().len() == 0,
            list@.control.limit() == 4,
            !list@.control.pause_requested(),
            list@.control.feeds(list@.commands),
            commands_received(list@.commands).len() == 0,
    {
        let (control, command_rx): (ControlHandle, Receiver<ControlCommand>) = ControlHandle::new();
        let list: PlayListStreamer<S> = PlayListStreamer {
            streamers,
            respawned: Vec::new(),
            cross_fade_type,
            control,
            command_rx,
            current: None,
            mixing: false,
            stopped: false,
            sought: false,
            played_so_far: Seconds { bits: 0 },
            current_track: 0,
            next_run: None,
            last_seek_position: NO_SEEK,
            current_list_index: NO_POS,
        };
        assert(list@.copies =~= Seq::<S>::empty());
        list
    }

    /// Starts the list on an output, given the duration of its first streamer. With a
    /// crossfade the first streamer comes back, to play in a mix.
    pub fn play(&mut self, output_info: DeviceOutputInfo, first_duration: Option<Seconds>) -> (start:
        (PlayMode, Option<S>))
        ensures
            ({
                let fade = fade_seconds(old(self)@.fade);
                if old(self)@.queue.len() == 0 {
                    &&& start == (PlayMode::Empty, None::<S>)
                    &&& final(self)@ == old(self)@
                } else if not_above_zero(fade) || first_duration is None {
                    &&& start == (PlayMode::Sequential, None::<S>)
                    &&& final(self)@ == old(self)@
                } else {
                    &&& start == (
                        (PlayMode::CrossFade {
                            fade_samples: as_index(output_samples(fade, output_info)),
                            cutoff: first_duration->0.difference(fade).clipped(),
                        }),
                        Some(old(self)@.queue[0]),
                    )
                    &&& final(self)@ == (PlayListView {
                        queue: old(self)@.queue.skip(1),
                        next_run: Some(first_duration->0.difference(fade).clipped()),
                        ..old(self)@
                    })
                }
            }),
            start.0 == PlayMode::Empty <==> old(self)@.queue.len() == 0,
            old(self)@.fade is NoFade ==> !(start.0 is CrossFade),
            first_duration is None ==> !(start.0 is CrossFade),
            start.0 is CrossFade <==> start.1 is Some,
            !(start.0 is CrossFade) ==> final(self)@ == old(self)@,
            start.1 matches Some(first) ==> seq![first] + final(self)@.queue == old(self)@.queue,
            // There is a crossfade exactly if the fade is above zero, or is a NaN, and the
            // duration of the first streamer is known. It starts that much before the end, or
            // at once.
            ({
                let fade = match old(self)@.fade {
                    CrossFadeType::Linear(f) => Seconds::widened(f),
                    CrossFadeType::Logarithmic(f) => Seconds::widened(f),
                    CrossFadeType::NoFade => Seconds { bits: 0 },
                };
                let samples = fade.count_of((output_info.channels * output_info.sample_rate) as u64);
                let left = first_duration->0.difference(fade);
                &&& start.0 is CrossFade <==> old(self)@.queue.len() > 0 && (fade.above_zero()
                    || fade.is_nan()) && first_duration is Some
                &&& start.0 matches PlayMode::CrossFade { fade_samples, cutoff } ==> {
                    &&& samples <= usize::MAX ==> fade_samples == samples
                    &&& samples > usize::MAX ==> fade_samples == usize::MAX
                    &&& left.above_zero() ==> cutoff == left
                    &&& !left.above_zero() ==> cutoff.bits == 0
                    &&& final(self)@.next_run == Some(cutoff)
                }
            }),
            final(self)@.copies == old(self)@.copies,
            final(self)@.fade == old(self)@.fade,
            final(self)@.current == old(self)@.current,
            final(self)@.mixing == old(self)@.mixing,
            final(self)@.stopped == old(self)@.stopped,
            final(self)@.played == old(self)@.played,
            final(self)@.control == old(self)@.control,
            final(self)@.commands == old(self)@.commands,
    {
        if self.streamers.len() == 0 {
            return (PlayMode::Empty, None);
        }
        let fade: Seconds = match self.cross_fade_type {
            CrossFadeType::Linear(f) => Seconds::from_single(f),
            CrossFadeType::Logarithmic(f) => Seconds::from_single(f),
            CrossFadeType::NoFade => Seconds { bits: 0 },
        };
        let duration: Seconds = match first_duration {
            None => {
                return (PlayMode::Sequential, None);
            },
            Some(duration) => duration,
        };
        if !fade.is_above_zero() && !fade.is_not_a_number() {
            return (PlayMode::Sequential, None);
        }
        let samples: u64 = seconds_to_samples(fade, output_info);
        let fade_samples: usize = if samples > usize::MAX as u64 {
            usize::MAX
        } else {
            samples as usize
        };
        let first: S = self.streamers.remove(0);
        assert(old(self)@.queue.remove(0) =~= old(self)@.queue.skip(1));
        assert(seq![first] + self@.queue =~= old(self)@.queue);
        let cutoff: Seconds = duration.minus(fade).clip();
        self.next_run = Some(cutoff);
        (PlayMode::CrossFade { fade_samples, cutoff }, Some(first))
    }

    /// The next streamer to play, unless the list was stopped or is at its end.
    pub fn next_track(&mut self) -> (next: NextTrack<S>)
        ensures
            if old(self)@.stopped {
                next == NextTrack::<S>::Stopped && final(self)@ == old(self)@
            } else if old(self)@.queue.len() == 0 {
                next == NextTrack::<S>::Exhausted && final(self)@ == old(self)@
            } else {
                &&& next == NextTrack::Play(old(self)@.queue[0])
                &&& final(self)@ == (PlayListView { queue: old(self)@.queue.skip(1), ..old(self)@ })
            },
    {
        if self.stopped {
            return NextTrack::Stopped;
        }
        if self.streamers.len() == 0 {
            return NextTrack::Exhausted;
        }
        let next: S = self.streamers.remove(0);
        assert(old(self)@.queue.remove(0) =~= old(self)@.queue.skip(1));
        NextTrack::Play(next)
    }

    /// A streamer starts to play under a handle. A fresh copy of it, if there is one,
    /// is kept.
    pub fn track_started(&mut self, handle: ControlHandle, copy: Result<S, StreamErr>)
        ensures
            final(self)@ == (PlayListView { current: Some(handle), ..old(self)@.kept(copy) }),
            copy matches Ok(s) ==> final(self)@.copies == old(self)@.copies.push(s),
            copy is Err ==> final(self)@.copies == old(self)@.copies,
            final(self)@.queue == old(self)@.queue,
            final(self)@.mixing == old(self)@.mixing,
            final(self)@.stopped == old(self)@.stopped,
            final(self)@.sought == old(self)@.sought,
            final(self)@.played == old(self)@.played,
            final(self)@.fade == old(self)@.fade,
            final(self)@.track == old(self)@.track,
            final(self)@.next_run == old(self)@.next_run,
            final(self)@.control == old(self)@.control,
            final(self)@.commands == old(self)@.commands,
    {
        self.current = Some(handle);
        self.keep(copy);
    }

    /// Keeps a fresh copy of a streamer that is about to play, if there is one.
    fn keep(&mut self, copy: Result<S, StreamErr>)
        ensures
            final(self)@ == old(self)@.kept(copy),
    {
        match copy {
            Ok(s) => {
                self.respawned.push(s);
            },
            Err(_) => {},
        }
    }

    /// A streamer has played to its end: its duration, if it has one, counts as played. If
    /// it failed, nothing does, and the list ends. The result says whether the list goes on.
    pub fn track_finished(
        &mut self,
        outcome: Result<(), StreamErr>,
        duration: Option<Seconds>,
    ) -> (goes_on: bool)
        ensures
            goes_on == outcome is Ok,
            final(self)@ == (PlayListView {
                played: (match (outcome, duration) {
                    (Ok(_), Some(d)) => old(self)@.played.sum(d),
                    _ => old(self)@.played,
                }),
                ..old(self)@
            }),
    {
        if outcome.is_err() {
            return false;
        }
        if let Some(d) = duration {
            self.played_so_far = self.played_so_far.plus(d);
        }
        true
    }

    /// The mix for the crossfades starts under its handle. A fresh copy of it, if
    /// there is one, is kept.
    pub fn mix_started(&mut self, handle: ControlHandle, copy: Result<S, StreamErr>)
        ensures
            final(self)@ == (PlayListView {
                current: Some(handle),
                mixing: true,
                ..old(self)@.kept(copy)
            }),
            copy matches Ok(s) ==> final(self)@.copies == old(self)@.copies.push(s),
            copy is Err ==> final(self)@.copies == old(self)@.copies,
            final(self)@.queue == old(self)@.queue,
            final(self)@.stopped == old(self)@.stopped,
            final(self)@.sought == old(self)@.sought,
            final(self)@.played == old(self)@.played,
            final(self)@.fade == old(self)@.fade,
            final(self)@.track == old(self)@.track,
            final(self)@.next_run == old(self)@.next_run,
            final(self)@.control == old(self)@.control,
            final(self)@.commands == old(self)@.commands,
    {
        self.mixing = true;
        self.track_started(handle, copy);
    }

    /// A crossfade is due: the streamer that comes, if there is one left.
    pub fn crossfade_due(&mut self) -> (next: Option<S>)
        ensures
            next == (if old(self)@.queue.len() == 0 {
                None
            } else {
                Some(old(self)@.queue[0])
            }),
            final(self)@ == old(self)@.due(),
            next matches Some(s) ==> seq![s] + final(self)@.queue == old(self)@.queue,
            next is None ==> final(self)@.queue == old(self)@.queue,
            final(self)@.track == old(self)@.track.wrapping_add(1),
            final(self)@.copies == old(self)@.copies,
            final(self)@.current == old(self)@.current,
            final(self)@.mixing == old(self)@.mixing,
            final(self)@.stopped == old(self)@.stopped,
            final(self)@.sought == old(self)@.sought,
            final(self)@.played == old(self)@.played,
            final(self)@.fade == old(self)@.fade,
            final(self)@.next_run == old(self)@.next_run,
            final(self)@.control == old(self)@.control,
            final(self)@.commands == old(self)@.commands,
    {
        self.current_track = self.current_track.wrapping_add(1);
        if self.streamers.len() == 0 {
            return None;
        }
        let next: S = self.streamers.remove(0);
        assert(old(self)@.queue.remove(0) =~= old(self)@.queue.skip(1));
        assert(seq![next] + self@.queue =~= old(self)@.queue);
        Some(next)
    }

    /// A crossfade starts that was due at `cutoff`: the streamer that goes fades out,
    /// the one that comes fades in, and a fresh copy of it, if there is one, is kept.
    /// The result is when the next crossfade is due, if the duration of the one that
    /// comes is known.
    pub fn crossfade(
        &mut self,
        copy: Result<S, StreamErr>,
        duration: Option<Seconds>,
        outgoing: &mut ControlHandle,
        incoming: &mut ControlHandle,
        fade_samples: usize,
        cutoff: Seconds,
    ) -> (next: Option<Seconds>)
        ensures
            final(self)@ == old(self)@.crossfaded(copy, duration, cutoff),
            has_faded(
                *final(outgoing),
                *old(outgoing),
                fades(old(self)@.fade, fade_samples).1,
            ),
            has_faded(
                *final(incoming),
                *old(incoming),
                fades(old(self)@.fade, fade_samples).0,
            ),
            next == (match duration {
                Some(d) => Some(next_cutoff(cutoff, d, fade_seconds(old(self)@.fade))),
                None => None,
            }),
            final(outgoing).controls_like(*old(outgoing)),
            final(outgoing).sent().len() == old(outgoing).sent().len() + 1,
            final(outgoing).sent().drop_last() == old(outgoing).sent(),
            final(outgoing).sent().last().0 == ControlCommand::AddGainFunction(
                if old(self)@.fade is Logarithmic {
                    GainFunction::FadeOutLog(fade_samples)
                } else {
                    GainFunction::FadeOutLinear(fade_samples)
                },
            ),
            final(incoming).controls_like(*old(incoming)),
            final(incoming).sent().len() == old(incoming).sent().len() + 1,
            final(incoming).sent().drop_last() == old(incoming).sent(),
            final(incoming).sent().last().0 == ControlCommand::AddGainFunction(
                if old(self)@.fade is Logarithmic {
                    GainFunction::FadeInLog(fade_samples)
                } else {
                    GainFunction::FadeInLinear(fade_samples)
                },
            ),
            next is Some <==> duration is Some,
            next is Some ==> final(self)@.next_run == next,
            next is None ==> final(self)@.next_run == old(self)@.next_run,
            // The next one is as much later as the streamer that comes lasts beyond the fade,
            // which is nothing if it is shorter.
            ({
                let fade = match old(self)@.fade {
                    CrossFadeType::Linear(f) => Seconds::widened(f),
                    CrossFadeType::Logarithmic(f) => Seconds::widened(f),
                    CrossFadeType::NoFade => Seconds { bits: 0 },
                };
                let beyond = duration->0.difference(fade);
                &&& duration is Some && beyond.above_zero() ==> next == Some(cutoff.sum(beyond))
                &&& duration is Some && !beyond.above_zero() ==> next == Some(
                    cutoff.sum(Seconds { bits: 0 }),
                )
            }),
            copy matches Ok(s) ==> final(self)@.copies == old(self)@.copies.push(s),
            copy is Err ==> final(self)@.copies == old(self)@.copies,
            final(self)@.queue == old(self)@.queue,
            final(self)@.current == old(self)@.current,
            final(self)@.mixing == old(self)@.mixing,
            final(self)@.stopped == old(self)@.stopped,
            final(self)@.sought == old(self)@.sought,
            final(self)@.played == old(self)@.played,
            final(self)@.fade == old(self)@.fade,
            final(self)@.track == old(self)@.track,
            final(self)@.control == old(self)@.control,
            final(self)@.commands == old(self)@.commands,
    {
        self.keep(copy);
        let (fade_in, fade_out): (GainFunction, GainFunction) = build_fades(
            self.cross_fade_type,
            fade_samples,
        );
        // A streamer that is gone has nothing left to fade.
        let _ = outgoing.add_gain_function(fade_out);
        let _ = incoming.add_gain_function(fade_in);
        assert(outgoing.sent().drop_last() =~= old(outgoing).sent());
        assert(incoming.sent().drop_last() =~= old(incoming).sent());
        match duration {
            Some(d) => {
                let fade: Seconds = match self.cross_fade_type {
                    CrossFadeType::Linear(f) => Seconds::from_single(f),
                    CrossFadeType::Logarithmic(f) => Seconds::from_single(f),
                    CrossFadeType::NoFade => Seconds { bits: 0 },
                };
                let next: Seconds = cutoff.plus(d.minus(fade).clip());
                self.next_run = Some(next);
                Some(next)
            },
            None => None,
        }
    }

    /// The list is told a command. A stop and the gain commands go to what plays now. A
    /// seek and a rewind mark the list as stopped, so that it does not go on where it is,
    /// unless nothing plays or crossfades are on. A seek then looks for its place, unless it
    /// goes back; a rewind has nowhere to look and finds its place at once.
    pub fn command(&mut self, command: ControlCommand) -> (result: Result<ListAction, StreamErr>)
        ensures
            final(self)@.has_taken(old(self)@, command, result),
            // A stop and the gains go to what plays, be it a streamer or a mix.
            !(command is Seek) && !(command is Rewind) && old(self)@.current is Some ==> {
                let before = old(self)@.current->0;
                &&& final(self)@.current is Some
                &&& final(self)@.current->0.sent() == before.sent().push((command, result is Ok))
                &&& final(self)@.current->0.controls_like(before)
                &&& final(self)@.current->0.flag() == before.flag()
                &&& command is Stop && result is Ok ==> final(self)@.stopped
                    && !final(self)@.sought
                &&& !(command is Stop && result is Ok) ==> final(self)@.stopped == old(self)@.stopped
                    && final(self)@.sought == old(self)@.sought
                &&& result is Ok ==> result->Ok_0 == ListAction::Handled
                &&& result is Err ==> result->Err_0 == StreamErr::SendError
            },
            old(self)@.current is None ==> final(self)@ == old(self)@ && result == Ok::<
                ListAction,
                StreamErr,
            >(ListAction::Handled),
            // A seek or a rewind without crossfades stops the loop that plays.
            (command is Seek || command is Rewind) && old(self)@.current is Some ==> {
                &&& final(self)@.current == old(self)@.current
                &&& final(self)@.sought == old(self)@.sought
                &&& final(self)@.stopped == (old(self)@.stopped || !old(self)@.mixing)
                &&& result is Ok
                &&& old(self)@.mixing ==> result->Ok_0 == ListAction::Handled
                &&& command is Rewind && !old(self)@.mixing ==> result->Ok_0 == ListAction::Walk(
                    (SeekWalk {
                        time: Seconds { bits: 0 },
                        prev_time: Seconds { bits: 0 },
                        sought: 0,
                    }),
                )
            },
            command matches ControlCommand::Seek(time) ==> old(self)@.current is Some && !old(
                self,
            )@.mixing ==> {
                let left = Seconds::of_count(time).difference(old(self)@.played);
                &&& left.below_zero() ==> result->Ok_0 == ListAction::Handled
                &&& !left.below_zero() ==> result->Ok_0 == ListAction::Walk(
                    (SeekWalk { time: left, prev_time: left, sought: 0 }),
                )
            },
            final(self)@.queue == old(self)@.queue,
            final(self)@.copies == old(self)@.copies,
            final(self)@.fade == old(self)@.fade,
            final(self)@.mixing == old(self)@.mixing,
            final(self)@.played == old(self)@.played,
            final(self)@.track == old(self)@.track,
            final(self)@.next_run == old(self)@.next_run,
            final(self)@.control == old(self)@.control,
            final(self)@.commands == old(self)@.commands,
            final(self)@.seek_position == old(self)@.seek_position,
            final(self)@.list_index == old(self)@.list_index,
    {
        match command {
            ControlCommand::Seek(time) => {
                if self.current.is_none() || self.mixing {
                    return Ok(ListAction::Handled);
                }
                self.stopped = true;
                let left: Seconds = Seconds::from_count(time).minus(self.played_so_far);
                if left.is_below_zero() {
                    Ok(ListAction::Handled)
                } else {
                    Ok(ListAction::Walk(SeekWalk { time: left, prev_time: left, sought: 0 }))
                }
            },
            ControlCommand::Rewind => {
                if self.current.is_none() || self.mixing {
                    return Ok(ListAction::Handled);
                }
                self.stopped = true;
                let start: Seconds = Seconds { bits: 0 };
                Ok(ListAction::Walk(SeekWalk { time: start, prev_time: start, sought: 0 }))
            },
            _ => {
                let mut current: Option<ControlHandle> = None;
                std::mem::swap(&mut current, &mut self.current);
                match current {
                    None => Ok(ListAction::Handled),
                    Some(mut handle) => {
                        let result: Result<(), StreamErr> = handle.send(command);
                        self.current = Some(handle);
                        match result {
                            Ok(_) => {
                                if command == ControlCommand::Stop {
                                    self.stopped = true;
                                    self.sought = false;
                                }
                                Ok(ListAction::Handled)
                            },
                            Err(e) => Err(e),
                        }
                    },
                }
            },
        }
    }

    /// One turn of a list that takes commands. While the list is paused it takes none.
    /// Otherwise it takes the next, if one is waiting, and the result is what is left to do.
    /// What the flag is read to be and which command is waiting is not stated: other threads
    /// set the flag and send.
    pub fn turn(&mut self, paused: &mut SharedFlag) -> (taken: Option<
        Result<ListAction, StreamErr>,
    >)
        ensures
            flag_loads(*final(paused)).len() == flag_loads(*old(paused)).len() + 1,
            flag_loads(*final(paused)).drop_last() == flag_loads(*old(paused)),
            flag_stores(*final(paused)) == flag_stores(*old(paused)),
            final(paused).is_handle_like(*old(paused)),
            forall|handle: ControlHandle|
                #[trigger] handle.feeds(final(self)@.commands) == handle.feeds(old(self)@.commands),
            if flag_loads(*final(paused)).last() {
                taken is None && final(self)@ == old(self)@
            } else {
                let received = commands_received(final(self)@.commands);
                let list = PlayListView { commands: final(self)@.commands, ..old(self)@ };
                &&& received.len() == commands_received(old(self)@.commands).len() + 1
                &&& received.drop_last() == commands_received(old(self)@.commands)
                &&& match received.last() {
                    None => taken is None && final(self)@ == list,
                    Some(command) => taken matches Some(result) && final(self)@.has_taken(
                        list,
                        command,
                        result,
                    ),
                }
            },
    {
        let waits: bool = paused.load();
        assert(flag_loads(*paused).drop_last() =~= flag_loads(*old(paused)));
        if waits {
            return None;
        }
        let command: Option<ControlCommand> = next_command(&mut self.command_rx);
        let ghost list = self@;
        assert(list == (PlayListView { commands: self@.commands, ..old(self)@ }));
        assert(commands_received(list.commands).drop_last() =~= commands_received(
            old(self)@.commands,
        ));
        match command {
            None => None,
            Some(command) => {
                let result: Result<ListAction, StreamErr> = self.command(command);
                assert(self@.commands == list.commands);
                Some(result)
            },
        }
    }

    /// A seek has found its place: what plays now is stopped, and the kept copies go
    /// back in front of the streamers that are still to come.
    pub fn seek_found(&mut self, walk: SeekWalk) -> (result: Result<(), StreamErr>)
        ensures
            match old(self)@.current {
                None => {
                    &&& result == Ok::<(), StreamErr>(())
                    &&& final(self)@ == old(self)@
                },
                Some(before) => {
                    &&& final(self)@.current matches Some(after)
                    &&& after.has_sent(before, ControlCommand::Stop, result)
                    &&& result is Err ==> final(self)@ == (PlayListView {
                        current: Some(after),
                        ..old(self)@
                    })
                    &&& result is Ok ==> final(self)@ == old(self)@.requeued(
                        Some(after),
                        walk.sought as nat,
                    )
                },
            },
            final(self)@.copies + final(self)@.queue == old(self)@.copies + old(self)@.queue,
            old(self)@.current is Some ==> {
                let before = old(self)@.current->0;
                &&& final(self)@.current is Some
                &&& final(self)@.current->0.sent() == before.sent().push(
                    (ControlCommand::Stop, result is Ok),
                )
                &&& final(self)@.current->0.controls_like(before)
                &&& result is Ok ==> {
                    &&& final(self)@.sought
                    &&& walk.sought == 0 ==> final(self)@.copies.len() == 0
                    &&& 0 < walk.sought <= old(self)@.copies.len() ==> final(self)@.copies.len()
                        == walk.sought - 1
                    &&& walk.sought > old(self)@.copies.len() ==> final(self)@.copies.len() == old(
                        self,
                    )@.copies.len()
                }
                &&& result is Err ==> final(self)@.copies == old(self)@.copies
                    && final(self)@.sought == old(self)@.sought
            },
            final(self)@.fade == old(self)@.fade,
            final(self)@.mixing == old(self)@.mixing,
            final(self)@.stopped == old(self)@.stopped,
            final(self)@.played == old(self)@.played,
            final(self)@.track == old(self)@.track,
            final(self)@.next_run == old(self)@.next_run,
            final(self)@.control == old(self)@.control,
            final(self)@.commands == old(self)@.commands,
    {
        let mut current: Option<ControlHandle> = None;
        std::mem::swap(&mut current, &mut self.current);
        match current {
            None => Ok(()),
            Some(mut handle) => {
                let result: Result<(), StreamErr> = handle.stop();
                self.current = Some(handle);
                if result.is_ok() {
                    requeue(&mut self.respawned, &mut self.streamers, walk.sought);
                    self.sought = true;
                }
                result
            },
        }
    }

    /// What played when a seek found its place has ended: the list goes on from its queue,
    /// unless it was stopped since. The result says whether it does.
    pub fn restart(&mut self) -> (goes_on: bool)
        ensures
            goes_on == old(self)@.sought,
            final(self)@ == old(self)@.restarted(),
            !goes_on ==> final(self)@ == old(self)@,
            goes_on ==> !final(self)@.stopped && !final(self)@.sought,
            goes_on && old(self)@.copies.len() == 0 ==> final(self)@.played.bits == 0,
            old(self)@.copies.len() > 0 ==> final(self)@.played == old(self)@.played,
            final(self)@.queue == old(self)@.queue,
            final(self)@.copies == old(self)@.copies,
            final(self)@.fade == old(self)@.fade,
            final(self)@.current == old(self)@.current,
            final(self)@.mixing == old(self)@.mixing,
            final(self)@.track == old(self)@.track,
            final(self)@.next_run == old(self)@.next_run,
            final(self)@.control == old(self)@.control,
            final(self)@.commands == old(self)@.commands,
    {
        if !self.sought {
            return false;
        }
        self.sought = false;
        self.stopped = false;
        if self.respawned.len() == 0 {
            self.played_so_far = Seconds { bits: 0 };
        }
        true
    }

    /// A fresh list, out of fresh copies of the streamers that are still to come. If
    /// one of them could not be copied, that is the result.
    pub fn respawn(&self, copies: Vec<Result<S, StreamErr>>) -> (result: Result<Self, StreamErr>)
        requires
            copies@.len() == self@.queue.len(),
        ensures
            match result {
                Ok(list) => {
                    &&& forall|i: int| 0 <= i < copies@.len() ==> #[trigger] copies@[i] is Ok
                    &&& list@.is_fresh(
                        copies@.map_values(|c: Result<S, StreamErr>| c->Ok_0),
                        self@.fade,
                    )
                    &&& list@.queue.len() == copies@.len()
                    &&& forall|i: int|
                        0 <= i < copies@.len() ==> copies@[i] == Ok::<S, StreamErr>(
                            #[trigger] list@.queue[i],
                        )
                    &&& list@.fade == self@.fade
                    &&& list@.copies.len() == 0
                    &&& list@.current is None
                    &&& !list@.mixing && !list@.stopped && !list@.sought
                    &&& list@.played.bits == 0
                    &&& list@.track == 0
                    &&& list@.next_run is None
                    &&& list@.control.sent().len() == 0
                    &&& !list@.control.pause_requested()
                    &&& list@.control.feeds(list@.commands)
                },
                Err(e) => exists|i: int|
                    #![trigger copies@[i]]
                    0 <= i < copies@.len() && copies@[i] == Err::<S, StreamErr>(e) && forall|j: int|
                        0 <= j < i ==> #[trigger] copies@[j] is Ok,
            },
    {
        match all_copies(copies) {
            Ok(streamers) => Ok(PlayListStreamer::new(streamers, self.cross_fade_type)),
            Err(e) => Err(e),
        }
    }

    /// The handle that controls the list.
    pub fn control_handle(&self) -> (handle: ControlHandle)
        ensures
            handle.controls_like(self@.control),
            handle.sent() == Seq::<(ControlCommand, bool)>::empty(),
            flag_stores(handle.flag()) == Seq::<bool>::empty(),
            flag_loads(handle.flag()) == Seq::<bool>::empty(),
    {
        self.control.clone()
    }

    /// The last seek position.
    pub fn last_seek_position(&self) -> (position: u64)
        ensures
            position == self@.seek_position,
    {
        self.last_seek_position
    }

    /// When the next crossfade is due, once one was asked for.
    pub fn next_crossfade(&self) -> (time: Option<Seconds>)
        ensures
            time == self@.next_run,
    {
        self.next_run
    }

    /// The streamers that are still to come.
    pub fn queue(&self) -> (streamers: &Vec<S>)
        ensures
            streamers@ == self@.queue,
    {
        &self.streamers
    }

    /// Where the commands for the list come from.
    pub fn command_receiver(&self) -> (receiver: &Receiver<ControlCommand>)
        ensures
            *receiver == self@.commands,
    {
        &self.command_rx
    }
}

/// `after` is `before` after a gain was sent through it, whether or not there still
/// was a streamer to take it.
pub open spec fn has_faded(after: ControlHandle, before: ControlHandle, gain: GainFunction) -> bool {
    &&& after.flag() == before.flag()
    &&& after.controls_like(before)
    &&& after.sent() == before.sent().push((ControlCommand::AddGainFunction(gain), true))
        || after.sent() == before.sent().push((ControlCommand::AddGainFunction(gain), false))
}

/// All the values, or the first error.
fn all_copies<S>(copies: Vec<Result<S, StreamErr>>) -> (result: Result<Vec<S>, StreamErr>)
    ensures
        match result {
            Ok(all) => {
                &&& forall|i: int| 0 <= i < copies@.len() ==> #[trigger] copies@[i] is Ok
                &&& all@ == copies@.map_values(|c: Result<S, StreamErr>| c->Ok_0)
            },
            Err(e) => exists|i: int|
                #![trigger copies@[i]]
                0 <= i < copies@.len() && copies@[i] == Err::<S, StreamErr>(e) && forall|j: int|
                    0 <= j < i ==> #[trigger] copies@[j] is Ok,
        },
{
    let ghost given = copies@;
    let mut left: Vec<Result<S, StreamErr>> = copies;
    let mut all: Vec<S> = Vec::new();
    let ghost mut done: int = 0;
    while left.len() > 0
        invariant
            given == copies@,
            0 <= done <= given.len(),
            left@ =~= given.skip(done),
            forall|i: int| 0 <= i < done ==> #[trigger] given[i] is Ok,
            all@ =~= given.take(done).map_values(|c: Result<S, StreamErr>| c->Ok_0),
        decreases left@.len(),
    {
        assert(given.skip(done).remove(0) =~= given.skip(done + 1));
        match left.remove(0) {
            Ok(s) => {
                assert(given[done] == Ok::<S, StreamErr>(s));
                all.push(s);
                proof {
                    done = done + 1;
                }
            },
            Err(e) => {
                assert(given[done] == Err::<S, StreamErr>(e));
                return Err(e);
            },
        }
    }
    assert(given.take(done) =~= given);
    Ok(all)
}

/// Whatever plays, a streamer or a mix, gets a stop and the gains, whether or not crossfades
/// are on: exactly that command goes out through the handle of what plays. A stop that went
/// out stops the list.
pub proof fn law_command_reaches_what_plays<S>(
    before: PlayListView<S>,
    after: PlayListView<S>,
    command: ControlCommand,
    result: Result<ListAction, StreamErr>,
)
    requires
        after.has_taken(before, command, result),
        before.current is Some,
        !(command is Seek),
        !(command is Rewind),
    ensures
        after.current is Some,
        after.current->0.sent().len() == before.current->0.sent().len() + 1,
        after.current->0.sent().drop_last() == before.current->0.sent(),
        after.current->0.sent().last() == (command, result is Ok),
        command is Stop && result is Ok ==> after.stopped && !after.sought,
        !(command is Stop && result is Ok) ==> after.stopped == before.stopped && after.sought
            == before.sought,
        result is Ok ==> result->Ok_0 == ListAction::Handled,
        result is Err ==> result->Err_0 == StreamErr::SendError,
        after.current->0.controls_like(before.current->0),
        after.current->0.flag() == before.current->0.flag(),
        after == (PlayListView {
            current: after.current,
            stopped: after.stopped,
            sought: after.sought,
            ..before
        }),
{
    assert(after.current->0.sent().drop_last() =~= before.current->0.sent());
}

/// A seek or a rewind tells what plays nothing by itself. Without crossfades it stops the
/// list, so that nothing more is taken from it; with crossfades it changes nothing.
pub proof fn law_seek_stops_the_loop<S>(
    before: PlayListView<S>,
    after: PlayListView<S>,
    command: ControlCommand,
    result: Result<ListAction, StreamErr>,
)
    requires
        after.has_taken(before, command, result),
        command is Seek || command is Rewind,
    ensures
        result is Ok,
        after == (PlayListView { stopped: after.stopped, ..before }),
        before.current is Some && !before.mixing ==> after.stopped,
        before.current is None || before.mixing ==> after.stopped == before.stopped && result->Ok_0
            == ListAction::Handled,
        before.current is Some && !before.mixing && command is Rewind ==> result->Ok_0
            == ListAction::Walk(
            (SeekWalk { time: Seconds { bits: 0 }, prev_time: Seconds { bits: 0 }, sought: 0 }),
        ),
        command matches ControlCommand::Seek(time) ==> before.current is Some && !before.mixing ==> {
            let left = Seconds::of_count(time).difference(before.played);
            &&& left.below_zero() ==> result->Ok_0 == ListAction::Handled
            &&& !left.below_zero() ==> result->Ok_0 == ListAction::Walk(
                (SeekWalk { time: left, prev_time: left, sought: 0 }),
            )
        },
{
}

/// As long as nothing plays, a command changes nothing.
pub proof fn law_idle_list_ignores<S>(
    before: PlayListView<S>,
    after: PlayListView<S>,
    command: ControlCommand,
    result: Result<ListAction, StreamErr>,
)
    requires
        after.has_taken(before, command, result),
        before.current is None,
    ensures
        after == before,
        result == Ok::<ListAction, StreamErr>(ListAction::Handled),
{
}

/// A handle through which a fade went out has sent that gain and nothing else.
pub proof fn law_fade_goes_out(after: ControlHandle, before: ControlHandle, gain: GainFunction)
    requires
        has_faded(after, before, gain),
    ensures
        after.sent().len() == before.sent().len() + 1,
        after.sent().drop_last() == before.sent(),
        after.sent().last().0 == ControlCommand::AddGainFunction(gain),
        after.flag() == before.flag(),
        after.limit() == before.limit(),
{
    assert(after.sent().drop_last() =~= before.sent());
}

/// A seek keeps all streamers in their order: the copies that stay, those that go back
/// to the queue, and the rest of the queue follow each other as before.
pub proof fn law_seek_keeps_order<S>(copies: Seq<S>, queue: Seq<S>, sought: nat)
    ensures
        ({
            let kept = kept_copies(copies.len(), sought) as int;
            copies.take(kept) + (copies.skip(kept) + queue) == copies + queue
        }),
{
    let kept = kept_copies(copies.len(), sought) as int;
    assert(copies.take(kept) + (copies.skip(kept) + queue) =~= copies + queue);
}

/// A rewind restores the whole list, if every streamer that has started left a copy: all
/// streamers are to come again, in their order, nothing has been played, and the list goes
/// on. So does a seek to the first streamer.
pub proof fn law_rewind_restores_list<S>(
    list: PlayListView<S>,
    current: Option<ControlHandle>,
    all: Seq<S>,
)
    requires
        list.copies + list.queue == all,
    ensures
        list.requeued(current, 0).restarted() == (PlayListView {
            queue: all,
            copies: Seq::<S>::empty(),
            current,
            stopped: false,
            sought: false,
            played: Seconds { bits: 0 },
            ..list
        }),
{
    let after = list.requeued(current, 0);
    assert(after.queue =~= all);
    assert(after.copies =~= Seq::<S>::empty());
}

/// The crossfades of a list, one after the other: each is due when the one before asked for
/// it, takes the head of the queue and asks for the next. `copies` and `durations` are what
/// the streamers give.
pub open spec fn crossfades<S>(
    list: PlayListView<S>,
    copies: Seq<Result<S, StreamErr>>,
    durations: Seq<Seconds>,
    count: nat,
) -> PlayListView<S>
    decreases count,
{
    if count == 0 {
        list
    } else {
        let before = crossfades(list, copies, durations, (count - 1) as nat);
        before.due().crossfaded(copies[count - 1], Some(durations[count - 1]), before.next_run->0)
    }
}

/// When a crossfade is due, after so many before it: each lasts until the streamer that came
/// with it fades out.
pub open spec fn crossfade_time(
    first: Seconds,
    durations: Seq<Seconds>,
    fade: Seconds,
    count: nat,
) -> Seconds
    decreases count,
{
    if count == 0 {
        first
    } else {
        next_cutoff(
            crossfade_time(first, durations, fade, (count - 1) as nat),
            durations[count - 1],
            fade,
        )
    }
}

/// The crossfades of a list whose streamers know their durations follow each other: the
/// one with number `count` is due at the time of the one before plus what its streamer plays
/// before it fades out, and that time is on record. It finds the streamers in their
/// order, one each, until none is left; the last finds none.
pub proof fn law_crossfade_chain<S>(
    list: PlayListView<S>,
    copies: Seq<Result<S, StreamErr>>,
    durations: Seq<Seconds>,
    count: nat,
)
    requires
        list.next_run is Some,
        durations.len() == list.queue.len(),
        copies.len() == list.queue.len(),
        count <= list.queue.len(),
    ensures
        ({
            let after = crossfades(list, copies, durations, count);
            &&& after.next_run == Some(
                crossfade_time(list.next_run->0, durations, fade_seconds(list.fade), count),
            )
            &&& after.queue == list.queue.skip(count as int)
            &&& after.fade == list.fade
            &&& count < list.queue.len() ==> after.queue[0] == list.queue[count as int]
            &&& count == list.queue.len() ==> after.queue.len() == 0 && after.due().queue
                == after.queue
        }),
    decreases count,
{
    if count > 0 {
        law_crossfade_chain(list, copies, durations, (count - 1) as nat);
        let before = crossfades(list, copies, durations, (count - 1) as nat);
        assert(before.queue.skip(1) =~= list.queue.skip(count as int));
    } else {
        assert(list.queue.skip(0) =~= list.queue);
    }
}

/// The gains of a crossfade that is not logarithmic add up to one at every sample, but
/// for rounding.
pub proof fn law_crossfade_adds_up(
    fade: CrossFadeType,
    fade_samples: usize,
    x: usize,
    given: Sample,
)
    requires
        !(fade is Logarithmic),
    ensures
        ({
            let (coming, going) = fades(fade, fade_samples);
            let sum = gain_at(coming, x as nat, given).sum(gain_at(going, x as nat, given));
            &&& sum.is_finite()
            &&& !sum.negative()
            &&& pow2(149) - pow2(127) <= sum.units() <= pow2(149) + pow2(127)
        }),
        (Sample { bits: UNITY }).units() == pow2(149),
{
    law_fades_add_up(x, fade_samples);
}

} // verus!
