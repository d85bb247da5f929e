//! Mixing: several streamers into one, each with a weight.
//!
//! Every channel has a buffer that its streamer fills. A mixing step takes what
//! all unfinished channels have reached since the last one and adds it up.

use std::collections::VecDeque;
use vstd::prelude::*;
use crate::sample::{
    law_count_of_one, law_onto_silence, law_times_unity, Sample, SIGN, SILENCE, UNITY,
};
use crate::shared::{flag_loads, flag_stores};
use super::control::{ControlCommand, ControlHandle, commands_received};
use super::{DeviceOutputInfo, StreamErr, NO_SEEK};
use crossbeam_channel::Receiver;

verus! {

/// One input of the mix.
pub struct MixChannel {
    /// What the streamer has delivered and the mix has not taken yet.
    pub buffer: VecDeque<Sample>,
    /// How many samples the streamer has delivered, counted from the start of the mix.
    pub index: usize,
    pub finished: bool,
    pub weight: u32,
}

/// The smallest index among the unfinished channels; the largest number there is
/// if all are finished.
pub open spec fn lowest_index(channels: Seq<MixChannel>) -> usize
    decreases channels.len(),
{
    if channels.len() == 0 {
        usize::MAX
    } else {
        let rest = lowest_index(channels.drop_last());
        let c = channels.last();
        if !c.finished && c.index < rest {
            c.index
        } else {
            rest
        }
    }
}

/// The sum of the weights of the unfinished channels.
pub open spec fn total_weight(channels: Seq<MixChannel>) -> nat
    decreases channels.len(),
{
    if channels.len() == 0 {
        0
    } else {
        let c = channels.last();
        total_weight(channels.drop_last()) + if c.finished {
            0
        } else {
            c.weight as nat
        }
    }
}

/// The factor on every channel: one over the total weight for an average, one for
/// a plain sum.
pub open spec fn mix_factor(normalize: bool, total: nat) -> Sample {
    if !normalize {
        Sample { bits: UNITY }
    } else if total > 0 {
        Sample::of_ratio(1, total)
    } else {
        Sample { bits: SILENCE }
    }
}

/// What a sample adds to the output.
pub open spec fn weighted(s: Sample, weight: u32, factor: Sample) -> Sample {
    s.product(Sample::of_count(weight as nat)).product(factor)
}

/// The output once a channel has been added to it, as far as its buffer goes.
pub open spec fn mix_in(output: Seq<Sample>, c: MixChannel, factor: Sample) -> Seq<Sample> {
    if c.finished {
        output
    } else {
        Seq::new(
            output.len(),
            |k: int|
                if k < c.buffer@.len() {
                    output[k].sum(weighted(c.buffer@[k], c.weight, factor))
                } else {
                    output[k]
                },
        )
    }
}

/// `size` samples of all unfinished channels added up, in the order of the channels.
pub open spec fn mixed(channels: Seq<MixChannel>, size: nat, factor: Sample) -> Seq<Sample>
    decreases channels.len(),
{
    if channels.len() == 0 {
        Seq::new(size, |k: int| Sample { bits: SILENCE })
    } else {
        mix_in(mixed(channels.drop_last(), size, factor), channels.last(), factor)
    }
}

/// What is left of a buffer after `size` samples were taken, or all it had.
pub open spec fn left_over(buffer: Seq<Sample>, size: nat) -> Seq<Sample> {
    if buffer.len() <= size {
        Seq::empty()
    } else {
        buffer.skip(size as int)
    }
}

/// `after` is `before` with `size` samples taken out of each unfinished channel.
pub open spec fn taken(before: Seq<MixChannel>, after: Seq<MixChannel>, size: nat) -> bool {
    &&& after.len() == before.len()
    &&& forall|j: int|
        0 <= j < before.len() ==> {
            &&& (#[trigger] after[j]).buffer@ == if before[j].finished {
                before[j].buffer@
            } else {
                left_over(before[j].buffer@, size)
            }
            &&& after[j].index == before[j].index
            &&& after[j].finished == before[j].finished
            &&& after[j].weight == before[j].weight
        }
}

/// What a mixing step comes to.
pub enum MixStep {
    /// The mix was stopped.
    Stopped,
    /// All channels are finished.
    Finished,
    /// Some channel has nothing new.
    Idle,
    /// The mixed samples.
    Output(Vec<Sample>),
}

/// What a turn of a mix comes to.
pub enum MixTurn {
    /// The mix is paused.
    Parked,
    /// The children were told a command.
    Told,
    /// A stop has ended the mix.
    Ended,
    /// A mixing step.
    Mixed(MixStep),
}

/// The mix while it runs.
pub struct MixState {
    channels: Vec<MixChannel>,
    children: Vec<ControlHandle>,
    prev_index: usize,
    normalize_gain: bool,
    stopped: bool,
    finished: bool,
}

impl MixState {
    pub closed spec fn channels(self) -> Seq<MixChannel> {
        self.channels@
    }

    /// The handles of the channels' streamers.
    pub closed spec fn children(self) -> Seq<ControlHandle> {
        self.children@
    }

    /// How many samples have been mixed.
    pub closed spec fn position(self) -> usize {
        self.prev_index
    }

    pub closed spec fn normalizes(self) -> bool {
        self.normalize_gain
    }

    pub closed spec fn stopped(self) -> bool {
        self.stopped
    }

    pub closed spec fn finished(self) -> bool {
        self.finished
    }

    /// Every channel has a handle to its streamer.
    pub open spec fn wf(self) -> bool {
        self.channels().len() == self.children().len()
    }

    /// How many samples the next step can mix.
    pub open spec fn ready(self) -> nat {
        let lowest = lowest_index(self.channels());
        if lowest > self.position() {
            (lowest - self.position()) as nat
        } else {
            0
        }
    }

    /// Every unfinished channel has in its buffer exactly what it is ahead of the mix.
    pub open spec fn in_step(self) -> bool {
        forall|j: int|
            0 <= j < self.channels().len() ==> {
                let c = #[trigger] self.channels()[j];
                !c.finished ==> c.index == self.position() + c.buffer@.len()
            }
    }

    /// The next step mixes samples.
    pub open spec fn mixes(self) -> bool {
        &&& !self.stopped()
        &&& lowest_index(self.channels()) != usize::MAX
        &&& self.ready() > 0
    }

    /// `self` is `before` after a mixing step, and `step` is what it came to.
    pub open spec fn has_mixed(self, before: MixState, step: MixStep) -> bool {
        &&& self.children() == before.children()
        &&& self.normalizes() == before.normalizes()
        &&& self.stopped() == before.stopped()
        &&& match step {
            MixStep::Stopped => {
                &&& before.stopped()
                &&& self.finished()
                &&& self.channels() == before.channels()
                &&& self.position() == before.position()
            },
            MixStep::Finished => {
                &&& !before.stopped()
                &&& lowest_index(before.channels()) == usize::MAX
                &&& self.finished()
                &&& self.channels() == before.channels()
                &&& self.position() == before.position()
            },
            MixStep::Idle => {
                &&& !before.stopped()
                &&& lowest_index(before.channels()) != usize::MAX
                &&& before.ready() == 0
                &&& self == before
            },
            MixStep::Output(output) => {
                &&& before.mixes()
                &&& output@ == mixed(
                    before.channels(),
                    before.ready(),
                    mix_factor(before.normalizes(), total_weight(before.channels())),
                )
                &&& taken(before.channels(), self.channels(), before.ready())
                &&& self.position() == lowest_index(before.channels())
                &&& self.finished() == before.finished()
            },
        }
    }

    /// `self` is `before` after a command went to every child. A stop ends the mix. Nothing
    /// is mixed.
    pub open spec fn has_taken(self, before: MixState, command: ControlCommand) -> bool {
        &&& told(before.children(), self.children(), passed_on(command))
        &&& self.channels() == before.channels()
        &&& self.position() == before.position()
        &&& self.normalizes() == before.normalizes()
        &&& self.stopped() == (before.stopped() || command == ControlCommand::Stop)
        &&& self.finished() == (before.finished() || command == ControlCommand::Stop)
    }

    /// `self` is `before` after a channel was finished, if there is one of that number, or
    /// a new one with an empty buffer was added.
    pub open spec fn has_applied(self, before: MixState, command: MixerCommand) -> bool {
        &&& self.position() == before.position()
        &&& self.normalizes() == before.normalizes()
        &&& self.stopped() == before.stopped()
        &&& self.finished() == before.finished()
        &&& match command {
            MixerCommand::Stop(channel) => {
                &&& self.children() == before.children()
                &&& self.channels() == (if channel < before.channels().len() {
                    before.channels().update(
                        channel as int,
                        MixChannel { finished: true, ..before.channels()[channel as int] },
                    )
                } else {
                    before.channels()
                })
            },
            MixerCommand::Add { index, finished, weight, control } => {
                let added = self.channels().last();
                &&& self.children() == before.children().push(control)
                &&& self.channels() == before.channels().push(added)
                &&& added.buffer@ == Seq::<Sample>::empty()
                &&& added.index == index
                &&& added.finished == finished
                &&& added.weight == weight
            },
        }
    }

    /// The sum of the weights of the unfinished channels, if it is small enough to
    /// mix with.
    pub fn weight(&self) -> (total: Option<u32>)
        ensures
            total is Some <==> total_weight(self.channels()) <= u32::MAX,
            total matches Some(t) ==> t == total_weight(self.channels()),
    {
        let mut total: u32 = 0;
        let mut j: usize = 0;
        let ghost all = self.channels@;
        assert(all.take(0) =~= Seq::<MixChannel>::empty());
        while j < self.channels.len()
            invariant
                j <= self.channels@.len(),
                all == self.channels@,
                total == total_weight(all.take(j as int)),
            decreases self.channels@.len() - j,
        {
            proof {
                assert(all.take(j + 1).drop_last() =~= all.take(j as int));
                lemma_total_weight_prefix(all, j + 1);
            }
            if !self.channels[j].finished {
                let weight: u32 = self.channels[j].weight;
                if weight > u32::MAX - total {
                    return None;
                }
                total = total + weight;
            }
            j = j + 1;
        }
        assert(all.take(j as int) =~= all);
        Some(total)
    }

    /// The smallest index among the unfinished channels.
    fn lowest(&self) -> (lowest: usize)
        ensures
            lowest == lowest_index(self.channels()),
    {
        let mut lowest: usize = usize::MAX;
        let mut j: usize = 0;
        let ghost all = self.channels@;
        assert(all.take(0) =~= Seq::<MixChannel>::empty());
        while j < self.channels.len()
            invariant
                j <= self.channels@.len(),
                all == self.channels@,
                lowest == lowest_index(all.take(j as int)),
            decreases self.channels@.len() - j,
        {
            assert(all.take(j + 1).drop_last() =~= all.take(j as int));
            if !self.channels[j].finished && self.channels[j].index < lowest {
                lowest = self.channels[j].index;
            }
            j = j + 1;
        }
        assert(all.take(j as int) =~= all);
        lowest
    }

    /// One mixing step: adds up what all unfinished channels have reached beyond the
    /// last step, and takes it out of their buffers.
    pub fn mix(&mut self) -> (step: MixStep)
        requires
            old(self).wf(),
            old(self).mixes() ==> total_weight(old(self).channels()) <= u32::MAX,
        ensures
            final(self).wf(),
            old(self).in_step() ==> final(self).in_step(),
            final(self).has_mixed(*old(self), step),
            step is Stopped <==> old(self).stopped(),
            step is Finished <==> !old(self).stopped() && forall|j: int|
                0 <= j < old(self).channels().len() ==> (#[trigger] old(self).channels()[j]).finished
                    || old(self).channels()[j].index == usize::MAX,
            step is Idle <==> !old(self).stopped() && exists|j: int|
                0 <= j < old(self).channels().len() && !(#[trigger] old(self).channels()[j]).finished
                    && old(self).channels()[j].index <= old(self).position() && old(
                    self,
                ).channels()[j].index != usize::MAX,
            final(self).finished() == (old(self).finished() || step is Stopped || step is Finished),
            final(self).stopped() == old(self).stopped(),
            final(self).normalizes() == old(self).normalizes(),
            final(self).children() == old(self).children(),
            !(step is Output) ==> final(self).channels() == old(self).channels()
                && final(self).position() == old(self).position(),
            // The mix goes on by what comes out, and just as much is taken out of each channel
            // that has not finished.
            step matches MixStep::Output(output) ==> {
                &&& output@.len() > 0
                &&& final(self).position() == old(self).position() + output@.len()
                &&& final(self).channels().len() == old(self).channels().len()
                &&& forall|j: int|
                    0 <= j < old(self).channels().len() ==> {
                        let before = old(self).channels()[j];
                        let after = #[trigger] final(self).channels()[j];
                        &&& after.index == before.index
                        &&& after.finished == before.finished
                        &&& after.weight == before.weight
                        &&& before.finished ==> after.buffer@ == before.buffer@
                        &&& !before.finished ==> before.index >= final(self).position()
                        &&& !before.finished && before.buffer@.len() >= output@.len()
                            ==> after.buffer@ == before.buffer@.skip(output@.len() as int)
                        &&& !before.finished && before.buffer@.len() < output@.len()
                            ==> after.buffer@.len() == 0
                    }
                &&& exists|j: int|
                    0 <= j < old(self).channels().len() && !(#[trigger] old(
                        self,
                    ).channels()[j]).finished && old(self).channels()[j].index == final(self).position()
                &&& output@ == mixed(
                    old(self).channels(),
                    output@.len(),
                    mix_factor(old(self).normalizes(), total_weight(old(self).channels())),
                )
            },
    {
        if self.stopped {
            self.finished = true;
            return MixStep::Stopped;
        }
        let lowest: usize = self.lowest();
        proof {
            lemma_lowest_index(self.channels@);
            if lowest != usize::MAX {
                lemma_lowest_is_reached(self.channels@);
            }
        }
        if lowest == usize::MAX {
            self.finished = true;
            return MixStep::Finished;
        }
        if lowest <= self.prev_index {
            return MixStep::Idle;
        }
        let size: usize = lowest - self.prev_index;
        let total: u32 = match self.weight() {
            Some(total) => total,
            None => 0,
        };
        self.prev_index = lowest;
        let factor: Sample = if !self.normalize_gain {
            Sample { bits: UNITY }
        } else if total > 0 {
            Sample::from_ratio(1, total as u64)
        } else {
            Sample { bits: SILENCE }
        };
        let ghost before = self.channels@;
        let mut output: Vec<Sample> = silence(size);
        let mut j: usize = 0;
        assert(before.take(0) =~= Seq::<MixChannel>::empty());
        while j < self.channels.len()
            invariant
                j <= self.channels@.len(),
                self.channels@.len() == before.len(),
                output@ == mixed(before.take(j as int), size as nat, factor),
                output@.len() == size,
                taken(before.take(j as int), self.channels@.take(j as int), size as nat),
                forall|i: int| j <= i < before.len() ==> #[trigger] self.channels@[i] == before[i],
                self.children@ == old(self).children(),
                self.normalize_gain == old(self).normalizes(),
                self.stopped == old(self).stopped(),
                self.finished == old(self).finished(),
                self.prev_index == lowest,
            decreases self.channels@.len() - j,
        {
            let ghost was = self.channels@;
            assert(before.take(j + 1).drop_last() =~= before.take(j as int));
            if !self.channels[j].finished {
                add_channel(&mut output, &mut self.channels[j], factor);
            }
            assert forall|i: int| 0 <= i < j implies self.channels@[i] == was[i] by {}
            assert(self.channels@.take(j + 1).drop_last() =~= self.channels@.take(j as int));
            assert(self.channels@.take(j as int) =~= was.take(j as int));
            assert(taken(before.take(j + 1), self.channels@.take(j + 1), size as nat)) by {
                assert forall|i: int| 0 <= i < j + 1 implies {
                    let after = #[trigger] self.channels@.take(j + 1)[i];
                    &&& after.buffer@ == if before[i].finished {
                        before[i].buffer@
                    } else {
                        left_over(before[i].buffer@, size as nat)
                    }
                    &&& after.index == before[i].index
                    &&& after.finished == before[i].finished
                    &&& after.weight == before[i].weight
                } by {
                    if i < j {
                        assert(was.take(j as int)[i] == self.channels@.take(j + 1)[i]);
                    }
                }
            }
            j = j + 1;
        }
        assert(before.take(j as int) =~= before);
        assert(self.channels@.take(j as int) =~= self.channels@);
        proof {
            lemma_lowest_index(before);
            if old(self).in_step() {
                assert forall|i: int| 0 <= i < self.channels@.len() implies {
                    let c = #[trigger] self.channels@[i];
                    !c.finished ==> c.index == self.prev_index + c.buffer@.len()
                } by {
                    assert(before[i] == old(self).channels()[i]);
                }
            }
        }
        MixStep::Output(output)
    }
}

impl MixState {
    /// A streamer delivers samples to its channel. The result is false when the
    /// channel is finished: the samples are dropped and no more are wanted.
    pub fn deliver(&mut self, channel: usize, samples: Vec<Sample>) -> (wanted: bool)
        requires
            old(self).wf(),
            channel < old(self).channels().len(),
        ensures
            final(self).wf(),
            final(self).children() == old(self).children(),
            final(self).position() == old(self).position(),
            final(self).normalizes() == old(self).normalizes(),
            final(self).stopped() == old(self).stopped(),
            final(self).finished() == old(self).finished(),
            old(self).in_step() && old(self).channels()[channel as int].index + samples@.len()
                <= usize::MAX ==> final(self).in_step(),
            wanted == !old(self).channels()[channel as int].finished,
            !wanted ==> final(self).channels() == old(self).channels(),
            wanted ==> {
                let before = old(self).channels()[channel as int];
                let after = final(self).channels()[channel as int];
                &&& final(self).channels() == old(self).channels().update(channel as int, after)
                &&& after.buffer@ == before.buffer@ + samples@
                &&& after.index == before.index.wrapping_add(samples@.len() as usize)
                &&& after.finished == before.finished
                &&& after.weight == before.weight
            },
    {
        if self.channels[channel].finished {
            return false;
        }
        let count: usize = samples.len();
        let index: usize = self.channels[channel].index.wrapping_add(count);
        append(&mut self.channels[channel].buffer, &samples);
        self.channels[channel].index = index;
        assert(self.channels@ =~= old(self).channels@.update(
            channel as int,
            self.channels@[channel as int],
        ));
        true
    }

    /// Takes over which streamers have finished by themselves, and what the weights
    /// are set to now.
    pub fn observe(&mut self, finished: &Vec<bool>, weights: &Vec<u32>)
        requires
            old(self).wf(),
            finished@.len() == old(self).channels().len(),
            weights@.len() == old(self).channels().len(),
        ensures
            final(self).wf(),
            final(self).children() == old(self).children(),
            final(self).position() == old(self).position(),
            final(self).normalizes() == old(self).normalizes(),
            final(self).stopped() == old(self).stopped(),
            final(self).finished() == old(self).finished(),
            final(self).channels().len() == old(self).channels().len(),
            old(self).in_step() && (forall|j: int|
                0 <= j < finished@.len() && old(self).channels()[j].finished
                    ==> #[trigger] finished@[j]) ==> final(self).in_step(),
            forall|j: int|
                0 <= j < old(self).channels().len() ==> {
                    &&& (#[trigger] final(self).channels()[j]).buffer == old(
                        self,
                    ).channels()[j].buffer
                    &&& final(self).channels()[j].index == old(self).channels()[j].index
                    &&& final(self).channels()[j].finished == finished@[j]
                    &&& final(self).channels()[j].weight == weights@[j]
                },
    {
        let mut j: usize = 0;
        while j < self.channels.len()
            invariant
                j <= self.channels@.len(),
                self.channels@.len() == old(self).channels().len(),
                finished@.len() == self.channels@.len(),
                weights@.len() == self.channels@.len(),
                self.children@ == old(self).children(),
                self.prev_index == old(self).position(),
                self.normalize_gain == old(self).normalizes(),
                self.stopped == old(self).stopped(),
                self.finished == old(self).finished(),
                forall|i: int|
                    0 <= i < j ==> {
                        &&& (#[trigger] self.channels@[i]).buffer == old(self).channels()[i].buffer
                        &&& self.channels@[i].index == old(self).channels()[i].index
                        &&& self.channels@[i].finished == finished@[i]
                        &&& self.channels@[i].weight == weights@[i]
                    },
                forall|i: int|
                    j <= i < self.channels@.len() ==> #[trigger] self.channels@[i] == old(
                        self,
                    ).channels()[i],
            decreases self.channels@.len() - j,
        {
            self.channels[j].finished = finished[j];
            self.channels[j].weight = weights[j];
            j = j + 1;
        }
    }

    /// Finishes a channel, if there is one of that number, or adds a new one with an
    /// empty buffer.
    pub fn apply(&mut self, command: MixerCommand)
        requires
            old(self).wf(),
        ensures
            final(self).wf(),
            final(self).has_applied(*old(self), command),
            final(self).position() == old(self).position(),
            final(self).normalizes() == old(self).normalizes(),
            final(self).stopped() == old(self).stopped(),
            final(self).finished() == old(self).finished(),
            command matches MixerCommand::Stop(ch) ==> {
                &&& final(self).children() == old(self).children()
                &&& final(self).channels().len() == old(self).channels().len()
                &&& forall|j: int|
                    0 <= j < old(self).channels().len() ==> {
                        let before = old(self).channels()[j];
                        let after = #[trigger] final(self).channels()[j];
                        &&& after.finished == (before.finished || j == ch)
                        &&& after.buffer == before.buffer
                        &&& after.index == before.index
                        &&& after.weight == before.weight
                    }
            },
            command matches MixerCommand::Add { index, finished, weight, control } ==> {
                &&& final(self).children() == old(self).children().push(control)
                &&& final(self).channels().drop_last() == old(self).channels()
                &&& final(self).channels().len() == old(self).channels().len() + 1
                &&& final(self).channels().last().buffer@.len() == 0
                &&& final(self).channels().last().index == index
                &&& final(self).channels().last().finished == finished
                &&& final(self).channels().last().weight == weight
            },
    {
        match command {
            MixerCommand::Stop(channel) => {
                if channel < self.channels.len() {
                    self.channels[channel].finished = true;
                    assert(self.channels@ =~= old(self).channels@.update(
                        channel as int,
                        MixChannel { finished: true, ..old(self).channels@[channel as int] },
                    ));
                }
            },
            MixerCommand::Add { index, finished, weight, control } => {
                self.channels.push(
                    MixChannel { buffer: VecDeque::new(), index, finished, weight },
                );
                self.children.push(control);
                assert(self.channels@ =~= old(self).channels@.push(self.channels@.last()));
                assert(self.channels@.drop_last() =~= old(self).channels@);
            },
        }
    }

    /// The mix is told a command: it goes to every child, and a stop ends the mix.
    pub fn control(&mut self, command: ControlCommand) -> (ends: bool)
        requires
            old(self).wf(),
        ensures
            final(self).wf(),
            final(self).has_taken(*old(self), command),
            final(self).channels() == old(self).channels(),
            final(self).position() == old(self).position(),
            final(self).stopped() == (old(self).stopped() || command == ControlCommand::Stop),
            final(self).finished() == (old(self).finished() || command == ControlCommand::Stop),
            final(self).children().len() == old(self).children().len(),
            // All but a seek go to every child.
            forall|i: int|
                0 <= i < old(self).children().len() ==> {
                    let before = old(self).children()[i];
                    let after = #[trigger] final(self).children()[i];
                    &&& after.controls_like(before)
                    &&& after.flag() == before.flag()
                    &&& command is Seek ==> after.sent() == before.sent()
                    &&& !(command is Seek) ==> after.sent().len() == before.sent().len() + 1
                        && after.sent().drop_last() == before.sent() && after.sent().last().0
                        == command
                },
            old(self).in_step() ==> final(self).in_step(),
            ends == (command == ControlCommand::Stop),
    {
        let ends: bool = apply_mixer_control(command, &mut self.children, &mut self.stopped);
        if ends {
            self.finished = true;
        }
        proof {
            if !(command is Seek) {
                lemma_told(old(self).children@, self.children@, passed_on(command));
            }
        }
        ends
    }

    /// One turn of a mix that runs, on what woke it up: a command, or else that channels may
    /// have something new.
    ///
    /// While the mix is paused it parks: nothing is taken out of the channels and nothing
    /// comes out, so that the streamers block and nothing piles up. Commands reach the
    /// children either way, and a stop ends the mix.
    pub fn turn(&mut self, paused: bool, command: Option<ControlCommand>) -> (turn: MixTurn)
        requires
            old(self).wf(),
            !paused && command is None && old(self).mixes() ==> total_weight(old(self).channels())
                <= u32::MAX,
        ensures
            final(self).wf(),
            old(self).in_step() ==> final(self).in_step(),
            match command {
                Some(c) => {
                    &&& final(self).has_taken(*old(self), c)
                    &&& turn == (if c == ControlCommand::Stop {
                        MixTurn::Ended
                    } else if paused {
                        MixTurn::Parked
                    } else {
                        MixTurn::Told
                    })
                },
                None => if paused {
                    turn == MixTurn::Parked && *final(self) == *old(self)
                } else {
                    turn matches MixTurn::Mixed(step) && final(self).has_mixed(*old(self), step)
                },
            },
            paused ==> !(turn is Mixed),
            turn is Ended <==> command == Some(ControlCommand::Stop),
            turn is Mixed <==> !paused && command is None,
            paused || command is Some ==> final(self).channels() == old(self).channels()
                && final(self).position() == old(self).position(),
            command matches Some(c) ==> !(c is Seek) ==> final(self).children().len() == old(
                self,
            ).children().len() && forall|i: int|
                0 <= i < old(self).children().len() ==> (#[trigger] final(self).children()[i]).sent().len()
                    == old(self).children()[i].sent().len() + 1
                    && final(self).children()[i].sent().drop_last() == old(
                    self,
                ).children()[i].sent() && final(self).children()[i].sent().last().0 == c,
            turn matches MixTurn::Mixed(MixStep::Output(output)) ==> final(self).position() == old(
                self,
            ).position() + output@.len() && output@ == mixed(
                old(self).channels(),
                output@.len(),
                mix_factor(old(self).normalizes(), total_weight(old(self).channels())),
            ),
    {
        match command {
            Some(command) => {
                if self.control(command) {
                    MixTurn::Ended
                } else if paused {
                    MixTurn::Parked
                } else {
                    MixTurn::Told
                }
            },
            None => {
                if paused {
                    MixTurn::Parked
                } else {
                    MixTurn::Mixed(self.mix())
                }
            },
        }
    }

    /// How many samples have been mixed: where a new channel starts.
    pub fn play_position(&self) -> (position: usize)
        ensures
            position == self.position(),
    {
        self.prev_index
    }

    /// The mix has ended: it was stopped or all channels finished.
    pub fn is_finished(&self) -> (finished: bool)
        ensures
            finished == self.finished(),
    {
        self.finished
    }

    /// Whether the next step mixes samples.
    pub fn is_ready(&self) -> (ready: bool)
        ensures
            ready == self.mixes(),
    {
        let lowest: usize = self.lowest();
        !self.stopped && lowest != usize::MAX && lowest > self.prev_index
    }

    /// The number of channels.
    pub fn len(&self) -> (len: usize)
        ensures
            len == self.channels().len(),
    {
        self.channels.len()
    }
}

/// Puts samples at the end of a buffer.
fn append(buffer: &mut VecDeque<Sample>, samples: &Vec<Sample>)
    ensures
        final(buffer)@ == old(buffer)@ + samples@,
{
    let mut i: usize = 0;
    while i < samples.len()
        invariant
            i <= samples@.len(),
            buffer@ =~= old(buffer)@ + samples@.take(i as int),
        decreases samples@.len() - i,
    {
        buffer.push_back(samples[i]);
        i = i + 1;
    }
    assert(samples@.take(i as int) =~= samples@);
}

/// As many samples of silence.
fn silence(size: usize) -> (output: Vec<Sample>)
    ensures
        output@ == Seq::new(size as nat, |k: int| Sample { bits: SILENCE }),
{
    let mut output: Vec<Sample> = Vec::new();
    let mut k: usize = 0;
    while k < size
        invariant
            k <= size,
            output@ =~= Seq::new(k as nat, |k: int| Sample { bits: SILENCE }),
        decreases size - k,
    {
        output.push(Sample { bits: SILENCE });
        k = k + 1;
    }
    output
}

/// Adds an unfinished channel to the output, as far as its buffer goes, and takes
/// what was added out of the buffer.
fn add_channel(output: &mut Vec<Sample>, channel: &mut MixChannel, factor: Sample)
    requires
        !old(channel).finished,
    ensures
        final(output)@ == mix_in(old(output)@, *old(channel), factor),
        final(channel).buffer@ == left_over(old(channel).buffer@, old(output)@.len()),
        final(channel).index == old(channel).index,
        final(channel).finished == old(channel).finished,
        final(channel).weight == old(channel).weight,
{
    let weight: Sample = Sample::from_count(channel.weight as u64);
    let ghost buffer = channel.buffer@;
    let ghost start = output@;
    let mut k: usize = 0;
    while k < output.len() && channel.buffer.len() > 0
        invariant
            k <= output@.len(),
            k <= buffer.len(),
            output@.len() == start.len(),
            channel.buffer@ =~= buffer.skip(k as int),
            channel.index == old(channel).index,
            channel.finished == old(channel).finished,
            channel.weight == old(channel).weight,
            weight == Sample::of_count(channel.weight as nat),
            forall|i: int|
                0 <= i < k ==> #[trigger] output@[i] == start[i].sum(
                    weighted(buffer[i], channel.weight, factor),
                ),
            forall|i: int| k <= i < start.len() ==> #[trigger] output@[i] == start[i],
        decreases output@.len() - k,
    {
        if let Some(s) = channel.buffer.pop_front() {
            let sum: Sample = output[k].plus(s.times(weight).times(factor));
            output.set(k, sum);
            k = k + 1;
        }
    }
    proof {
        assert(k == start.len() || k == buffer.len());
        assert(output@ =~= mix_in(start, *old(channel), factor));
        assert(channel.buffer@ =~= left_over(buffer, start.len()));
    }
}

/// What the mixing side is told while the mix runs.
pub enum MixerCommand {
    /// Finish a channel.
    Stop(usize),
    /// Add a channel that starts at an index, with the handle of its streamer.
    Add { index: usize, finished: bool, weight: u32, control: ControlHandle },
}

/// The command that reaches each child when the mix is told `command`: all but a
/// seek are passed on.
pub open spec fn passed_on(command: ControlCommand) -> Option<ControlCommand> {
    match command {
        ControlCommand::Seek(_) => None,
        _ => Some(command),
    }
}

/// `after` is `before` after `command` was sent through each handle once, whether or
/// not there still was a streamer to take it.
pub open spec fn told(
    before: Seq<ControlHandle>,
    after: Seq<ControlHandle>,
    command: Option<ControlCommand>,
) -> bool {
    &&& after.len() == before.len()
    &&& forall|i: int|
        0 <= i < before.len() ==> {
            &&& (#[trigger] after[i]).flag() == before[i].flag()
            &&& after[i].controls_like(before[i])
            &&& match command {
                Some(c) => after[i].sent() == before[i].sent().push((c, true)) || after[i].sent()
                    == before[i].sent().push((c, false)),
                None => after[i].sent() == before[i].sent(),
            }
        }
}

/// What went out through each handle is what it was told, after all that went before.
proof fn lemma_told(
    before: Seq<ControlHandle>,
    after: Seq<ControlHandle>,
    command: Option<ControlCommand>,
)
    requires
        told(before, after, command),
        command is Some,
    ensures
        forall|i: int|
            0 <= i < before.len() ==> (#[trigger] after[i]).sent().len() == before[i].sent().len()
                + 1 && after[i].sent().drop_last() == before[i].sent() && after[i].sent().last().0
                == command->0,
{
    assert forall|i: int| 0 <= i < before.len() implies (#[trigger] after[i]).sent().len()
        == before[i].sent().len() + 1 && after[i].sent().drop_last() == before[i].sent()
        && after[i].sent().last().0 == command->0 by {
        assert(after[i].sent().drop_last() =~= before[i].sent());
    }
}

/// Hands a command to every child of a mix. A stop also stops the mix; the result
/// says whether the mix ends.
pub fn apply_mixer_control(
    command: ControlCommand,
    children: &mut Vec<ControlHandle>,
    stopped: &mut bool,
) -> (ends: bool)
    ensures
        told(old(children)@, final(children)@, passed_on(command)),
        *final(stopped) == (*old(stopped) || command == ControlCommand::Stop),
        ends == (command == ControlCommand::Stop),
        final(children)@.len() == old(children)@.len(),
        forall|i: int|
            0 <= i < old(children)@.len() ==> {
                let before = old(children)@[i];
                let after = #[trigger] final(children)@[i];
                &&& after.controls_like(before)
                &&& after.flag() == before.flag()
                &&& command is Seek ==> after.sent() == before.sent()
                &&& !(command is Seek) ==> after.sent().len() == before.sent().len() + 1
                    && after.sent().drop_last() == before.sent() && after.sent().last().0 == command
            },
{
    let mut ends: bool = false;
    match command {
        ControlCommand::Stop => {
            *stopped = true;
            ends = true;
        },
        ControlCommand::Seek(_) => {
            return false;
        },
        _ => {},
    }
    let mut i: usize = 0;
    while i < children.len()
        invariant
            i <= children@.len(),
            children@.len() == old(children)@.len(),
            passed_on(command) == Some(command),
            told(old(children)@.take(i as int), children@.take(i as int), Some(command)),
            forall|k: int| i <= k < children@.len() ==> #[trigger] children@[k] == old(children)@[k],
        decreases children@.len() - i,
    {
        let ghost was = children@;
        // A child whose streamer is gone has nothing left to control.
        let _ = children[i].send(command);
        assert forall|k: int| 0 <= k < i + 1 implies {
            let after = #[trigger] children@.take(i + 1)[k];
            let before = old(children)@[k];
            &&& after.flag() == before.flag()
            &&& after.controls_like(before)
            &&& (after.sent() == before.sent().push((command, true)) || after.sent()
                == before.sent().push((command, false)))
        } by {
            if k < i {
                assert(was.take(i as int)[k] == children@.take(i + 1)[k]);
            }
        }
        i = i + 1;
    }
    assert(children@.take(i as int) =~= children@);
    assert(old(children)@.take(i as int) =~= old(children)@);
    proof {
        lemma_told(old(children)@, children@, passed_on(command));
    }
    ends
}

/// A prefix weighs no more than the whole.
proof fn lemma_total_weight_prefix(channels: Seq<MixChannel>, n: int)
    requires
        0 <= n <= channels.len(),
    ensures
        total_weight(channels.take(n)) <= total_weight(channels),
    decreases channels.len() - n,
{
    if n < channels.len() {
        lemma_total_weight_prefix(channels, n + 1);
        assert(channels.take(n + 1).drop_last() =~= channels.take(n));
    } else {
        assert(channels.take(n) =~= channels);
    }
}

/// The lowest index is that of an unfinished channel, and no other is lower.
proof fn lemma_lowest_index(channels: Seq<MixChannel>)
    ensures
        forall|j: int|
            0 <= j < channels.len() && !(#[trigger] channels[j]).finished ==> lowest_index(channels)
                <= channels[j].index,
    decreases channels.len(),
{
    if channels.len() > 0 {
        let rest = channels.drop_last();
        lemma_lowest_index(rest);
        assert forall|j: int|
            0 <= j < channels.len() && !(#[trigger] channels[j]).finished implies lowest_index(
            channels,
        ) <= channels[j].index by {
            if j < rest.len() {
                assert(rest[j] == channels[j]);
            }
        }
    }
}

/// The lowest index is reached, unless all channels are finished.
proof fn lemma_lowest_is_reached(channels: Seq<MixChannel>)
    requires
        lowest_index(channels) != usize::MAX,
    ensures
        exists|j: int|
            0 <= j < channels.len() && !(#[trigger] channels[j]).finished && channels[j].index
                == lowest_index(channels),
    decreases channels.len(),
{
    let rest = channels.drop_last();
    if !channels.last().finished && channels.last().index < lowest_index(rest) {
        assert(channels[channels.len() - 1] == channels.last());
    } else {
        lemma_lowest_is_reached(rest);
        let j = choose|j: int|
            0 <= j < rest.len() && !(#[trigger] rest[j]).finished && rest[j].index == lowest_index(
                rest,
            );
        assert(channels[j] == rest[j]);
    }
}

/// The mix runs exactly as far as its slowest child: the next step mixes all that some
/// unfinished channel has, and no more than any of them has.
pub proof fn law_mix_runs_with_slowest(state: MixState)
    requires
        state.in_step(),
        lowest_index(state.channels()) != usize::MAX,
    ensures
        forall|j: int|
            0 <= j < state.channels().len() && !(#[trigger] state.channels()[j]).finished
                ==> state.ready() <= state.channels()[j].buffer@.len(),
        exists|j: int|
            0 <= j < state.channels().len() && !(#[trigger] state.channels()[j]).finished
                && state.channels()[j].buffer@.len() == state.ready(),
{
    lemma_lowest_index(state.channels());
    lemma_lowest_is_reached(state.channels());
    let j = choose|j: int|
        0 <= j < state.channels().len() && !(#[trigger] state.channels()[j]).finished
            && state.channels()[j].index == lowest_index(state.channels());
    assert(state.channels()[j].buffer@.len() == state.ready());
}

/// No channel runs dry: each has all the samples that the next step mixes.
pub proof fn law_channels_are_ready(state: MixState)
    requires
        state.in_step(),
    ensures
        forall|j: int|
            0 <= j < state.channels().len() && !(#[trigger] state.channels()[j]).finished
                ==> state.ready() <= state.channels()[j].buffer@.len(),
{
    lemma_lowest_index(state.channels());
}

/// A step loses no sample: what it takes from a channel, followed by what it leaves, is
/// what the channel had.
pub proof fn law_samples_are_kept(state: MixState, after: Seq<MixChannel>)
    requires
        state.in_step(),
        taken(state.channels(), after, state.ready()),
    ensures
        forall|j: int|
            0 <= j < after.len() ==> state.channels()[j].buffer@ == (if state.channels()[j].finished {
                (#[trigger] after[j]).buffer@
            } else {
                state.channels()[j].buffer@.take(state.ready() as int) + after[j].buffer@
            }),
{
    law_channels_are_ready(state);
    assert forall|j: int| 0 <= j < after.len() implies state.channels()[j].buffer@ == (
    if state.channels()[j].finished {
        (#[trigger] after[j]).buffer@
    } else {
        state.channels()[j].buffer@.take(state.ready() as int) + after[j].buffer@
    }) by {
        let c = state.channels()[j];
        if !c.finished {
            assert(c.buffer@ =~= c.buffer@.take(state.ready() as int) + after[j].buffer@);
        }
    }
}

/// A mix over turns in which it is paused and not stopped: the same channels at the same
/// position, whatever it was told. Each turn leaves it as it was but for what the
/// children were told.
pub open spec fn parked(states: Seq<MixState>, commands: Seq<Option<ControlCommand>>) -> bool {
    &&& states.len() == commands.len() + 1
    &&& forall|i: int|
        0 <= i < commands.len() ==> (match #[trigger] commands[i] {
            Some(c) => c != ControlCommand::Stop && states[i + 1].has_taken(states[i], c),
            None => states[i + 1] == states[i],
        })
}

/// However long a mix is paused, it goes on where it was: no sample is taken and none is
/// lost, and it neither stops nor finishes.
pub proof fn law_pause_keeps_the_mix(
    states: Seq<MixState>,
    commands: Seq<Option<ControlCommand>>,
)
    requires
        parked(states, commands),
    ensures
        states.last().channels() == states[0].channels(),
        states.last().position() == states[0].position(),
        states.last().ready() == states[0].ready(),
        states.last().stopped() == states[0].stopped(),
        states.last().finished() == states[0].finished(),
    decreases commands.len(),
{
    if commands.len() > 0 {
        let last = commands.len() - 1;
        let before = commands.drop_last();
        assert(parked(states.drop_last(), before)) by {
            assert forall|i: int| 0 <= i < before.len() implies (match #[trigger] before[i] {
                Some(c) => c != ControlCommand::Stop && states.drop_last()[i + 1].has_taken(
                    states.drop_last()[i],
                    c,
                ),
                None => states.drop_last()[i + 1] == states.drop_last()[i],
            }) by {
                assert(before[i] == commands[i]);
            }
        }
        law_pause_keeps_the_mix(states.drop_last(), before);
        assert(commands[last] == commands.last());
    }
}

/// A channel that has finished is not heard and holds nothing up, wherever it stands and
/// whatever its weight and its index: the mix is the one without it.
pub proof fn law_finished_is_silent(
    channels: Seq<MixChannel>,
    place: int,
    size: nat,
    factor: Sample,
)
    requires
        0 <= place < channels.len(),
        channels[place].finished,
    ensures
        mixed(channels, size, factor) == mixed(channels.remove(place), size, factor),
        lowest_index(channels) == lowest_index(channels.remove(place)),
        total_weight(channels) == total_weight(channels.remove(place)),
    decreases channels.len(),
{
    let rest = channels.drop_last();
    if place == channels.len() - 1 {
        assert(channels.remove(place) =~= rest);
    } else {
        law_finished_is_silent(rest, place, size, factor);
        assert(channels.remove(place).drop_last() =~= rest.remove(place));
        assert(channels.remove(place).last() == channels.last());
    }
}

/// A mix of one channel with weight one that does not average passes the channel on as
/// it is, but for NaN and the sign of zero.
pub proof fn law_one_channel_passes(c: MixChannel, size: nat)
    requires
        !c.finished,
        c.weight == 1,
        size <= c.buffer@.len(),
        forall|k: int|
            0 <= k < size ==> !(#[trigger] c.buffer@[k]).is_nan() && c.buffer@[k].bits != SIGN,
    ensures
        mixed(seq![c], size, mix_factor(false, 1)) == c.buffer@.take(size as int),
{
    let one = Sample { bits: UNITY };
    let channels = seq![c];
    assert(channels.drop_last() =~= Seq::<MixChannel>::empty());
    let output = mixed(channels, size, one);
    let start = mixed(channels.drop_last(), size, one);
    assert(start == Seq::new(size, |k: int| Sample { bits: SILENCE }));
    assert(output == mix_in(start, c, one));
    law_count_of_one();
    assert forall|k: int| 0 <= k < size implies #[trigger] output[k] == c.buffer@[k] by {
        let s = c.buffer@[k];
        law_times_unity(s);
        law_onto_silence(s);
    }
    assert(output =~= c.buffer@.take(size as int));
}

/// The shortest duration so far, `0` for none, after one more channel. A duration
/// of zero counts as none.
pub open spec fn shorter(so_far: u64, duration: Option<u64>) -> u64 {
    match duration {
        Some(d) => if d < so_far || so_far == 0 {
            d
        } else {
            so_far
        },
        None => so_far,
    }
}

/// The shortest duration of the channels in order, `0` for none.
pub open spec fn shortest(durations: Seq<Option<u64>>) -> u64
    decreases durations.len(),
{
    if durations.len() == 0 {
        0
    } else {
        shorter(shortest(durations.drop_last()), durations.last())
    }
}

/// Channels stay in step with the mix when one is finished, or one is added at the position
/// that the mix has reached.
pub proof fn law_applied_keeps_step(before: MixState, after: MixState, command: MixerCommand)
    requires
        after.has_applied(before, command),
        before.in_step(),
        command matches MixerCommand::Add { index, .. } ==> index == before.position(),
    ensures
        after.in_step(),
{
    assert forall|j: int| 0 <= j < after.channels().len() implies {
        let c = #[trigger] after.channels()[j];
        !c.finished ==> c.index == after.position() + c.buffer@.len()
    } by {
        if j < before.channels().len() {
            let was = before.channels()[j];
        }
    }
}

/// A mix that has started and has not ended.
pub open spec fn runs(mix: Option<MixState>) -> bool {
    mix matches Some(state) && !state.finished()
}

/// Every channel of the mix, if it has started, has a handle to its streamer.
pub open spec fn mix_wf(mix: Option<MixState>) -> bool {
    mix matches Some(state) ==> state.wf()
}

/// Hands a command to a mix that runs. Without one nothing happens.
fn apply_to(mix: &mut Option<MixState>, command: MixerCommand) -> (applied: bool)
    requires
        mix_wf(*old(mix)),
    ensures
        mix_wf(*final(mix)),
        applied == runs(*old(mix)),
        !applied ==> *final(mix) == *old(mix),
        applied ==> *final(mix) is Some && (*final(mix))->0.has_applied((*old(mix))->0, command),
{
    let mut taken: Option<MixState> = None;
    std::mem::swap(&mut taken, mix);
    match taken {
        None => false,
        Some(mut state) => {
            let applied: bool = !state.is_finished();
            if applied {
                state.apply(command);
            }
            *mix = Some(state);
            applied
        },
    }
}

/// Adds and stops channels of a mixer that has been moved into a player. What it acts on
/// is the mix that runs when it is used, so a handle that was taken before the mixer
/// played is as good as any other.
#[derive(Debug, Clone, Copy, PartialEq, Eq, Structural)]
pub struct MixerHandle {}

impl MixerHandle {
    /// Adds a channel to the running mix, at the position that the mix has reached; nothing
    /// happens where no mix runs. Its streamer plays from its own start, whether or not it
    /// is to seek.
    pub fn add(
        &self,
        mix: &mut Option<MixState>,
        weight: u32,
        _auto_seek: bool,
        finished: bool,
        control: ControlHandle,
    ) -> (added: bool)
        requires
            mix_wf(*old(mix)),
        ensures
            mix_wf(*final(mix)),
            added == runs(*old(mix)),
            !added ==> *final(mix) == *old(mix),
            added ==> {
                let before = (*old(mix))->0;
                let index = before.position();
                &&& *final(mix) is Some
                &&& (*final(mix))->0.has_applied(
                    before,
                    (MixerCommand::Add { index, finished, weight, control }),
                )
                &&& before.in_step() ==> (*final(mix))->0.in_step()
            },
            (match *old(mix) {
                Some(state) => !state.finished(),
                None => false,
            }) == added,
            *old(mix) is Some ==> *final(mix) is Some,
            added ==> {
                let before = (*old(mix))->0;
                let after = (*final(mix))->0;
                &&& after.channels().len() == before.channels().len() + 1
                &&& after.channels().drop_last() == before.channels()
                &&& after.channels().last().index == before.position()
                &&& after.channels().last().weight == weight
                &&& after.channels().last().finished == finished
                &&& after.channels().last().buffer@.len() == 0
                &&& after.children() == before.children().push(control)
                &&& after.position() == before.position()
                &&& after.stopped() == before.stopped()
                &&& !after.finished()
            },
    {
        let index: usize = match mix {
            Some(state) => state.play_position(),
            None => 0,
        };
        let ghost command = MixerCommand::Add { index, finished, weight, control };
        let added: bool = apply_to(mix, MixerCommand::Add { index, finished, weight, control });
        proof {
            if added && (*old(mix))->0.in_step() {
                law_applied_keeps_step((*old(mix))->0, (*mix)->0, command);
            }
            if added {
                assert((*mix)->0.channels().drop_last() =~= (*old(mix))->0.channels());
            }
        }
        added
    }

    /// Finishes a channel of the running mix, if it has one of that number; nothing happens
    /// where no mix runs.
    pub fn stop_channel(&self, mix: &mut Option<MixState>, ch_no: usize)
        requires
            mix_wf(*old(mix)),
        ensures
            mix_wf(*final(mix)),
            !runs(*old(mix)) ==> *final(mix) == *old(mix),
            runs(*old(mix)) ==> {
                &&& *final(mix) is Some
                &&& (*final(mix))->0.has_applied((*old(mix))->0, MixerCommand::Stop(ch_no))
            },
            *old(mix) is None ==> *final(mix) is None,
            *old(mix) is Some ==> {
                let before = (*old(mix))->0;
                let after = (*final(mix))->0;
                &&& *final(mix) is Some
                &&& before.finished() ==> after == before
                &&& after.channels().len() == before.channels().len()
                &&& after.children() == before.children()
                &&& after.position() == before.position()
                &&& forall|j: int|
                    0 <= j < before.channels().len() ==> {
                        let c = #[trigger] after.channels()[j];
                        &&& c.finished == (before.channels()[j].finished || (j == ch_no
                            && !before.finished()))
                        &&& c.buffer == before.channels()[j].buffer
                        &&& c.index == before.channels()[j].index
                        &&& c.weight == before.channels()[j].weight
                    }
            },
    {
        let _ = apply_to(mix, MixerCommand::Stop(ch_no));
    }
}

/// A streamer that mixes other streamers.
pub struct Mixer<S> {
    streamers: Vec<S>,
    weights: Vec<u32>,
    playing: Option<DeviceOutputInfo>,
    control: ControlHandle,
    control_rx: Option<Receiver<ControlCommand>>,
    normalize_gain: bool,
    last_seek_position: u64,
}

impl<S> Mixer<S> {
    pub closed spec fn streamers(self) -> Seq<S> {
        self.streamers@
    }

    pub closed spec fn weights(self) -> Seq<u32> {
        self.weights@
    }

    /// The output of the running mix.
    pub closed spec fn playing(self) -> Option<DeviceOutputInfo> {
        self.playing
    }

    /// The handle that controls the mix.
    pub closed spec fn control(self) -> ControlHandle {
        self.control
    }

    /// Where the commands for the mix come from, until it plays.
    pub closed spec fn commands(self) -> Option<Receiver<ControlCommand>> {
        self.control_rx
    }

    pub closed spec fn normalizes(self) -> bool {
        self.normalize_gain
    }

    /// The last seek position.
    pub closed spec fn seek_position(self) -> u64 {
        self.last_seek_position
    }

    /// Every streamer has a weight.
    pub open spec fn wf(self) -> bool {
        self.streamers().len() <= self.weights().len()
    }

    /// All but the streamers and the weights is as in `before`.
    pub open spec fn same_settings(self, before: Self) -> bool {
        &&& self.playing() == before.playing()
        &&& self.control() == before.control()
        &&& self.commands() == before.commands()
        &&& self.normalizes() == before.normalizes()
        &&& self.seek_position() == before.seek_position()
    }

    /// A mixer of as many streamers as weights. It averages.
    pub fn new(streamers: Vec<S>, weights: Vec<u32>) -> (mixer: Self)
        requires
            streamers@.len() == weights@.len(),
        ensures
            mixer.wf(),
            mixer.streamers() == streamers@,
            mixer.weights() == weights@,
            mixer.playing() is None,
            mixer.control().is_fresh(),
            mixer.control().sent().len() == 0,
            mixer.control().limit() == 4,
            !mixer.control().pause_requested(),
            mixer.commands() matches Some(rx) && mixer.control().feeds(rx) && commands_received(rx)
                == Seq::<Option<ControlCommand>>::empty(),
            mixer.normalizes(),
            mixer.seek_position() == NO_SEEK,
    {
        let (control, control_rx): (ControlHandle, Receiver<ControlCommand>) = ControlHandle::new();
        Mixer {
            streamers,
            weights,
            playing: None,
            control,
            control_rx: Some(control_rx),
            normalize_gain: true,
            last_seek_position: NO_SEEK,
        }
    }

    /// Disables (`false`) or enables (`true`) the average over the total weight. A
    /// crossfade disables it: its gains add up to one already.
    pub fn set_normalize_gain(&mut self, normalize: bool)
        requires
            old(self).wf(),
        ensures
            final(self).wf(),
            final(self).streamers() == old(self).streamers(),
            final(self).weights() == old(self).weights(),
            final(self).playing() == old(self).playing(),
            final(self).control() == old(self).control(),
            final(self).commands() == old(self).commands(),
            final(self).normalizes() == normalize,
            final(self).seek_position() == old(self).seek_position(),
    {
        self.normalize_gain = normalize;
    }

    /// A handle for the mix, before it runs or while it does.
    pub fn handle(&self) -> (handle: MixerHandle)
        ensures
            handle == (MixerHandle {}),
    {
        MixerHandle {}
    }

    /// Adds a streamer. Before the mixer plays it joins the others. Afterwards only its
    /// weight does. It gets a channel of the mix that runs, at the position that the mix has
    /// reached, and comes back to be played there; if the mix has ended it is dropped.
    pub fn add(
        &mut self,
        mix: &mut Option<MixState>,
        streamer: S,
        weight: u32,
        auto_seek: bool,
        finished: bool,
        control: ControlHandle,
    ) -> (live: Option<S>)
        requires
            old(self).wf(),
            mix_wf(*old(mix)),
        ensures
            final(self).wf(),
            mix_wf(*final(mix)),
            final(self).same_settings(*old(self)),
            final(self).weights() == old(self).weights().push(weight),
            final(self).streamers() == (if old(self).playing() is Some {
                old(self).streamers()
            } else {
                old(self).streamers().push(streamer)
            }),
            live == (if old(self).playing() is Some && runs(*old(mix)) {
                Some(streamer)
            } else {
                None
            }),
            live is None ==> *final(mix) == *old(mix),
            live is Some ==> {
                let before = (*old(mix))->0;
                let index = before.position();
                &&& *final(mix) is Some
                &&& (*final(mix))->0.has_applied(
                    before,
                    (MixerCommand::Add { index, finished, weight, control }),
                )
                &&& before.in_step() ==> (*final(mix))->0.in_step()
            },
            live is Some ==> {
                let before = (*old(mix))->0;
                let after = (*final(mix))->0;
                &&& !before.finished()
                &&& after.channels().len() == before.channels().len() + 1
                &&& after.channels().drop_last() == before.channels()
                &&& after.channels().last().index == before.position()
                &&& after.channels().last().weight == weight
                &&& after.channels().last().finished == finished
                &&& after.channels().last().buffer@.len() == 0
                &&& after.children() == before.children().push(control)
            },
            final(self).playing() == old(self).playing(),
            final(self).control() == old(self).control(),
            final(self).commands() == old(self).commands(),
            final(self).normalizes() == old(self).normalizes(),
    {
        self.weights.push(weight);
        if self.playing.is_none() {
            self.streamers.push(streamer);
            return None;
        }
        if self.handle().add(mix, weight, auto_seek, finished, control) {
            Some(streamer)
        } else {
            None
        }
    }

    /// Finishes a channel of the running mix, if it has one of that number; nothing happens
    /// where no mix runs.
    pub fn stop_channel(&self, mix: &mut Option<MixState>, ch_no: usize)
        requires
            mix_wf(*old(mix)),
        ensures
            mix_wf(*final(mix)),
            !runs(*old(mix)) ==> *final(mix) == *old(mix),
            runs(*old(mix)) ==> {
                &&& *final(mix) is Some
                &&& (*final(mix))->0.has_applied((*old(mix))->0, MixerCommand::Stop(ch_no))
            },
            *old(mix) is None ==> *final(mix) is None,
            *old(mix) is Some ==> {
                let before = (*old(mix))->0;
                let after = (*final(mix))->0;
                &&& *final(mix) is Some
                &&& before.finished() ==> after == before
                &&& after.channels().len() == before.channels().len()
                &&& after.children() == before.children()
                &&& after.position() == before.position()
                &&& forall|j: int|
                    0 <= j < before.channels().len() ==> {
                        let c = #[trigger] after.channels()[j];
                        &&& c.finished == (before.channels()[j].finished || (j == ch_no
                            && !before.finished()))
                        &&& c.buffer == before.channels()[j].buffer
                        &&& c.index == before.channels()[j].index
                        &&& c.weight == before.channels()[j].weight
                    }
            },
    {
        self.handle().stop_channel(mix, ch_no)
    }

    pub fn get_streamers(&self) -> (streamers: &Vec<S>)
        ensures
            streamers@ == self.streamers(),
    {
        &self.streamers
    }

    pub fn get_weights(&self) -> (weights: Vec<u32>)
        ensures
            weights@ == self.weights(),
    {
        let mut weights: Vec<u32> = Vec::new();
        let mut i: usize = 0;
        while i < self.weights.len()
            invariant
                i <= self.weights@.len(),
                weights@ =~= self.weights@.take(i as int),
            decreases self.weights@.len() - i,
        {
            weights.push(self.weights[i]);
            i = i + 1;
        }
        assert(self.weights@.take(i as int) =~= self.weights@);
        weights
    }

    pub fn set_weight(&mut self, index: usize, weight: u32)
        requires
            old(self).wf(),
            index < old(self).weights().len(),
        ensures
            final(self).wf(),
            final(self).same_settings(*old(self)),
            final(self).streamers() == old(self).streamers(),
            final(self).weights() == old(self).weights().update(index as int, weight),
            final(self).playing() == old(self).playing(),
            final(self).control() == old(self).control(),
            final(self).commands() == old(self).commands(),
            final(self).normalizes() == old(self).normalizes(),
    {
        self.weights.set(index, weight);
    }

    /// Starts the mix on an output, with the handles of the streamers and whether
    /// each has finished: one channel for each streamer, from the start. From now on
    /// channels can be added and stopped. A mixer plays once.
    pub fn play(
        &mut self,
        output_info: DeviceOutputInfo,
        children: Vec<ControlHandle>,
        finished: &Vec<bool>,
    ) -> (result: Result<(MixState, Receiver<ControlCommand>), StreamErr>)
        requires
            old(self).wf(),
            children@.len() == old(self).streamers().len(),
            finished@.len() == old(self).streamers().len(),
        ensures
            final(self).wf(),
            final(self).streamers() == old(self).streamers(),
            final(self).weights() == old(self).weights(),
            final(self).control() == old(self).control(),
            final(self).normalizes() == old(self).normalizes(),
            final(self).seek_position() == old(self).seek_position(),
            final(self).commands() is None,
            final(self).playing() == Some(output_info),
            match result {
                Ok((state, commands)) => {
                    &&& old(self).commands() == Some(commands)
                    &&& state.wf()
                    &&& state.in_step()
                    &&& state.children() == children@
                    &&& state.position() == 0
                    &&& state.normalizes() == old(self).normalizes()
                    &&& !state.stopped()
                    &&& !state.finished()
                    &&& state.channels().len() == old(self).streamers().len()
                    &&& forall|j: int|
                        0 <= j < state.channels().len() ==> {
                            &&& (#[trigger] state.channels()[j]).buffer@ == Seq::<Sample>::empty()
                            &&& state.channels()[j].index == 0
                            &&& state.channels()[j].finished == finished@[j]
                            &&& state.channels()[j].weight == old(self).weights()[j]
                        }
                },
                Err(e) => old(self).commands() is None && e == StreamErr::AlreadyPlaying,
            },
    {
        self.playing = Some(output_info);
        let mut commands: Option<Receiver<ControlCommand>> = None;
        std::mem::swap(&mut commands, &mut self.control_rx);
        let commands: Receiver<ControlCommand> = match commands {
            Some(commands) => commands,
            None => {
                return Err(StreamErr::AlreadyPlaying);
            },
        };
        let mut channels: Vec<MixChannel> = Vec::new();
        let mut j: usize = 0;
        while j < children.len()
            invariant
                j <= children@.len(),
                channels@.len() == j,
                children@.len() == finished@.len(),
                children@.len() <= self.weights@.len(),
                forall|i: int|
                    0 <= i < j ==> {
                        &&& (#[trigger] channels@[i]).buffer@ == Seq::<Sample>::empty()
                        &&& channels@[i].index == 0
                        &&& channels@[i].finished == finished@[i]
                        &&& channels@[i].weight == self.weights@[i]
                    },
            decreases children@.len() - j,
        {
            channels.push(
                MixChannel {
                    buffer: VecDeque::new(),
                    index: 0,
                    finished: finished[j],
                    weight: self.weights[j],
                },
            );
            j = j + 1;
        }
        let state: MixState = MixState {
            channels,
            children,
            prev_index: 0,
            normalize_gain: self.normalize_gain,
            stopped: false,
            finished: false,
        };
        Ok((state, commands))
    }

    /// The handle that controls the mix.
    pub fn control_handle(&self) -> (handle: ControlHandle)
        ensures
            handle.controls_like(self.control()),
            handle.sent() == Seq::<(ControlCommand, bool)>::empty(),
            flag_stores(handle.flag()) == Seq::<bool>::empty(),
            flag_loads(handle.flag()) == Seq::<bool>::empty(),
    {
        self.control.clone()
    }

    /// The last seek position.
    pub fn last_seek_position(&self) -> (position: u64)
        ensures
            position == self.seek_position(),
    {
        self.last_seek_position
    }

    /// The duration of a mix of streamers with the given durations: the shortest of
    /// them, in so far as they have one.
    pub fn get_duration(durations: &Vec<Option<u64>>) -> (duration: Option<u64>)
        ensures
            duration == (if shortest(durations@) == 0 {
                None
            } else {
                Some(shortest(durations@))
            }),
            (forall|i: int| 0 <= i < durations@.len() ==> #[trigger] durations@[i] != Some(0u64)) ==> {
                &&& forall|i: int|
                    0 <= i < durations@.len() ==> (#[trigger] durations@[i] is Some ==> duration is Some
                        && duration->0 <= durations@[i]->0)
                &&& duration is Some ==> exists|i: int|
                    0 <= i < durations@.len() && #[trigger] durations@[i] == duration
            },
    {
        let mut d: u64 = 0;
        let mut i: usize = 0;
        assert(durations@.take(0) =~= Seq::<Option<u64>>::empty());
        while i < durations.len()
            invariant
                i <= durations@.len(),
                d == shortest(durations@.take(i as int)),
            decreases durations@.len() - i,
        {
            assert(durations@.take(i + 1).drop_last() =~= durations@.take(i as int));
            if let Some(duration) = durations[i] {
                if duration < d || d == 0 {
                    d = duration;
                }
            }
            i = i + 1;
        }
        assert(durations@.take(i as int) =~= durations@);
        proof {
            if forall|i: int| 0 <= i < durations@.len() ==> #[trigger] durations@[i] != Some(0u64) {
                law_shortest_is_least(durations@);
            }
        }
        if d == 0 {
            None
        } else {
            Some(d)
        }
    }
}

/// Durations count in their order: one more that is unknown changes nothing, and one more that
/// is known counts if it is shorter than the shortest so far or if there is none so far. A
/// duration of zero counts as none.
pub proof fn law_shortest_in_order(durations: Seq<Option<u64>>, last: Option<u64>)
    ensures
        shortest(Seq::<Option<u64>>::empty()) == 0,
        last is None ==> shortest(durations.push(last)) == shortest(durations),
        last is Some && shortest(durations) == 0 ==> shortest(durations.push(last)) == last->0,
        last is Some && shortest(durations) > 0 && last->0 <= shortest(durations) ==> shortest(
            durations.push(last),
        ) == last->0,
        last is Some && shortest(durations) > 0 && last->0 >= shortest(durations) ==> shortest(
            durations.push(last),
        ) == shortest(durations),
{
    assert(durations.push(last).drop_last() =~= durations);
}

/// The shortest duration is the least of those that are known, as long as none is zero;
/// there is none exactly if no duration is known.
pub proof fn law_shortest_is_least(durations: Seq<Option<u64>>)
    requires
        forall|i: int| 0 <= i < durations.len() ==> #[trigger] durations[i] != Some(0u64),
    ensures
        forall|i: int|
            0 <= i < durations.len() ==> (#[trigger] durations[i] matches Some(d) ==> shortest(
                durations,
            ) != 0 && shortest(durations) <= d),
        shortest(durations) != 0 ==> exists|i: int|
            0 <= i < durations.len() && #[trigger] durations[i] == Some(shortest(durations)),
    decreases durations.len(),
{
    if durations.len() > 0 {
        let rest = durations.drop_last();
        let last = durations.last();
        assert forall|i: int| 0 <= i < rest.len() implies #[trigger] rest[i] != Some(0u64) by {
            assert(rest[i] == durations[i]);
        }
        law_shortest_is_least(rest);
        assert(durations[durations.len() - 1] == last);
        assert forall|i: int| 0 <= i < durations.len() implies (
        #[trigger] durations[i] matches Some(d) ==> shortest(durations) != 0 && shortest(durations)
            <= d) by {
            if i < rest.len() {
                assert(rest[i] == durations[i]);
            }
        }
        if shortest(durations) != 0 && last != Some(shortest(durations)) {
            let i = choose|i: int|
                0 <= i < rest.len() && #[trigger] rest[i] == Some(shortest(rest));
            assert(durations[i] == rest[i]);
        }
    }
}

/// What a step of a mix comes to: it ends with a stop, and once every channel has finished;
/// it waits for a channel that has not delivered beyond the mix; otherwise samples come out,
/// up to where the slowest channel is, and just as many are taken out of every channel that
/// has not finished.
pub proof fn law_mix_step(before: MixState, after: MixState, step: MixStep)
    requires
        after.has_mixed(before, step),
    ensures
        step is Stopped <==> before.stopped(),
        step is Finished <==> !before.stopped() && forall|j: int|
            0 <= j < before.channels().len() ==> (#[trigger] before.channels()[j]).finished
                || before.channels()[j].index == usize::MAX,
        step is Idle <==> !before.stopped() && exists|j: int|
            0 <= j < before.channels().len() && !(#[trigger] before.channels()[j]).finished
                && before.channels()[j].index <= before.position() && before.channels()[j].index
                != usize::MAX,
        after.finished() == (before.finished() || step is Stopped || step is Finished),
        after.stopped() == before.stopped(),
        after.normalizes() == before.normalizes(),
        after.children() == before.children(),
        !(step is Output) ==> after.channels() == before.channels() && after.position()
            == before.position(),
        step matches MixStep::Output(output) ==> {
            &&& output@.len() > 0
            &&& after.position() == before.position() + output@.len()
            &&& after.channels().len() == before.channels().len()
            &&& forall|j: int|
                0 <= j < before.channels().len() ==> {
                    let was = before.channels()[j];
                    let is = #[trigger] after.channels()[j];
                    &&& is.index == was.index
                    &&& is.finished == was.finished
                    &&& is.weight == was.weight
                    &&& was.finished ==> is.buffer@ == was.buffer@
                    &&& !was.finished ==> was.index >= after.position()
                    &&& !was.finished && was.buffer@.len() >= output@.len() ==> is.buffer@
                        == was.buffer@.skip(output@.len() as int)
                    &&& !was.finished && was.buffer@.len() < output@.len() ==> is.buffer@.len() == 0
                }
            &&& exists|j: int|
                0 <= j < before.channels().len() && !(#[trigger] before.channels()[j]).finished
                    && before.channels()[j].index == after.position()
            &&& output@ == mixed(
                before.channels(),
                output@.len(),
                mix_factor(before.normalizes(), total_weight(before.channels())),
            )
        },
{
    let channels = before.channels();
    lemma_lowest_index(channels);
    if lowest_index(channels) != usize::MAX {
        lemma_lowest_is_reached(channels);
    }
    lemma_mixed_len(
        channels,
        before.ready(),
        mix_factor(before.normalizes(), total_weight(channels)),
    );
    if let MixStep::Output(output) = step {
        assert forall|j: int| 0 <= j < channels.len() implies {
            let was = channels[j];
            let is = #[trigger] after.channels()[j];
            &&& !was.finished ==> was.index >= after.position()
            &&& !was.finished && was.buffer@.len() >= output@.len() ==> is.buffer@
                == was.buffer@.skip(output@.len() as int)
            &&& !was.finished && was.buffer@.len() < output@.len() ==> is.buffer@.len() == 0
        } by {
            let was = channels[j];
            if was.buffer@.len() == output@.len() {
                assert(was.buffer@.skip(output@.len() as int) =~= Seq::<Sample>::empty());
            }
        }
    }
}

/// As many samples are mixed as were asked for.
proof fn lemma_mixed_len(channels: Seq<MixChannel>, size: nat, factor: Sample)
    ensures
        mixed(channels, size, factor).len() == size,
    decreases channels.len(),
{
    if channels.len() > 0 {
        lemma_mixed_len(channels.drop_last(), size, factor);
    }
}

/// A command that a mix takes goes to every child, unless it is a seek: exactly that command
/// goes out through each handle. A stop ends the mix, and no command mixes anything.
pub proof fn law_mix_obeys(before: MixState, after: MixState, command: ControlCommand)
    requires
        after.has_taken(before, command),
    ensures
        after.channels() == before.channels(),
        after.position() == before.position(),
        after.normalizes() == before.normalizes(),
        after.stopped() == (before.stopped() || command is Stop),
        after.finished() == (before.finished() || command is Stop),
        after.children().len() == before.children().len(),
        forall|i: int|
            0 <= i < before.children().len() ==> {
                let was = before.children()[i];
                let is = #[trigger] after.children()[i];
                &&& is.controls_like(was)
                &&& is.flag() == was.flag()
                &&& command is Seek ==> is.sent() == was.sent()
                &&& !(command is Seek) ==> is.sent().len() == was.sent().len() + 1
                    && is.sent().drop_last() == was.sent() && is.sent().last().0 == command
            },
{
    if !(command is Seek) {
        lemma_told(before.children(), after.children(), Some(command));
    }
}

/// A channel that is stopped counts as finished from then on and all else stays; one that is
/// added comes behind the others, with nothing in its buffer.
pub proof fn law_mix_applies(before: MixState, after: MixState, command: MixerCommand)
    requires
        after.has_applied(before, command),
    ensures
        after.position() == before.position(),
        after.normalizes() == before.normalizes(),
        after.stopped() == before.stopped(),
        after.finished() == before.finished(),
        command matches MixerCommand::Stop(channel) ==> {
            &&& after.children() == before.children()
            &&& after.channels().len() == before.channels().len()
            &&& forall|j: int|
                0 <= j < before.channels().len() ==> {
                    let was = before.channels()[j];
                    let is = #[trigger] after.channels()[j];
                    &&& is.finished == (was.finished || j == channel)
                    &&& is.buffer == was.buffer
                    &&& is.index == was.index
                    &&& is.weight == was.weight
                }
        },
        command matches MixerCommand::Add { index, finished, weight, control } ==> {
            let n = before.channels().len() as int;
            &&& after.channels().len() == n + 1
            &&& after.channels().drop_last() == before.channels()
            &&& after.channels()[n].buffer@.len() == 0
            &&& after.channels()[n].index == index
            &&& after.channels()[n].finished == finished
            &&& after.channels()[n].weight == weight
            &&& after.children().len() == before.children().len() + 1
            &&& after.children().drop_last() == before.children()
            &&& after.children().last() == control
        },
{
    if command is Add {
        assert(after.channels().drop_last() =~= before.channels());
        assert(after.children().drop_last() =~= before.children());
        assert(after.channels()[before.channels().len() as int] == after.channels().last());
    }
}

} // verus!
