//! The player: puts out what a streamer produces, and runs callbacks at samples.

use vstd::prelude::*;
use vstd::arithmetic::power2::{
    lemma2_to64, lemma2_to64_rest, lemma_pow2_adds, lemma_pow2_pos, lemma_pow2_strictly_increases,
    lemma_pow2_unfold, pow2,
};
use crate::float::{
    bit_length, lemma_bit_length_at_most, lemma_bit_length_bounds, lemma_nearest_exact,
    lemma_round_int_error, lemma_round_int_exact, lemma_round_int_positive, lemma_round_int_scaled,
    lemma_round_ratio_cancel, lemma_round_ratio_error, lemma_round_ratio_monotone, round_int,
    round_ratio,
};
use crate::sample::{
    law_times_unity, law_whole_is_integer_part, lemma_count_units, lemma_product_units,
    lemma_quotient_units, Sample, SILENCE, UNITY,
};
use crate::seconds::Seconds;
use crate::shared::{counter_loads, counter_stores, on_one_counter, SharedCounter};
use crate::streamer::device::{
    bounds_in_order, choose_output_config, find_range, law_first_range_at_nearest_rate,
    output_config, OutputConfigRange, OutputDevice,
};
use crate::streamer::playlist::{as_index, output_samples, seconds_to_samples};
use crate::streamer::{Callback, DeviceOutputInfo, StreamErr, StreamerInputInfo, NO_SEEK};

pub mod ring;
pub mod schedule;

use ring::SampleRing;
use schedule::{
    law_each_comes_up, law_empty_in_order, law_fired_comes_again, law_fired_in_order,
    law_registered, law_sought_in_order, CallbackSchedule, ScheduleView,
};

verus! {

/// Which rate and channels a player asks its device for.
#[derive(Debug, Clone, Copy, PartialEq, Eq, Structural)]
pub enum BitRateInfo {
    /// Those of the streamer's input, if they are known.
    Streamer,
    /// Those that the device prefers.
    DeviceDefault,
    /// A rate and a number of channels.
    Manual(u32, u16),
}

/// What the player is told.
#[derive(Debug, Clone, Copy, PartialEq, Eq, Structural)]
pub enum StreamCommand {
    Pause,
    Resume,
    Stop,
}

/// What a streamer tells the player. Callbacks have to follow a seek.
#[derive(Debug, Clone, Copy, PartialEq, Eq, Structural)]
pub enum StreamNotify {
    Seek(Seconds),
    Rewind,
}

/// The rate and the channels that a player asks for.
pub open spec fn wish(
    input_info: Result<StreamerInputInfo, StreamErr>,
    bit_rate_info: BitRateInfo,
    default_config: DeviceOutputInfo,
) -> (u32, u16) {
    match bit_rate_info {
        BitRateInfo::Manual(sample_rate, channels) => (sample_rate, channels),
        BitRateInfo::DeviceDefault => (default_config.sample_rate, default_config.channels),
        BitRateInfo::Streamer => match input_info {
            Ok(info) => (info.sample_rate, info.channels),
            Err(_) => (default_config.sample_rate, default_config.channels),
        },
    }
}

/// The output that a player plays on. The device is missing if there is none; it is
/// asked for its default and for its configurations in this order.
pub open spec fn player_output(
    input_info: Result<StreamerInputInfo, StreamErr>,
    bit_rate_info: BitRateInfo,
    device: Option<OutputDevice>,
) -> Result<DeviceOutputInfo, StreamErr> {
    match device {
        None => Err(StreamErr::NoOutputDevice),
        Some(d) => match (d.default_config, d.configs) {
            (Some(default_config), Some(ranges)) => {
                let (sample_rate, channels) = wish(input_info, bit_rate_info, default_config);
                output_config(ranges@, sample_rate, channels)
            },
            _ => Err(StreamErr::QueryOutputDeviceError),
        },
    }
}

/// The configurations that a player may choose from have their bounds in order.
pub open spec fn device_in_order(
    input_info: Result<StreamerInputInfo, StreamErr>,
    bit_rate_info: BitRateInfo,
    device: Option<OutputDevice>,
) -> bool {
    (device matches Some(d) && d.default_config is Some && d.configs is Some) ==> {
        let d = device->0;
        bounds_in_order(
            d.configs->0@,
            wish(input_info, bit_rate_info, d.default_config->0).1,
        )
    }
}

/// Whether the configurations that a player may choose from have their bounds in order.
pub fn is_device_in_order(
    input_info: &Result<StreamerInputInfo, StreamErr>,
    bit_rate_info: BitRateInfo,
    device: &Option<OutputDevice>,
) -> (in_order: bool)
    ensures
        in_order == device_in_order(*input_info, bit_rate_info, *device),
        in_order == match *device {
            Some(OutputDevice { default_config: Some(config), configs: Some(ranges) }) => {
                let channels = match bit_rate_info {
                    BitRateInfo::Manual(_, channels) => channels,
                    BitRateInfo::DeviceDefault => config.channels,
                    BitRateInfo::Streamer => match *input_info {
                        Ok(info) => info.channels,
                        Err(_) => config.channels,
                    },
                };
                forall|i: int|
                    0 <= i < ranges@.len() && (#[trigger] ranges@[i]).channels == channels && (
                    forall|j: int| 0 <= j < i ==> (#[trigger] ranges@[j]).channels != channels)
                        ==> ranges@[i].min_sample_rate <= ranges@[i].max_sample_rate
            },
            _ => true,
        },
{
    match device {
        None => true,
        Some(device) => match (device.default_config, &device.configs) {
            (Some(config), Some(ranges)) => {
                let channels: u16 = match bit_rate_info {
                    BitRateInfo::Manual(_, channels) => channels,
                    BitRateInfo::DeviceDefault => config.channels,
                    BitRateInfo::Streamer => match input_info {
                        Ok(info) => info.channels,
                        Err(_) => config.channels,
                    },
                };
                match find_range(ranges, channels) {
                    None => true,
                    Some(range) => range.min_sample_rate <= range.max_sample_rate,
                }
            },
            _ => true,
        },
    }
}

/// `size` is the smallest power of two that is at least `n`.
pub open spec fn is_next_power_of_two(n: nat, size: nat) -> bool {
    &&& size >= n
    &&& exists|k: nat| size == #[trigger] pow2(k) && forall|j: nat| #[trigger]
        pow2(j) >= n ==> pow2(j) >= size
}

/// How many samples the buffer is made for: one second of output. The product is a
/// single-precision one.
pub open spec fn buffered_samples(info: DeviceOutputInfo) -> usize {
    as_index(
        Sample::of_count(info.sample_rate as nat).product(
            Sample::of_count(info.channels as nat),
        ).product(Sample { bits: UNITY }).whole(),
    )
}

/// The smallest power of two that is at least `n`.
fn next_power_of_two(n: usize) -> (size: usize)
    requires
        n <= usize::MAX / 2 + 1,
    ensures
        is_next_power_of_two(n as nat, size as nat),
        size > 0,
        n > 0 ==> size < 2 * n,
        n == 0 ==> size == 1,
{
    let mut size: usize = 1;
    let ghost mut k: nat = 0;
    proof {
        lemma2_to64();
    }
    while size < n
        invariant
            n <= usize::MAX / 2 + 1,
            size == pow2(k),
            size > 0,
            k > 0 ==> pow2((k - 1) as nat) < n,
            n > 0 ==> size < 2 * n,
            n == 0 ==> size == 1,
        decreases 2 * n - size,
    {
        proof {
            lemma_pow2_unfold(k + 1);
            k = k + 1;
        }
        size = size * 2;
    }
    proof {
        assert forall|j: nat| #[trigger] pow2(j) >= n implies pow2(j) >= size by {
            if j < k {
                if j < k - 1 {
                    lemma_pow2_strictly_increases(j, (k - 1) as nat);
                }
            } else if j > k {
                lemma_pow2_strictly_increases(k, j);
            }
            lemma_pow2_pos(j);
        }
    }
    size
}

/// The time that `elapsed` samples take on an output, in milliseconds, as a
/// single-precision number.
pub open spec fn play_time(elapsed: u64, info: DeviceOutputInfo) -> Sample {
    let rate = Sample::of_count(info.sample_rate as nat).product(
        Sample::of_count(info.channels as nat),
    );
    Sample::of_count(elapsed as nat).quotient(rate).product(Sample { bits: THOUSAND })
}

/// The bit pattern of a single-precision thousand.
pub const THOUSAND: u32 = 0x447A_0000;

/// The time that `elapsed` samples take on an output, in milliseconds.
pub fn play_time_ms(elapsed: u64, info: DeviceOutputInfo) -> (ms: Sample)
    ensures
        ms == play_time(elapsed, info),
{
    let rate: Sample = Sample::from_count(info.sample_rate as u64).times(
        Sample::from_count(info.channels as u64),
    );
    Sample::from_count(elapsed).over(rate).times(Sample { bits: THOUSAND })
}

/// Tells how far a player is. A clone tells the same.
pub struct PlayerStatus {
    elapsed_samples: SharedCounter,
    device_output_info: DeviceOutputInfo,
}

impl PlayerStatus {
    /// The counter that the player shares.
    pub closed spec fn counter(self) -> SharedCounter {
        self.elapsed_samples
    }

    /// The output of the player.
    pub closed spec fn output_info(self) -> DeviceOutputInfo {
        self.device_output_info
    }

    /// The time that has been played, in milliseconds: that of the samples which the
    /// player has counted when it is asked. How many they are is not stated beyond that
    /// they are read from the counter: the output counts on another thread.
    pub fn get_play_time_ms(&mut self) -> (ms: Sample)
        ensures
            counter_loads(final(self).counter()).len() == counter_loads(old(self).counter()).len() + 1,
            counter_loads(final(self).counter()).drop_last() == counter_loads(old(self).counter()),
            ms == play_time(counter_loads(final(self).counter()).last(), old(self).output_info()),
            counter_stores(final(self).counter()) == counter_stores(old(self).counter()),
            final(self).counter().is_handle_like(old(self).counter()),
            final(self).output_info() == old(self).output_info(),
    {
        let elapsed: u64 = self.elapsed_samples.load();
        assert(counter_loads(self.counter()).drop_last() =~= counter_loads(old(self).counter()));
        play_time_ms(elapsed, self.device_output_info)
    }

    pub fn sample_rate(&self) -> (sample_rate: u32)
        ensures
            sample_rate == self.output_info().sample_rate,
    {
        self.device_output_info.sample_rate
    }

    pub fn channels(&self) -> (channels: u16)
        ensures
            channels == self.output_info().channels,
    {
        self.device_output_info.channels
    }
}

impl Clone for PlayerStatus {
    fn clone(&self) -> (status: Self)
        ensures
            status.counter().is_handle_like(self.counter()),
            counter_stores(status.counter()) == Seq::<u64>::empty(),
            counter_loads(status.counter()) == Seq::<u64>::empty(),
            status.output_info() == self.output_info(),
    {
        PlayerStatus {
            elapsed_samples: self.elapsed_samples.clone(),
            device_output_info: self.device_output_info,
        }
    }
}

/// A player of a streamer on an output.
pub struct StreamPlayerImpl<S> {
    device_output_info: DeviceOutputInfo,
    streamer: Option<S>,
    elapsed_samples: SharedCounter,
}

/// What opening the output stream came to.
#[derive(Debug, Clone, Copy, PartialEq, Eq, Structural)]
pub enum OutputOutcome {
    /// There is no device any more.
    NoDevice,
    /// The stream could not be made or would not play.
    Failed,
    Playing,
}

/// A player for a streamer, given what the streamer tells of its input and what the
/// default device tells of itself.
pub fn new_stream_player<S>(
    streamer: S,
    input_info: Result<StreamerInputInfo, StreamErr>,
    bit_rate_info: BitRateInfo,
    device: Option<OutputDevice>,
) -> (result: Result<StreamPlayerImpl<S>, StreamErr>)
    requires
        device_in_order(input_info, bit_rate_info, device),
    ensures
        match player_output(input_info, bit_rate_info, device) {
            Err(e) => result == Err::<StreamPlayerImpl<S>, StreamErr>(e),
            Ok(info) => {
                &&& result matches Ok(player)
                &&& player.output_info() == info
                &&& player.streamer() == Some(streamer)
                &&& counter_stores(player.counter()) == seq![0u64]
                &&& on_one_counter(player.counter(), player.counter())
            },
        },
        // What is asked for: the rate and the channels that are given, those of the device's
        // default, or those of the streamer's input as far as it is known.
        device is None ==> result is Err && result->Err_0 == StreamErr::NoOutputDevice,
        device matches Some(d) ==> d.default_config is None || d.configs is None ==> result is Err
            && result->Err_0 == StreamErr::QueryOutputDeviceError,
        device matches Some(d) ==> d.default_config is Some && d.configs is Some ==> {
            let ranges = d.configs->0@;
            let default_config = d.default_config->0;
            let known = bit_rate_info is Streamer && input_info is Ok;
            let rate = match bit_rate_info {
                BitRateInfo::Manual(rate, _) => rate,
                _ => if known {
                    input_info->Ok_0.sample_rate
                } else {
                    default_config.sample_rate
                },
            };
            let channels = match bit_rate_info {
                BitRateInfo::Manual(_, channels) => channels,
                _ => if known {
                    input_info->Ok_0.channels
                } else {
                    default_config.channels
                },
            };
            &&& result is Err <==> forall|i: int|
                0 <= i < ranges.len() ==> (#[trigger] ranges[i]).channels != channels
            &&& result is Err ==> result->Err_0 == StreamErr::NoDeviceConfigForChannelCount
            &&& result matches Ok(player) ==> player.output_info().channels == channels
                && player.streamer() == Some(streamer) && exists|i: int|
                #![trigger ranges[i]]
                0 <= i < ranges.len() && ranges[i].channels == channels && (forall|j: int|
                    0 <= j < i ==> (#[trigger] ranges[j]).channels != channels)
                    && ranges[i].min_sample_rate <= player.output_info().sample_rate
                    <= ranges[i].max_sample_rate && (rate < ranges[i].min_sample_rate
                    ==> player.output_info().sample_rate == ranges[i].min_sample_rate) && (rate
                    > ranges[i].max_sample_rate ==> player.output_info().sample_rate
                    == ranges[i].max_sample_rate) && (ranges[i].min_sample_rate <= rate
                    <= ranges[i].max_sample_rate ==> player.output_info().sample_rate == rate)
        },
{
    StreamPlayerImpl::new(streamer, input_info, bit_rate_info, device)
}

impl<S> StreamPlayerImpl<S> {
    /// The output that the player plays on.
    pub closed spec fn output_info(self) -> DeviceOutputInfo {
        self.device_output_info
    }

    /// The streamer, until the player starts.
    pub closed spec fn streamer(self) -> Option<S> {
        self.streamer
    }

    /// The counter of the samples that are out.
    pub closed spec fn counter(self) -> SharedCounter {
        self.elapsed_samples
    }

    /// A player for a streamer.
    pub fn new(
        streamer: S,
        input_info: Result<StreamerInputInfo, StreamErr>,
        bit_rate_info: BitRateInfo,
        device: Option<OutputDevice>,
    ) -> (result: Result<Self, StreamErr>)
        requires
            device_in_order(input_info, bit_rate_info, device),
        ensures
            match player_output(input_info, bit_rate_info, device) {
                Err(e) => result == Err::<Self, StreamErr>(e),
                Ok(info) => {
                    &&& result matches Ok(player)
                    &&& player.output_info() == info
                    &&& player.streamer() == Some(streamer)
                    &&& counter_stores(player.counter()) == seq![0u64]
                    &&& on_one_counter(player.counter(), player.counter())
                },
            },
            // What is asked for: the rate and the channels that are given, those of the device's
            // default, or those of the streamer's input as far as it is known.
            device is None ==> result is Err && result->Err_0 == StreamErr::NoOutputDevice,
            device matches Some(d) ==> d.default_config is None || d.configs is None ==> result is Err
                && result->Err_0 == StreamErr::QueryOutputDeviceError,
            device matches Some(d) ==> d.default_config is Some && d.configs is Some ==> {
                let ranges = d.configs->0@;
                let default_config = d.default_config->0;
                let known = bit_rate_info is Streamer && input_info is Ok;
                let rate = match bit_rate_info {
                    BitRateInfo::Manual(rate, _) => rate,
                    _ => if known {
                        input_info->Ok_0.sample_rate
                    } else {
                        default_config.sample_rate
                    },
                };
                let channels = match bit_rate_info {
                    BitRateInfo::Manual(_, channels) => channels,
                    _ => if known {
                        input_info->Ok_0.channels
                    } else {
                        default_config.channels
                    },
                };
                &&& result is Err <==> forall|i: int|
                    0 <= i < ranges.len() ==> (#[trigger] ranges[i]).channels != channels
                &&& result is Err ==> result->Err_0 == StreamErr::NoDeviceConfigForChannelCount
                &&& result matches Ok(player) ==> player.output_info().channels == channels
                    && player.streamer() == Some(streamer) && exists|i: int|
                    #![trigger ranges[i]]
                    0 <= i < ranges.len() && ranges[i].channels == channels && (forall|j: int|
                        0 <= j < i ==> (#[trigger] ranges[j]).channels != channels)
                        && ranges[i].min_sample_rate <= player.output_info().sample_rate
                        <= ranges[i].max_sample_rate && (rate < ranges[i].min_sample_rate
                        ==> player.output_info().sample_rate == ranges[i].min_sample_rate) && (rate
                        > ranges[i].max_sample_rate ==> player.output_info().sample_rate
                        == ranges[i].max_sample_rate) && (ranges[i].min_sample_rate <= rate
                        <= ranges[i].max_sample_rate ==> player.output_info().sample_rate == rate)
            },
    {
        let device: OutputDevice = match device {
            None => {
                return Err(StreamErr::NoOutputDevice);
            },
            Some(device) => device,
        };
        let default_config: DeviceOutputInfo = match device.default_config {
            None => {
                return Err(StreamErr::QueryOutputDeviceError);
            },
            Some(config) => config,
        };
        let (sample_rate, channels): (u32, u16) = match bit_rate_info {
            BitRateInfo::Manual(sample_rate, channels) => (sample_rate, channels),
            BitRateInfo::DeviceDefault => (default_config.sample_rate, default_config.channels),
            BitRateInfo::Streamer => match input_info {
                Ok(info) => (info.sample_rate, info.channels),
                Err(_) => (default_config.sample_rate, default_config.channels),
            },
        };
        let ranges: Vec<OutputConfigRange> = match device.configs {
            None => {
                return Err(StreamErr::QueryOutputDeviceError);
            },
            Some(ranges) => ranges,
        };
        match choose_output_config(&ranges, sample_rate, channels) {
            Err(e) => Err(e),
            Ok(device_output_info) => Ok(
                StreamPlayerImpl {
                    device_output_info,
                    streamer: Some(streamer),
                    elapsed_samples: SharedCounter::new(0),
                },
            ),
        }
    }

    /// The output that the player plays on.
    pub fn device_output_info(&self) -> (info: DeviceOutputInfo)
        ensures
            info == self.output_info(),
    {
        self.device_output_info
    }

    /// How many samples the buffer of a playback is made for.
    pub fn buffer_size(&self) -> (samples: usize)
        ensures
            samples == buffered_samples(self.output_info()),
            self.output_info().sample_rate * self.output_info().channels <= 0x100_0000 ==> samples
                == self.output_info().sample_rate * self.output_info().channels,
    {
        let info: DeviceOutputInfo = self.device_output_info;
        proof {
            law_buffer_is_one_second(info);
        }
        let samples: u64 = Sample::from_count(info.sample_rate as u64).times(
            Sample::from_count(info.channels as u64),
        ).times(Sample { bits: UNITY }).to_whole();
        if samples > usize::MAX as u64 {
            usize::MAX
        } else {
            samples as usize
        }
    }

    /// Makes what the threads of a playback share: the buffer for a second of output,
    /// the counters and the schedule of the callbacks.
    pub fn prepare(&self) -> (playback: Playback)
        requires
            8 * buffered_samples(self.output_info()) <= isize::MAX,
        ensures
            playback.wf(),
            playback@.counter.is_handle_like(self.counter()),
            counter_stores(playback@.counter) == Seq::<u64>::empty(),
            is_next_power_of_two(
                buffered_samples(self.output_info()) as nat,
                playback@.capacity,
            ),
            playback@ == (PlayerView {
                info: self.output_info(),
                buffer: Seq::<Sample>::empty(),
                capacity: playback@.capacity,
                elapsed: 0,
                media: 0,
                counter: playback@.counter,
                schedule: ScheduleView::empty(),
                pending_seek: NO_SEEK,
                paused: false,
                stopped: false,
            }),
            playback@.info == self.output_info(),
            playback@.buffer.len() == 0,
            playback@.elapsed == 0 && playback@.media == 0,
            playback@.schedule.next == 0,
            playback@.schedule.waiting.len() == 0 && playback@.schedule.passed.len() == 0,
            playback@.pending_seek == u64::MAX,
            !playback@.paused && !playback@.stopped,
            playback@.capacity >= buffered_samples(self.output_info()),
            buffered_samples(self.output_info()) > 0 ==> playback@.capacity < 2 * buffered_samples(
                self.output_info(),
            ),
            exists|k: nat| playback@.capacity == #[trigger] pow2(k),
    {
        let ring_size: usize = next_power_of_two(self.buffer_size());
        proof {
            law_empty_in_order();
        }
        Playback {
            device_output_info: self.device_output_info,
            ring: SampleRing::new(ring_size),
            elapsed_samples: 0,
            media_elapsed_samples: 0,
            counter: self.elapsed_samples.clone(),
            schedule: CallbackSchedule::new(),
            pending_seek: NO_SEEK,
            paused: false,
            stopped: false,
        }
    }

    /// Starts the player once its output plays. The streamer comes out, to be played.
    pub fn start(&mut self, output: OutputOutcome) -> (result: Result<S, StreamErr>)
        requires
            output == OutputOutcome::Playing ==> old(self).streamer() is Some,
        ensures
            final(self).output_info() == old(self).output_info(),
            final(self).counter() == old(self).counter(),
            match output {
                OutputOutcome::NoDevice => {
                    &&& result == Err::<S, StreamErr>(StreamErr::NoOutputDevice)
                    &&& final(self).streamer() == old(self).streamer()
                },
                OutputOutcome::Failed => {
                    &&& result == Err::<S, StreamErr>(StreamErr::OutputStreamError)
                    &&& final(self).streamer() == old(self).streamer()
                },
                OutputOutcome::Playing => {
                    &&& result == Ok::<S, StreamErr>(old(self).streamer()->0)
                    &&& final(self).streamer() is None
                },
            },
    {
        match output {
            OutputOutcome::NoDevice => Err(StreamErr::NoOutputDevice),
            OutputOutcome::Failed => Err(StreamErr::OutputStreamError),
            OutputOutcome::Playing => {
                let mut streamer: Option<S> = None;
                std::mem::swap(&mut streamer, &mut self.streamer);
                Ok(streamer.unwrap())
            },
        }
    }

    /// Tells how far the player is, also after it has been moved.
    pub fn status(&self) -> (status: PlayerStatus)
        ensures
            status.counter().is_handle_like(self.counter()),
            counter_stores(status.counter()) == Seq::<u64>::empty(),
            counter_loads(status.counter()) == Seq::<u64>::empty(),
            status.output_info() == self.output_info(),
    {
        PlayerStatus {
            elapsed_samples: self.elapsed_samples.clone(),
            device_output_info: self.device_output_info,
        }
    }
}

/// What the threads of a playback share.
pub struct Playback {
    device_output_info: DeviceOutputInfo,
    ring: SampleRing,
    elapsed_samples: u64,
    media_elapsed_samples: u64,
    counter: SharedCounter,
    schedule: CallbackSchedule,
    pending_seek: u64,
    paused: bool,
    stopped: bool,
}

/// What can be said of a playback.
pub ghost struct PlayerView {
    pub info: DeviceOutputInfo,
    /// The samples that wait for the output, the eldest first.
    pub buffer: Seq<Sample>,
    pub capacity: nat,
    /// How many samples are out.
    pub elapsed: u64,
    /// How far the media is, in samples: a seek sets it.
    pub media: u64,
    /// Where the samples that are out are counted for others to see.
    pub counter: SharedCounter,
    pub schedule: ScheduleView,
    /// Where a seek goes that the output has not followed yet.
    pub pending_seek: u64,
    pub paused: bool,
    pub stopped: bool,
}

/// What a look at the schedule comes to.
#[derive(Debug, Clone, Copy, PartialEq, Eq, Structural)]
pub enum PollStep {
    /// The playback was stopped.
    Stopped,
    /// Nothing is due yet.
    Wait,
    /// A callback is due.
    Due(Callback),
}

impl View for Playback {
    type V = PlayerView;

    closed spec fn view(&self) -> PlayerView {
        PlayerView {
            info: self.device_output_info,
            buffer: self.ring.items(),
            capacity: self.ring.capacity(),
            elapsed: self.elapsed_samples,
            media: self.media_elapsed_samples,
            counter: self.counter,
            schedule: self.schedule@,
            pending_seek: self.pending_seek,
            paused: self.paused,
            stopped: self.stopped,
        }
    }
}

impl PlayerView {
    /// What the output gets of `len` samples: what waits for it, then silence.
    pub open spec fn next_output(self, len: nat) -> Seq<Sample> {
        let buffer = self.after_seek().buffer;
        Seq::new(
            len,
            |k: int|
                if k < buffer.len() {
                    buffer[k]
                } else {
                    Sample { bits: SILENCE }
                },
        )
    }

    /// The output follows a seek that is pending: what waited is dropped, and the
    /// media is at its new position.
    pub open spec fn after_seek(self) -> PlayerView {
        if self.pending_seek == NO_SEEK {
            self
        } else {
            PlayerView {
                buffer: Seq::empty(),
                media: self.pending_seek,
                pending_seek: NO_SEEK,
                ..self
            }
        }
    }

    /// After the output got `len` samples.
    pub open spec fn after_output(self, len: nat) -> PlayerView {
        let sought = self.after_seek();
        PlayerView {
            buffer: (if sought.buffer.len() <= len {
                Seq::empty()
            } else {
                sought.buffer.skip(len as int)
            }),
            elapsed: sought.elapsed.wrapping_add(len as u64),
            media: sought.media.wrapping_add(len as u64),
            ..sought
        }
    }

    /// After a streamer has told of a seek to a time. A seek that no streamer has noted
    /// is passed over.
    pub open spec fn after_notice(self, secs: Seconds, last_seek_position: u64) -> PlayerView {
        if last_seek_position == NO_SEEK {
            self
        } else {
            let position = output_samples(secs, self.info);
            PlayerView {
                pending_seek: position,
                schedule: self.schedule.sought(position),
                ..self
            }
        }
    }
}

impl Playback {
    /// The buffer holds no more than it has room for, and no callback waits at zero.
    pub closed spec fn wf(self) -> bool {
        &&& self.ring.wf()
        &&& self.schedule@.is_zero_free()
    }

    /// How long the output takes for as many frames as the buffer has room for samples,
    /// in seconds, as a single-precision number: the buffer is empty by then.
    pub fn drain_time(&self) -> (secs: Sample)
        requires
            self.wf(),
            self@.info.sample_rate > 0,
        ensures
            secs == Sample::of_ratio(self@.capacity, self@.info.sample_rate as nat),
    {
        Sample::from_ratio(self.ring.size() as u64, self.device_output_info.sample_rate as u64)
    }

    /// Puts samples of the streamer into the buffer, from `offset` on, as far as there
    /// is room. The result is where the rest starts; it has to wait.
    pub fn push(&mut self, data: &Vec<Sample>, offset: usize) -> (rest: usize)
        requires
            old(self).wf(),
            offset <= data@.len(),
        ensures
            final(self).wf(),
            rest == (if data@.len() - offset <= old(self)@.capacity - old(self)@.buffer.len() {
                data@.len() as int
            } else {
                offset + old(self)@.capacity - old(self)@.buffer.len()
            }),
            final(self)@ == (PlayerView {
                buffer: old(self)@.buffer + data@.subrange(offset as int, rest as int),
                ..old(self)@
            }),
    {
        self.ring.push_from(data, offset)
    }

    /// Fills what the output asks for, and counts it.
    pub fn fill(&mut self, out: &mut Vec<Sample>)
        requires
            old(self).wf(),
        ensures
            final(self).wf(),
            final(out)@ == old(self)@.next_output(old(out)@.len()),
            // What waits goes out, the eldest first, then silence; after a seek only silence.
            final(out)@.len() == old(out)@.len(),
            old(self)@.pending_seek == u64::MAX ==> forall|k: int|
                0 <= k < old(out)@.len() && k < old(self)@.buffer.len() ==> #[trigger] final(out)@[k]
                    == old(self)@.buffer[k],
            forall|k: int|
                0 <= k < old(out)@.len() && (k >= old(self)@.buffer.len() || old(self)@.pending_seek
                    != u64::MAX) ==> (#[trigger] final(out)@[k]).bits == 0,
            old(self)@.pending_seek != u64::MAX ==> final(self)@.buffer.len() == 0,
            old(self)@.pending_seek == u64::MAX && old(self)@.buffer.len() <= old(out)@.len()
                ==> final(self)@.buffer.len() == 0,
            old(self)@.pending_seek == u64::MAX && old(self)@.buffer.len() > old(out)@.len()
                ==> final(self)@.buffer == old(self)@.buffer.skip(old(out)@.len() as int),
            // Every sample that goes out is counted, whatever it is.
            final(self)@.elapsed == old(self)@.elapsed.wrapping_add(old(out)@.len() as u64),
            old(self)@.pending_seek == u64::MAX ==> final(self)@.media == old(
                self,
            )@.media.wrapping_add(old(out)@.len() as u64),
            old(self)@.pending_seek != u64::MAX ==> final(self)@.media == old(
                self,
            )@.pending_seek.wrapping_add(old(out)@.len() as u64),
            final(self)@.pending_seek == u64::MAX,
            final(self)@.info == old(self)@.info,
            final(self)@.capacity == old(self)@.capacity,
            final(self)@.schedule == old(self)@.schedule,
            final(self)@.paused == old(self)@.paused,
            final(self)@.stopped == old(self)@.stopped,
            final(self)@ == (PlayerView {
                counter: final(self)@.counter,
                ..old(self)@.after_output(old(out)@.len())
            }),
            final(self)@.counter.is_handle_like(old(self)@.counter),
            counter_stores(final(self)@.counter) == counter_stores(old(self)@.counter).push(
                final(self)@.elapsed,
            ),
            counter_loads(final(self)@.counter) == counter_loads(old(self)@.counter),
    {
        if self.pending_seek != NO_SEEK {
            self.ring.clear();
            self.media_elapsed_samples = self.pending_seek;
            self.pending_seek = NO_SEEK;
        }
        let ghost start = self@;
        assert(start == old(self)@.after_seek());
        let ghost buffer = self.ring.items();
        let len: usize = out.len();
        let mut k: usize = 0;
        while k < len
            invariant
                k <= len,
                out@.len() == len,
                self.ring.wf(),
                self.ring.capacity() == start.capacity,
                self.schedule@.is_zero_free(),
                self@ == (PlayerView { buffer: self.ring.items(), ..start }),
                self.ring.items() =~= (if buffer.len() <= k {
                    Seq::empty()
                } else {
                    buffer.skip(k as int)
                }),
                forall|i: int|
                    0 <= i < k ==> #[trigger] out@[i] == (if i < buffer.len() {
                        buffer[i]
                    } else {
                        Sample { bits: SILENCE }
                    }),
            decreases len - k,
        {
            let sample: Sample = self.ring.pop();
            out.set(k, sample);
            k = k + 1;
        }
        self.elapsed_samples = self.elapsed_samples.wrapping_add(len as u64);
        self.media_elapsed_samples = self.media_elapsed_samples.wrapping_add(len as u64);
        self.counter.store(self.elapsed_samples);
        assert(out@ =~= old(self)@.next_output(len as nat));
    }

    /// A callback is asked for at a sample.
    pub fn register(&mut self, callback: u64)
        requires
            old(self).wf(),
        ensures
            final(self).wf(),
            final(self)@ == (PlayerView {
                schedule: old(self)@.schedule.registered(callback, old(self)@.elapsed),
                ..old(self)@
            }),
            final(self)@.schedule.passed == old(self)@.schedule.passed,
            callback < old(self)@.elapsed ==> final(self)@ == old(self)@,
            callback >= old(self)@.elapsed && old(self)@.schedule.next == 0
                ==> final(self)@.schedule.next == callback && final(self)@.schedule.waiting == old(
                self,
            )@.schedule.waiting,
            old(self)@.elapsed <= callback < old(self)@.schedule.next ==> final(self)@.schedule.next
                == callback && final(self)@.schedule.waiting == old(self)@.schedule.waiting.insert(
                old(self)@.schedule.next,
            ),
            callback >= old(self)@.elapsed && callback >= old(self)@.schedule.next > 0
                ==> final(self)@.schedule.next == old(self)@.schedule.next && final(self)@.schedule.waiting
                == old(self)@.schedule.waiting.insert(callback),
    {
        self.schedule.register(callback, self.elapsed_samples);
    }

    /// A streamer tells of a seek, where it has noted one; the note is then taken
    /// back. The callbacks follow at once, the output with the next samples it asks
    /// for.
    pub fn notify(&mut self, notification: StreamNotify, last_seek_position: &mut u64)
        requires
            old(self).wf(),
        ensures
            final(self).wf(),
            match notification {
                StreamNotify::Seek(secs) => {
                    &&& *final(last_seek_position) == NO_SEEK
                    &&& final(self)@ == old(self)@.after_notice(secs, *old(last_seek_position))
                },
                StreamNotify::Rewind => {
                    &&& *final(last_seek_position) == *old(last_seek_position)
                    &&& final(self)@ == old(self)@
                },
            },
            *old(last_seek_position) == u64::MAX ==> final(self)@ == old(self)@,
            notification matches StreamNotify::Seek(secs) ==> *old(last_seek_position) != u64::MAX
                ==> {
                let position = secs.count_of(
                    (old(self)@.info.channels * old(self)@.info.sample_rate) as u64,
                );
                let was = old(self)@.schedule;
                let now = final(self)@.schedule;
                &&& final(self)@.pending_seek == position
                &&& forall|s: u64| #[trigger]
                    now.passed.contains(s) <==> ((was.waiting.contains(s) || was.passed.contains(s))
                        && s < position) || (s == was.next && 0 < s <= position)
                &&& forall|s: u64|
                    (#[trigger] now.waiting.contains(s) || (s == now.next && s > 0)) <==> ((
                    was.waiting.contains(s) || was.passed.contains(s)) && s >= position && s > 0)
                        || (s == was.next && s > position)
                &&& forall|s: u64| #[trigger] now.waiting.contains(s) ==> 0 < now.next < s
            },
            final(self)@.info == old(self)@.info,
            final(self)@.buffer == old(self)@.buffer,
            final(self)@.capacity == old(self)@.capacity,
            final(self)@.elapsed == old(self)@.elapsed,
            final(self)@.media == old(self)@.media,
            final(self)@.counter == old(self)@.counter,
            final(self)@.paused == old(self)@.paused,
            final(self)@.stopped == old(self)@.stopped,
    {
        match notification {
            StreamNotify::Seek(secs) => {
                if *last_seek_position != NO_SEEK {
                    *last_seek_position = NO_SEEK;
                    let position: u64 = seconds_to_samples(secs, self.device_output_info);
                    proof {
                        law_sought_in_order(self.schedule@, position);
                    }
                    self.pending_seek = position;
                    self.schedule.seek(position);
                }
            },
            StreamNotify::Rewind => {},
        }
    }

    /// A look at the schedule: the callback that is due, if the media has come to its
    /// sample.
    pub fn poll(&mut self) -> (step: PollStep)
        requires
            old(self).wf(),
        ensures
            final(self).wf(),
            if old(self)@.stopped {
                step == PollStep::Stopped && final(self)@ == old(self)@
            } else if old(self)@.paused || !old(self)@.schedule.is_due(old(self)@.media) {
                step == PollStep::Wait && final(self)@ == old(self)@
            } else {
                &&& step == PollStep::Due(Callback::CbOnSample(old(self)@.schedule.next))
                &&& final(self)@ == (PlayerView {
                    schedule: old(self)@.schedule.fired(),
                    ..old(self)@
                })
            },
            step == PollStep::Stopped <==> old(self)@.stopped,
            step is Due <==> !old(self)@.stopped && !old(self)@.paused && old(self)@.schedule.next
                != 0 && old(self)@.media >= old(self)@.schedule.next,
            step matches PollStep::Due(callback) ==> callback == Callback::CbOnSample(
                old(self)@.schedule.next,
            ),
            !(step is Due) ==> final(self)@ == old(self)@,
            step is Due ==> {
                let was = old(self)@.schedule;
                let now = final(self)@.schedule;
                &&& now.passed == was.passed.insert(was.next)
                &&& !now.waiting.contains(now.next)
                &&& forall|s: u64| #[trigger]
                    was.waiting.contains(s) <==> now.waiting.contains(s) || (s == now.next && s != 0)
                &&& forall|s: u64| #[trigger] now.waiting.contains(s) ==> 0 < now.next <= s
            },
            final(self)@.info == old(self)@.info,
            final(self)@.buffer == old(self)@.buffer,
            final(self)@.elapsed == old(self)@.elapsed,
            final(self)@.media == old(self)@.media,
            final(self)@.counter == old(self)@.counter,
            final(self)@.pending_seek == old(self)@.pending_seek,
            final(self)@.paused == old(self)@.paused,
            final(self)@.stopped == old(self)@.stopped,
    {
        if self.stopped {
            return PollStep::Stopped;
        }
        if self.paused {
            return PollStep::Wait;
        }
        proof {
            if self.schedule@.next != 0 {
                law_fired_in_order(self.schedule@);
            }
        }
        match self.schedule.poll(self.media_elapsed_samples) {
            Some(target) => PollStep::Due(Callback::CbOnSample(target)),
            None => PollStep::Wait,
        }
    }

    /// The player is told a command. The result says whether the playback ends.
    pub fn command(&mut self, command: StreamCommand) -> (ends: bool)
        requires
            old(self).wf(),
        ensures
            final(self).wf(),
            ends == (command == StreamCommand::Stop),
            final(self)@ == (match command {
                StreamCommand::Pause => PlayerView { paused: true, ..old(self)@ },
                StreamCommand::Resume => PlayerView { paused: false, ..old(self)@ },
                StreamCommand::Stop => PlayerView { stopped: true, ..old(self)@ },
            }),
            final(self)@.stopped == (old(self)@.stopped || command == StreamCommand::Stop),
            command == StreamCommand::Pause ==> final(self)@.paused,
            command == StreamCommand::Resume ==> !final(self)@.paused,
            command == StreamCommand::Stop ==> final(self)@.paused == old(self)@.paused,
    {
        match command {
            StreamCommand::Pause => {
                self.paused = true;
                false
            },
            StreamCommand::Resume => {
                self.paused = false;
                false
            },
            StreamCommand::Stop => {
                self.stopped = true;
                true
            },
        }
    }

    /// Whether the playback is paused.
    pub fn is_paused(&self) -> (paused: bool)
        ensures
            paused == self@.paused,
    {
        self.paused
    }
}

/// The buffer never holds more than it has room for.
pub proof fn law_buffer_is_bounded(playback: Playback)
    requires
        playback.wf(),
    ensures
        playback@.buffer.len() <= playback@.capacity,
{
}

/// The callbacks of a playback stay in order: when one is asked for at a sample other than
/// zero, when one comes up, and when a streamer tells of a seek.
pub proof fn law_callbacks_stay_in_order(
    player: PlayerView,
    callback: u64,
    secs: Seconds,
    note: u64,
)
    requires
        player.schedule.in_order(),
    ensures
        callback > 0 ==> player.schedule.registered(callback, player.elapsed).in_order(),
        player.schedule.next != 0 ==> player.schedule.fired().in_order(),
        player.after_notice(secs, note).schedule.in_order(),
{
    if callback > 0 {
        law_registered(player.schedule, callback, player.elapsed);
    }
    if player.schedule.next != 0 {
        law_fired_in_order(player.schedule);
    }
    law_sought_in_order(player.schedule, output_samples(secs, player.info));
}

/// Every sample that goes out counts, be it of the streamer or silence: the play time and the
/// media go on by as many as the output asked for, whatever waited. The media goes on from
/// where a seek went that is pending.
pub proof fn law_every_sample_counts(player: PlayerView, len: nat)
    requires
        len <= u64::MAX,
    ensures
        player.after_output(len).elapsed == player.elapsed.wrapping_add(len as u64),
        player.pending_seek == u64::MAX ==> player.after_output(len).media
            == player.media.wrapping_add(len as u64),
        player.pending_seek != u64::MAX ==> player.after_output(len).media
            == player.pending_seek.wrapping_add(len as u64),
        player.after_output(len).pending_seek == u64::MAX,
        player.after_output(len).schedule == player.schedule,
{
}

/// What goes out is what waited, from the eldest on, and what stays is the rest of it. Silence
/// goes out only where nothing is left to wait.
pub proof fn law_output_is_what_waited(player: PlayerView, len: nat, k: int)
    requires
        player.pending_seek == u64::MAX,
        0 <= k < len,
    ensures
        player.next_output(len).len() == len,
        k < player.buffer.len() ==> player.next_output(len)[k] == player.buffer[k],
        k >= player.buffer.len() ==> player.next_output(len)[k].bits == 0,
        player.buffer.len() >= len ==> player.next_output(len) + player.after_output(len).buffer
            == player.buffer,
        player.buffer.len() < len ==> player.after_output(len).buffer.len() == 0,
{
    if player.buffer.len() >= len {
        assert(player.next_output(len) + player.after_output(len).buffer =~= player.buffer);
    }
}

/// A player plays at what it was asked for, as near as the device comes: on the first range
/// with the channels, and no rate of that range lies between the one that is asked for and
/// the one that is chosen. What is asked for is what was set by hand, the default of the
/// device, or the streamer's input; without an input the default again.
pub proof fn law_player_follows_the_wish(
    input_info: Result<StreamerInputInfo, StreamErr>,
    bit_rate_info: BitRateInfo,
    device: OutputDevice,
    asked: (u32, u16),
    first: int,
    rate: u32,
)
    requires
        device.default_config is Some,
        device.configs is Some,
        ({
            ||| bit_rate_info == BitRateInfo::Manual(asked.0, asked.1)
            ||| bit_rate_info == BitRateInfo::Streamer && input_info is Ok && asked == (
                input_info->Ok_0.sample_rate,
                input_info->Ok_0.channels,
            )
            ||| (bit_rate_info == BitRateInfo::DeviceDefault || (bit_rate_info
                == BitRateInfo::Streamer && input_info is Err)) && asked == (
                device.default_config->0.sample_rate,
                device.default_config->0.channels,
            )
        }),
        0 <= first < device.configs->0@.len(),
        device.configs->0@[first].channels == asked.1,
        forall|j: int| 0 <= j < first ==> (#[trigger] device.configs->0@[j]).channels != asked.1,
        device.configs->0@[first].min_sample_rate <= rate <= device.configs->0@[first].max_sample_rate,
    ensures
        ({
            let output = player_output(input_info, bit_rate_info, Some(device));
            let range = device.configs->0@[first];
            let chosen = output->Ok_0.sample_rate;
            &&& output is Ok
            &&& output->Ok_0.channels == asked.1
            &&& range.min_sample_rate <= chosen <= range.max_sample_rate
            &&& rate <= asked.0 ==> rate <= chosen <= asked.0
            &&& rate >= asked.0 ==> asked.0 <= chosen <= rate
        }),
{
    law_first_range_at_nearest_rate(device.configs->0@, first, asked.0, asked.1, rate);
}

/// Samples come out in the order in which they went in: what is put behind the samples
/// that wait comes right after them.
pub proof fn law_first_in_first_out(before: PlayerView, data: Seq<Sample>)
    requires
        before.pending_seek == NO_SEEK,
    ensures
        ({
            let after = PlayerView { buffer: before.buffer + data, ..before };
            let len = before.buffer.len() + data.len();
            after.next_output(len) == before.buffer + data
        }),
{
    let after = PlayerView { buffer: before.buffer + data, ..before };
    assert(after.next_output(before.buffer.len() + data.len()) =~= before.buffer + data);
}

/// It does not matter how the output cuts what it asks for: two requests get what one
/// for both would, and leave the same behind.
pub proof fn law_output_in_pieces(player: PlayerView, a: nat, b: nat)
    requires
        a + b <= u64::MAX,
    ensures
        player.next_output(a) + player.after_output(a).next_output(b) == player.next_output(a + b),
        player.after_output(a).after_output(b) == player.after_output(a + b),
{
    let middle = player.after_output(a);
    assert(player.next_output(a) + middle.next_output(b) =~= player.next_output(a + b));
    assert(middle.after_output(b).buffer =~= player.after_output(a + b).buffer);
}

/// A buffer without room loses nothing: what is put in piece by piece, each from where
/// the last one ended, is what would have been put in at once, also where the output
/// took samples in between.
pub proof fn law_pushed_in_pieces(
    buffer: Seq<Sample>,
    data: Seq<Sample>,
    start: int,
    middle: int,
    end: int,
    taken: int,
)
    requires
        0 <= start <= middle <= end <= data.len(),
        0 <= taken <= buffer.len() + (middle - start),
    ensures
        (buffer + data.subrange(start, middle)).skip(taken) + data.subrange(middle, end) == (buffer
            + data.subrange(start, end)).skip(taken),
{
    let first = buffer + data.subrange(start, middle);
    let whole = buffer + data.subrange(start, end);
    assert(first.skip(taken) + data.subrange(middle, end) =~= whole.skip(taken));
}

/// After a seek the output gets nothing of what waited before, and the media goes on
/// from where the seek went.
pub proof fn law_output_follows_seek(player: PlayerView, secs: Seconds, note: u64, len: nat)
    requires
        note != NO_SEEK,
        output_samples(secs, player.info) != NO_SEEK,
        len <= u64::MAX,
    ensures
        ({
            let sought = player.after_notice(secs, note);
            &&& sought.next_output(len) == Seq::new(len, |k: int| Sample { bits: SILENCE })
            &&& sought.after_output(len).media == output_samples(secs, player.info).wrapping_add(
                len as u64,
            )
            &&& sought.after_output(len).buffer == Seq::<Sample>::empty()
            &&& sought.after_output(len).elapsed == player.elapsed.wrapping_add(len as u64)
        }),
{
    let sought = player.after_notice(secs, note);
    assert(sought.next_output(len) =~= Seq::new(len, |k: int| Sample { bits: SILENCE }));
}

/// A callback that has come up comes up again after a seek to its sample or before it: it is
/// among those to come, and is next after some others, all of which are due when the media
/// has reached it once more.
pub proof fn law_callback_comes_up_again(player: PlayerView, secs: Seconds, note: u64)
    requires
        player.schedule.is_zero_free(),
        player.schedule.next != 0,
        note != NO_SEEK,
        output_samples(secs, player.info) <= player.schedule.next,
    ensures
        ({
            let sample = player.schedule.next;
            let fired = PlayerView { schedule: player.schedule.fired(), ..player };
            let sought = fired.after_notice(secs, note).schedule;
            &&& sought.coming().contains(sample)
            &&& exists|count: nat| #[trigger]
                sought.fired_times(count).next == sample && forall|c: nat|
                    c <= count ==> #[trigger] sought.fired_times(c).is_due(sample)
        }),
{
    let position = output_samples(secs, player.info);
    law_fired_in_order(player.schedule);
    law_fired_comes_again(player.schedule, position);
    law_sought_in_order(player.schedule.fired(), position);
    law_each_comes_up(player.schedule.fired().sought(position), player.schedule.next);
}

/// How many samples of an output go out in a second: a positive number that is not too
/// large for a quotient.
proof fn lemma_output_rate(info: DeviceOutputInfo)
    requires
        info.sample_rate > 0,
        info.channels > 0,
    ensures
        ({
            let rate = Sample::of_count(info.sample_rate as nat).product(
                Sample::of_count(info.channels as nat),
            );
            &&& rate.is_finite()
            &&& !rate.negative()
            &&& rate.units() >= pow2(149)
        }),
{
    let t = pow2(149);
    let r = round_int(info.sample_rate as nat, 24);
    let c = round_int(info.channels as nat, 24);
    let x = Sample::of_count(info.sample_rate as nat);
    let y = Sample::of_count(info.channels as nat);
    lemma2_to64();
    lemma2_to64_rest();
    lemma_pow2_unfold(64);
    lemma_pow2_pos(149);
    lemma_count_units(info.sample_rate as nat);
    lemma_count_units(info.channels as nat);
    lemma_round_int_positive(info.sample_rate as nat, 24);
    lemma_round_int_positive(info.channels as nat, 24);
    // Both counts stay below two to the power 32 when they are rounded.
    lemma_round_ratio_monotone(info.sample_rate as nat, pow2(32), 1, 24);
    lemma_round_ratio_monotone(info.channels as nat, pow2(32), 1, 24);
    vstd::arithmetic::mul::lemma_mul_basics(pow2(32) as int);
    lemma_round_int_scaled(1, 32, 24);
    lemma_pow2_adds(32, 32);
    let n = r * c;
    assert(1 <= n <= pow2(64)) by (nonlinear_arith)
        requires
            n == r * c,
            1 <= r <= pow2(32),
            1 <= c <= pow2(32),
            pow2(64) == pow2(32) * pow2(32),
    ;
    assert(x.units() * y.units() == (n * t) * t) by (nonlinear_arith)
        requires
            x.units() == r * t,
            y.units() == c * t,
            n == r * c,
    ;
    vstd::arithmetic::mul::lemma_mul_basics(t as int);
    lemma_round_ratio_cancel(n * t, 1, t, 24);
    lemma_round_int_between(n, 149, 64);
    lemma_product_units(x, y);
}

/// A number of units between two powers of two stays there when it is rounded.
proof fn lemma_round_int_between(n: nat, shift: nat, bits: nat)
    requires
        1 <= n <= pow2(bits),
        bits + shift < 277,
    ensures
        pow2(shift) <= round_int(n * pow2(shift), 24) <= pow2(bits + shift),
        bit_length(round_int(n * pow2(shift), 24)) <= 277,
{
    let t = pow2(shift);
    lemma2_to64();
    lemma_pow2_pos(shift);
    lemma_pow2_adds(bits, shift);
    vstd::arithmetic::mul::lemma_mul_inequality(1, n as int, t as int);
    vstd::arithmetic::mul::lemma_mul_inequality(n as int, pow2(bits) as int, t as int);
    vstd::arithmetic::mul::lemma_mul_basics(t as int);
    lemma_round_ratio_monotone(t, n * t, 1, 24);
    lemma_round_ratio_monotone(n * t, pow2(bits + shift), 1, 24);
    lemma_round_int_scaled(1, shift, 24);
    vstd::arithmetic::mul::lemma_mul_basics(pow2(bits + shift) as int);
    lemma_round_int_scaled(1, bits + shift, 24);
    lemma_pow2_strictly_increases(bits + shift, 277);
    lemma_bit_length_at_most(round_int(n * t, 24), 277);
}

/// The time that has been played never goes down as samples go out.
pub proof fn law_play_time_rises(a: u64, b: u64, info: DeviceOutputInfo)
    requires
        a <= b,
        info.sample_rate > 0,
        info.channels > 0,
    ensures
        play_time(a, info).units() <= play_time(b, info).units(),
        play_time(a, info).is_finite(),
        !play_time(a, info).negative(),
{
    let t = pow2(149);
    let x = Sample::of_count(a as nat);
    let y = Sample::of_count(b as nat);
    let na = round_int(a as nat, 24);
    let nb = round_int(b as nat, 24);
    let rate = Sample::of_count(info.sample_rate as nat).product(
        Sample::of_count(info.channels as nat),
    );
    let r = rate.units();
    let thousand = Sample { bits: THOUSAND };
    lemma2_to64();
    lemma2_to64_rest();
    lemma_pow2_unfold(64);
    lemma_pow2_pos(149);
    lemma_output_rate(info);
    lemma_count_units(a as nat);
    lemma_count_units(b as nat);
    lemma_round_ratio_monotone(a as nat, b as nat, 1, 24);
    vstd::arithmetic::mul::lemma_mul_inequality(na as int, nb as int, t as int);
    // Quotients: at most as many units as the count, since the rate is at least one.
    let qa = round_ratio(x.units() * t, r, 24);
    let qb = round_ratio(y.units() * t, r, 24);
    vstd::arithmetic::mul::lemma_mul_inequality(x.units() as int, y.units() as int, t as int);
    lemma_round_ratio_monotone(x.units() * t, y.units() * t, r, 24);
    lemma_quotient_bounded(nb, r);
    lemma_pow2_strictly_increases(213, 277);
    lemma_bit_length_at_most(qa, 277);
    lemma_bit_length_at_most(qb, 277);
    lemma_quotient_units(x, rate);
    lemma_quotient_units(y, rate);
    // Times a thousand.
    assert(thousand.units() == 1000 * t) by {
        assert(thousand.digits() == 0x7A_0000 + 0x80_0000);
        assert(thousand.exponent() == 135);
        lemma_pow2_adds(14, 135);
        vstd::arithmetic::mul::lemma_mul_is_associative(1000, pow2(14) as int, pow2(135) as int);
    }
    let pa = qa * 1000;
    let pb = qb * 1000;
    vstd::arithmetic::mul::lemma_mul_is_associative(qa as int, 1000, t as int);
    vstd::arithmetic::mul::lemma_mul_is_associative(qb as int, 1000, t as int);
    vstd::arithmetic::mul::lemma_mul_basics(t as int);
    lemma_round_ratio_cancel(pa, 1, t, 24);
    lemma_round_ratio_cancel(pb, 1, t, 24);
    lemma_round_ratio_monotone(pa, pb, 1, 24);
    lemma_pow2_adds(213, 10);
    lemma_round_ratio_monotone(pb, pow2(223), 1, 24);
    vstd::arithmetic::mul::lemma_mul_basics(pow2(223) as int);
    lemma_round_int_scaled(1, 223, 24);
    lemma_pow2_strictly_increases(223, 277);
    lemma_bit_length_at_most(round_int(pa, 24), 277);
    lemma_bit_length_at_most(round_int(pb, 24), 277);
    lemma_product_units(x.quotient(rate), thousand);
    lemma_product_units(y.quotient(rate), thousand);
}

/// A count over a rate of at least one is no more than the largest count.
proof fn lemma_quotient_bounded(n: nat, r: nat)
    requires
        n <= pow2(64),
        r >= pow2(149),
    ensures
        round_ratio((n * pow2(149)) * pow2(149), r, 24) <= pow2(213),
{
    let t = pow2(149);
    lemma2_to64();
    lemma_pow2_pos(149);
    lemma_pow2_adds(64, 149);
    let top = pow2(213);
    assert((n * t) * t <= top * r) by (nonlinear_arith)
        requires
            n <= pow2(64),
            top == pow2(64) * t,
            r >= t,
            t > 0,
    {
        assert(n * t <= pow2(64) * t);
        assert((n * t) * t <= (pow2(64) * t) * t);
        assert((pow2(64) * t) * t <= (pow2(64) * t) * r);
    }
    lemma_round_ratio_monotone((n * t) * t, top * r, r, 24);
    vstd::arithmetic::mul::lemma_mul_basics(r as int);
    lemma_round_ratio_cancel(top, 1, r, 24);
    vstd::arithmetic::mul::lemma_mul_basics(top as int);
    lemma_round_int_scaled(1, 213, 24);
}

/// What is near something near is near.
proof fn lemma_near_chain(z: int, x: int, y: int, k: int)
    requires
        y >= 0,
        0 <= k <= 16,
        0x100_0000 * z <= 0x100_0001 * x,
        0xFF_FFFF * x <= 0x100_0000 * z,
        0x100_0000 * x <= (0x100_0000 + k) * y,
        (0x100_0000 - k) * y <= 0x100_0000 * x,
    ensures
        0x100_0000 * z <= (0x100_0000 + k + 2) * y,
        (0x100_0000 - k - 2) * y <= 0x100_0000 * z,
{
    let p = 0x100_0000int;
    let ky = k * y;
    assert(0 <= ky <= 16 * y) by (nonlinear_arith)
        requires
            ky == k * y,
            0 <= k <= 16,
            y >= 0,
    ;
    assert((p + k) * y == p * y + ky && (p - k) * y == p * y - ky && (p + k + 2) * y == p * y + ky
        + 2 * y && (p - k - 2) * y == p * y - ky - 2 * y) by (nonlinear_arith)
        requires
            ky == k * y,
    ;
}

/// Both sides of a rounding bound times a factor.
proof fn lemma_near_times(x: int, y: int, factor: int)
    requires
        factor >= 0,
        0x100_0000 * x <= 0x100_0001 * y,
        0xFF_FFFF * y <= 0x100_0000 * x,
    ensures
        0x100_0000 * (x * factor) <= 0x100_0001 * (y * factor),
        0xFF_FFFF * (y * factor) <= 0x100_0000 * (x * factor),
{
    assert((0x100_0000 * x) * factor <= (0x100_0001 * y) * factor && (0xFF_FFFF * y) * factor <= (
    0x100_0000 * x) * factor) by (nonlinear_arith)
        requires
            factor >= 0,
            0x100_0000 * x <= 0x100_0001 * y,
            0xFF_FFFF * y <= 0x100_0000 * x,
    ;
    assert((0x100_0000 * x) * factor == 0x100_0000 * (x * factor)) by (nonlinear_arith);
    assert((0x100_0001 * y) * factor == 0x100_0001 * (y * factor)) by (nonlinear_arith);
    assert((0xFF_FFFF * y) * factor == 0xFF_FFFF * (y * factor)) by (nonlinear_arith);
}

/// The single-precision product of the rate and the channels is near the exact one.
proof fn lemma_rate_is_near(info: DeviceOutputInfo)
    ensures
        ({
            let rate = Sample::of_count(info.sample_rate as nat).product(
                Sample::of_count(info.channels as nat),
            );
            let exact = (info.sample_rate * info.channels) * pow2(149);
            &&& rate.is_finite()
            &&& !rate.negative()
            &&& 0x100_0000 * rate.units() <= 0x100_0003 * exact
            &&& 0xFF_FFFD * exact <= 0x100_0000 * rate.units()
            &&& info.sample_rate * info.channels <= 0x100_0000 ==> rate.units() == exact
        }),
{
    let t = pow2(149);
    let s = info.sample_rate as nat;
    let c = info.channels as nat;
    let r = round_int(s, 24);
    let x = Sample::of_count(s);
    let y = Sample::of_count(c);
    lemma2_to64();
    lemma2_to64_rest();
    lemma_pow2_unfold(64);
    lemma_pow2_pos(149);
    lemma_count_units(s);
    lemma_count_units(c);
    lemma_round_int_error(s, 24);
    vstd::arithmetic::mul::lemma_mul_basics(c as int);
    lemma_round_int_scaled(c, 0, 24);
    lemma_round_ratio_monotone(s, pow2(32), 1, 24);
    vstd::arithmetic::mul::lemma_mul_basics(pow2(32) as int);
    lemma_round_int_scaled(1, 32, 24);
    let n = r * c;
    let exact = s * c;
    lemma_pow2_adds(32, 32);
    assert(n <= pow2(64)) by (nonlinear_arith)
        requires
            n == r * c,
            0 <= r <= pow2(32),
            0 <= c <= pow2(32),
            pow2(64) == pow2(32) * pow2(32),
    ;
    assert(x.units() * y.units() == (n * t) * t) by (nonlinear_arith)
        requires
            x.units() == r * t,
            y.units() == c * t,
            n == r * c,
    ;
    vstd::arithmetic::mul::lemma_mul_basics(t as int);
    lemma_round_ratio_cancel(n * t, 1, t, 24);
    let u = round_int(n * t, 24);
    if n > 0 {
        lemma_round_int_between(n, 149, 64);
    } else {
        lemma_round_int_scaled(0, 149, 24);
        assert(u == 0);
    }
    lemma_product_units(x, y);
    lemma_round_int_error(n * t, 24);
    lemma_near_times(r as int, s as int, c as int);
    lemma_near_times(n as int, exact as int, t as int);
    let et = exact * t;
    lemma_near_chain(u as int, (n * t) as int, et as int, 1);
    assert(info.sample_rate * info.channels == exact);
    if exact <= 0x100_0000 {
        if c == 0 {
            vstd::arithmetic::mul::lemma_mul_basics(r as int);
            vstd::arithmetic::mul::lemma_mul_basics(s as int);
        } else {
            assert(s <= exact) by (nonlinear_arith)
                requires
                    exact == s * c,
                    c >= 1,
            ;
            vstd::arithmetic::mul::lemma_mul_basics(s as int);
            lemma_round_int_scaled(s, 0, 24);
        }
        assert(n == exact);
        lemma_round_int_scaled(n, 149, 24);
    }
}

/// The buffer is made for one second of output: as many samples as the rate times the
/// channels, exactly as long as a single-precision number holds them, and but for rounding
/// otherwise.
pub proof fn law_buffer_is_one_second(info: DeviceOutputInfo)
    ensures
        ({
            let exact = info.sample_rate * info.channels;
            let count = buffered_samples(info);
            &&& exact <= 0x100_0000 ==> count == exact
            &&& 0x100_0000 * count <= 0x100_0003 * exact
            &&& count < usize::MAX ==> 0xFF_FFFD * exact < 0x100_0000 * (count + 1)
        }),
{
    let t = pow2(149);
    let exact = info.sample_rate * info.channels;
    let rate = Sample::of_count(info.sample_rate as nat).product(
        Sample::of_count(info.channels as nat),
    );
    let u = rate.units();
    let w = rate.whole();
    lemma2_to64();
    lemma2_to64_rest();
    lemma_pow2_unfold(64);
    lemma_pow2_pos(149);
    lemma_rate_is_near(info);
    law_times_unity(rate);
    law_whole_is_integer_part(rate);
    assert(0 <= exact <= 0xFFFF * 0xFFFF_FFFF) by (nonlinear_arith)
        requires
            exact == info.sample_rate * info.channels,
            info.channels <= 0xFFFF,
            info.sample_rate <= 0xFFFF_FFFF,
    ;
    let top = pow2(64);
    assert(u < top * t) by (nonlinear_arith)
        requires
            0x100_0000 * u <= 0x100_0003 * (exact * t),
            exact <= 0xFFFF * 0xFFFF_FFFF,
            top == 0x1_0000_0000_0000_0000,
            t > 0,
    {
        assert(exact * t <= (0xFFFF * 0xFFFF_FFFF) * t);
    }
    if exact <= 0x100_0000 {
        assert(w == exact) by (nonlinear_arith)
            requires
                u == exact * t,
                w * t <= u < (w + 1) * t,
                t > 0,
        {
            if w < exact {
                assert((w + 1) * t <= exact * t);
            }
            if w > exact {
                assert(w * t >= (exact + 1) * t);
            }
        }
    }
    assert(0x100_0000 * w <= 0x100_0003 * exact) by (nonlinear_arith)
        requires
            0x100_0000 * u <= 0x100_0003 * (exact * t),
            w * t <= u,
            t > 0,
    {
        assert((0x100_0000 * w) * t <= (0x100_0003 * exact) * t);
    }
    assert(0xFF_FFFD * exact < 0x100_0000 * (w + 1)) by (nonlinear_arith)
        requires
            0xFF_FFFD * (exact * t) <= 0x100_0000 * u,
            u < (w + 1) * t,
            t > 0,
    {
        assert((0xFF_FFFD * exact) * t < (0x100_0000 * (w + 1)) * t);
    }
}

/// The time that has been played is the samples that have gone out over the samples in a
/// millisecond, but for rounding, which is a few parts in two to the power 24.
pub proof fn law_play_time_is_elapsed_over_rate(elapsed: u64, info: DeviceOutputInfo)
    requires
        info.sample_rate > 0,
        info.channels > 0,
    ensures
        ({
            let played = play_time(elapsed, info).units() * (info.sample_rate * info.channels);
            let exact = (elapsed * 1000) * pow2(149);
            &&& 0x100_0000 * played <= 0x100_0009 * exact
            &&& 0xFF_FFF7 * exact <= 0x100_0000 * played
        }),
{
    let t = pow2(149);
    let a = elapsed as nat;
    let n = round_int(a, 24);
    let x = Sample::of_count(a);
    let rate = Sample::of_count(info.sample_rate as nat).product(
        Sample::of_count(info.channels as nat),
    );
    let d = info.sample_rate * info.channels;
    let r = rate.units();
    let thousand = Sample { bits: THOUSAND };
    lemma2_to64();
    lemma2_to64_rest();
    lemma_pow2_unfold(64);
    lemma_pow2_pos(149);
    lemma_output_rate(info);
    lemma_rate_is_near(info);
    lemma_count_units(a);
    lemma_round_int_error(a, 24);
    let num = x.units() * t;
    let q = round_ratio(num, r, 24);
    lemma_quotient_bounded(n, r);
    lemma_pow2_strictly_increases(213, 277);
    lemma_bit_length_at_most(q, 277);
    lemma_quotient_units(x, rate);
    assert(thousand.units() == 1000 * t) by {
        assert(thousand.digits() == 0x7A_0000 + 0x80_0000);
        assert(thousand.exponent() == 135);
        lemma_pow2_adds(14, 135);
        vstd::arithmetic::mul::lemma_mul_is_associative(1000, pow2(14) as int, pow2(135) as int);
    }
    let m = q * 1000;
    vstd::arithmetic::mul::lemma_mul_is_associative(q as int, 1000, t as int);
    vstd::arithmetic::mul::lemma_mul_basics(t as int);
    lemma_round_ratio_cancel(m, 1, t, 24);
    lemma_pow2_adds(213, 10);
    lemma_round_ratio_monotone(m, pow2(223), 1, 24);
    vstd::arithmetic::mul::lemma_mul_basics(pow2(223) as int);
    lemma_round_int_scaled(1, 223, 24);
    lemma_pow2_strictly_increases(223, 277);
    lemma_bit_length_at_most(round_int(m, 24), 277);
    lemma_product_units(x.quotient(rate), thousand);
    let ms = round_int(m, 24);
    assert(play_time(elapsed, info).units() == ms);
    lemma_round_int_error(m, 24);
    assert(d > 0) by (nonlinear_arith)
        requires
            d == info.sample_rate * info.channels,
            info.sample_rate > 0,
            info.channels > 0,
    ;
    lemma_quotient_is_near(a, info);
    let qd = q * d;
    let at = a * t;
    let p = 0x100_0000int;
    // Times a thousand, and rounded.
    lemma_near_times(ms as int, m as int, d);
    assert(m * d == 1000 * qd) by (nonlinear_arith)
        requires
            m == q * 1000,
            qd == q * d,
    ;
    assert((a * 1000) * t == 1000 * at) by (nonlinear_arith)
        requires
            at == a * t,
    ;
    lemma_near_chain(ms * d, 1000 * qd, 1000 * at as int, 7);
}

/// A count over the samples in a second is near the exact quotient.
proof fn lemma_quotient_is_near(a: nat, info: DeviceOutputInfo)
    requires
        a < pow2(64),
        info.sample_rate > 0,
        info.channels > 0,
    ensures
        ({
            let rate = Sample::of_count(info.sample_rate as nat).product(
                Sample::of_count(info.channels as nat),
            );
            let q = round_ratio(Sample::of_count(a).units() * pow2(149), rate.units(), 24);
            let qd = q * (info.sample_rate * info.channels);
            &&& 0x100_0000 * qd <= 0x100_0007 * (a * pow2(149))
            &&& 0xFF_FFF9 * (a * pow2(149)) <= 0x100_0000 * qd
        }),
{
    let t = pow2(149) as int;
    let n = round_int(a, 24) as int;
    let x = Sample::of_count(a);
    let rate = Sample::of_count(info.sample_rate as nat).product(
        Sample::of_count(info.channels as nat),
    );
    let d = info.sample_rate * info.channels;
    let r = rate.units() as int;
    let num = x.units() * pow2(149);
    let q = round_ratio(num, rate.units(), 24) as int;
    let p = 0x100_0000int;
    lemma2_to64();
    lemma2_to64_rest();
    lemma_pow2_unfold(64);
    lemma_pow2_pos(149);
    lemma_output_rate(info);
    lemma_rate_is_near(info);
    lemma_count_units(a);
    lemma_round_int_error(a, 24);
    let ntt = (n * t) * t;
    assert(num == ntt);
    if a == 0 {
        lemma_round_int_exact(0, 24);
        vstd::arithmetic::mul::lemma_mul_basics(t);
        vstd::arithmetic::div_mod::lemma_div_of0(r);
        lemma_nearest_exact(0, rate.units());
        vstd::arithmetic::mul::lemma_mul_basics(r);
        vstd::arithmetic::mul::lemma_mul_basics(d);
        assert(q == 0);
        return;
    }
    lemma_round_int_positive(a, 24);
    // There are digits enough to fill the precision.
    assert(d <= 0xFFFF * 0xFFFF_FFFF) by (nonlinear_arith)
        requires
            d == info.sample_rate * info.channels,
            info.channels <= 0xFFFF,
            info.sample_rate <= 0xFFFF_FFFF,
    ;
    let whole = num / rate.units();
    let rem = num % rate.units();
    vstd::arithmetic::div_mod::lemma_fundamental_div_mod(num as int, r);
    lemma_pow2_adds(85, 64);
    let low = pow2(85) as int;
    assert(whole >= low) by (nonlinear_arith)
        requires
            ntt == r * whole + rem,
            0 <= rem < r,
            p * r <= 0x100_0003 * (d * t),
            p == 0x100_0000,
            d <= 0xFFFF * 0xFFFF_FFFF,
            ntt == (n * t) * t,
            n >= 1,
            t == low * 0x1_0000_0000_0000_0000,
            low > 0,
            whole >= 0,
    {
        assert(d * t <= (0xFFFF * 0xFFFF_FFFF) * t);
        assert(r <= 0x1_0000_0000_0000_0000 * t);
        assert(n * t >= t);
        assert((n * t) * t >= t * t);
        if whole < low {
            assert(r * (whole + 1) <= r * low);
            assert(r * low <= (0x1_0000_0000_0000_0000 * t) * low);
            assert(r * (whole + 1) == r * whole + r);
            assert((0x1_0000_0000_0000_0000 * t) * low == t * t);
        }
    }
    if bit_length(whole) < 24 {
        lemma_pow2_pos(85);
        lemma_bit_length_bounds(whole);
        lemma_pow2_strictly_increases(bit_length(whole), 85);
    }
    lemma_round_ratio_error(num, rate.units(), 24);
    let qr = q * r;
    let at = a * t;
    let att = at * t;
    let qd = q * d;
    lemma_near_times(n, a as int, t);
    lemma_near_times(n * t, at, t);
    assert(at >= 0 && att >= 0) by (nonlinear_arith)
        requires
            at == a * t,
            att == at * t,
            a >= 0,
            t > 0,
    ;
    lemma_near_chain(qr, ntt, att, 1);
    // The denominator is near the rate times the channels.
    let qdt = qd * t;
    assert((p - 3) * qdt <= p * qr && p * qr <= (p + 3) * qdt) by (nonlinear_arith)
        requires
            p == 0x100_0000,
            qr == q * r,
            qd == q * d,
            qdt == qd * t,
            q >= 0,
            p * r <= (p + 3) * (d * t),
            (p - 3) * (d * t) <= p * r,
    {
        assert(q * (p * r) <= q * ((p + 3) * (d * t)));
        assert(q * ((p - 3) * (d * t)) <= q * (p * r));
        assert(q * (d * t) == qdt);
    }
    assert((p - 3) * qdt <= (p + 3) * att && (p - 3) * att <= (p + 3) * qdt);
    assert((p - 3) * qd <= (p + 3) * at && (p - 3) * at <= (p + 3) * qd) by (nonlinear_arith)
        requires
            p == 0x100_0000,
            qdt == qd * t,
            att == at * t,
            t > 0,
            (p - 3) * qdt <= (p + 3) * att,
            (p - 3) * att <= (p + 3) * qdt,
    {
        assert(((p - 3) * qd) * t <= ((p + 3) * at) * t);
        assert(((p - 3) * at) * t <= ((p + 3) * qd) * t);
    }
}

} // verus!
