//! A streamer of one track: what is known of the track, and how its playback runs.
//!
//! Reading, decoding and resampling are done outside. What comes of them is told
//! here, and the answer says what to do next.

use vstd::prelude::*;
use crate::sample::Sample;
use crate::shared::{flag_loads, flag_stores, SharedFlag};
use super::control::{
    commands_received, next_command, ControlCommand, ControlHandle, GainFunction,
};
use super::device::{
    bounds_in_order, choose_output_config, find_range, matching, output_config, OutputDevice,
};
use super::utils::{f_fadein_linear, f_fadeout_linear, fadein_linear, fadeout_linear};
use super::{DeviceOutputInfo, StreamErr, NO_SEEK};
use crossbeam_channel::Receiver;

verus! {

/// How many frames are resampled at a time.
pub const CHUNK_SIZE: usize = 1024;

/// The length of a frame in seconds, as a fraction.
#[derive(Debug, Clone, Copy, PartialEq, Eq, Structural)]
pub struct TimeBase {
    pub numer: u32,
    pub denom: u32,
}

/// What a container says of its default track.
#[derive(Debug, Clone, Copy, PartialEq, Eq, Structural)]
pub struct TrackInfo {
    pub id: u32,
    pub sample_rate: Option<u32>,
    pub channels: Option<u16>,
    pub time_base: Option<TimeBase>,
    pub n_frames: Option<u64>,
}

/// What a streamer tells of its input.
#[derive(Debug, Clone, Copy, PartialEq, Eq, Structural)]
pub struct StreamerInputInfo {
    pub track_id: u32,
    pub channels: u16,
    pub sample_rate: u32,
    /// In whole seconds.
    pub duration: Option<u64>,
}

/// What opening a container comes to: its default track, if it has one; nothing if
/// its format is not known.
pub type Probed = Option<Option<TrackInfo>>;

/// The whole seconds in `frames` frames, in so far as they fit.
pub open spec fn whole_seconds(frames: u64, base: TimeBase) -> nat {
    (frames as nat * base.numer as nat / base.denom as nat) % 0x1_0000_0000_0000_0000
}

/// What is left of them is half a second or more.
pub open spec fn past_half(frames: u64, base: TimeBase) -> bool {
    2 * (frames as nat * base.numer as nat % base.denom as nat) >= base.denom
}

/// The bit pattern of a double-precision half.
pub const HALF: u64 = 0x3FE0_0000_0000_0000;

/// Calls `symphonia::core::units::TimeBase::calc_time`: the time of `frames` frames
/// as whole seconds, which wrap around, and as the bit pattern of the fraction.
/// The fraction is a double from zero to below one. It is rounded, but never across
/// one half: a half is a double, and a fraction below it is further from it than
/// half a unit of the last digit. The digits of the fraction are not stated.
#[verifier::external_body]
fn time_of_frames(frames: u64, base: TimeBase) -> (time: (u64, u64))
    requires
        base.numer > 0,
        base.denom > 0,
    ensures
        time.0 == whole_seconds(frames, base),
        time.1 < 0x3FF0_0000_0000_0000,
        time.1 >= HALF <==> past_half(frames, base),
{
    let time = symphonia::core::units::TimeBase { numer: base.numer, denom: base.denom }.calc_time(
        frames,
    );
    (time.seconds, time.frac.to_bits())
}

/// The time of `frames` frames, to the nearest second; a half counts up.
pub open spec fn rounded_seconds(frames: u64, base: TimeBase) -> nat {
    whole_seconds(frames, base) + if past_half(frames, base) {
        1nat
    } else {
        0nat
    }
}

/// The rounded seconds are the nearest to the exact time, and a half counts up.
proof fn lemma_nearest_whole_second(frames: u64, base: TimeBase)
    requires
        base.denom > 0,
    ensures
        ({
            let ticks = frames as int * base.numer as int;
            let denom = base.denom as int;
            let d = rounded_seconds(frames, base) as int;
            ticks / denom <= u64::MAX ==> 2 * (d * denom - ticks) <= denom && 2 * (ticks - d
                * denom) < denom
        }),
{
    let ticks = frames as int * base.numer as int;
    let denom = base.denom as int;
    let q = ticks / denom;
    let r = ticks % denom;
    assert(ticks >= 0) by (nonlinear_arith)
        requires
            ticks == frames as int * base.numer as int,
    ;
    vstd::arithmetic::div_mod::lemma_fundamental_div_mod(ticks, denom);
    if q <= u64::MAX {
        assert(q >= 0) by (nonlinear_arith)
            requires
                q == ticks / denom,
                ticks >= 0,
                denom > 0,
        ;
        vstd::arithmetic::div_mod::lemma_small_mod(q as nat, 0x1_0000_0000_0000_0000);
        assert(whole_seconds(frames, base) == q);
        let d = rounded_seconds(frames, base) as int;
        assert(d * denom - ticks == (d - q) * denom - r) by (nonlinear_arith)
            requires
                ticks == denom * q + r,
        ;
        if d == q {
            vstd::arithmetic::mul::lemma_mul_basics(denom);
        } else {
            assert(d == q + 1);
            vstd::arithmetic::mul::lemma_mul_basics(denom);
        }
    }
}

/// A time, given as whole seconds and the bit pattern of a fraction below one, to the
/// nearest second.
pub fn nearest_second(seconds: u64, fraction: u64) -> (rounded: u64)
    requires
        fraction < 0x3FF0_0000_0000_0000,
        fraction >= HALF ==> seconds < u64::MAX,
    ensures
        rounded == (if fraction >= HALF {
            seconds + 1
        } else {
            seconds as int
        }),
{
    if fraction >= HALF {
        seconds + 1
    } else {
        seconds
    }
}

impl TrackInfo {
    /// The duration in whole seconds, where the track says enough of it.
    pub open spec fn seconds(self) -> Option<u64> {
        match (self.time_base, self.n_frames) {
            (Some(base), Some(frames)) => Some(
                rounded_seconds(frames, base) as u64,
            ),
            _ => None,
        }
    }

    /// The time base is no zero, and the duration fits.
    pub open spec fn has_measurable_time(self) -> bool {
        (self.time_base is Some && self.n_frames is Some) ==> {
            let base = self.time_base->0;
            &&& base.numer > 0
            &&& base.denom > 0
            &&& rounded_seconds(self.n_frames->0, base) <= u64::MAX
        }
    }

    /// Whether the duration can be told: the time base is no zero, and it fits.
    pub fn is_measurable(&self) -> (measurable: bool)
        ensures
            measurable == self.has_measurable_time(),
            measurable <==> (self.time_base is Some && self.n_frames is Some ==> {
                let ticks = self.n_frames->0 as nat * self.time_base->0.numer as nat;
                let denom = self.time_base->0.denom as nat;
                &&& self.time_base->0.numer > 0
                &&& denom > 0
                &&& (ticks / denom) % 0x1_0000_0000_0000_0000 < u64::MAX || 2 * (ticks % denom)
                    < denom
            }),
    {
        match (self.time_base, self.n_frames) {
            (Some(base), Some(frames)) => {
                if base.numer == 0 || base.denom == 0 {
                    return false;
                }
                let denom: u128 = base.denom as u128;
                assert(frames * base.numer <= 0xFFFF_FFFF_FFFF_FFFF * 0xFFFF_FFFF)
                    by (nonlinear_arith)
                    requires
                        frames <= 0xFFFF_FFFF_FFFF_FFFF,
                        base.numer <= 0xFFFF_FFFF,
                ;
                let ticks: u128 = frames as u128 * base.numer as u128;
                let whole: u128 = (ticks / denom) % 0x1_0000_0000_0000_0000;
                let rest: u128 = ticks % denom;
                whole < 0xFFFF_FFFF_FFFF_FFFF || 2 * rest < denom
            },
            _ => true,
        }
    }

    /// The duration in whole seconds.
    pub fn duration(&self) -> (duration: Option<u64>)
        requires
            self.has_measurable_time(),
        ensures
            duration == self.seconds(),
            duration is Some <==> self.time_base is Some && self.n_frames is Some,
            // The nearest whole second; a half counts up.
            duration matches Some(d) ==> {
                let ticks = self.n_frames->0 as int * self.time_base->0.numer as int;
                let denom = self.time_base->0.denom as int;
                ticks / denom <= u64::MAX ==> 2 * (d * denom - ticks) <= denom && 2 * (ticks - d
                    * denom) < denom
            },
    {
        match (self.time_base, self.n_frames) {
            (Some(base), Some(frames)) => {
                let (seconds, fraction): (u64, u64) = time_of_frames(frames, base);
                proof {
                    lemma_nearest_whole_second(frames, base);
                }
                Some(nearest_second(seconds, fraction))
            },
            _ => None,
        }
    }
}

/// The track of a container, in so far as it can be played.
pub open spec fn track_of(probed: Probed) -> Result<TrackInfo, StreamErr> {
    match probed {
        None => Err(StreamErr::UnsupportedFormat),
        Some(None) => Err(StreamErr::NoAudioTrack),
        Some(Some(track)) => if track.sample_rate is None {
            Err(StreamErr::NoSampleRate)
        } else {
            Ok(track)
        },
    }
}

/// What a streamer tells of a container.
pub open spec fn input_info_of(probed: Probed) -> Result<StreamerInputInfo, StreamErr> {
    match track_of(probed) {
        Err(e) => Err(e),
        Ok(track) => Ok(
            StreamerInputInfo {
                track_id: track.id,
                channels: track.channels->0,
                sample_rate: track.sample_rate->0,
                duration: track.seconds(),
            },
        ),
    }
}

/// A track that can be played says how many channels it has, and its time can be
/// told.
pub open spec fn is_complete(probed: Probed) -> bool {
    track_of(probed) matches Ok(track) ==> track.channels is Some && track.has_measurable_time()
}

/// Whether a container says all of its track that a streamer has to know.
pub fn says_enough(probed: &Probed) -> (enough: bool)
    ensures
        enough == is_complete(*probed),
        enough == match *probed {
            Some(Some(track)) => track.sample_rate is Some ==> track.channels is Some
                && track.has_measurable_time(),
            _ => true,
        },
{
    match probed {
        Some(Some(track)) => track.sample_rate.is_none() || (track.channels.is_some()
            && track.is_measurable()),
        _ => true,
    }
}

/// What a streamer tells of a container.
pub fn read_input_info(probed: Probed) -> (result: Result<StreamerInputInfo, StreamErr>)
    requires
        is_complete(probed),
    ensures
        result == input_info_of(probed),
        probed is None ==> result == Err::<StreamerInputInfo, StreamErr>(
            StreamErr::UnsupportedFormat,
        ),
        probed == Some(None::<TrackInfo>) ==> result == Err::<StreamerInputInfo, StreamErr>(
            StreamErr::NoAudioTrack,
        ),
        probed matches Some(Some(track)) ==> track.sample_rate is None ==> result == Err::<
            StreamerInputInfo,
            StreamErr,
        >(StreamErr::NoSampleRate),
        probed matches Some(Some(track)) ==> track.sample_rate is Some ==> {
            &&& result is Ok
            &&& result->Ok_0.track_id == track.id
            &&& Some(result->Ok_0.sample_rate) == track.sample_rate
            &&& Some(result->Ok_0.channels) == track.channels
            &&& result->Ok_0.duration is Some <==> track.time_base is Some && track.n_frames is Some
        },
{
    match probed {
        None => Err(StreamErr::UnsupportedFormat),
        Some(None) => Err(StreamErr::NoAudioTrack),
        Some(Some(track)) => match (track.sample_rate, track.channels) {
            (Some(sample_rate), Some(channels)) => {
                let duration: Option<u64> = track.duration();
                Ok(StreamerInputInfo { track_id: track.id, channels, sample_rate, duration })
            },
            _ => Err(StreamErr::NoSampleRate),
        },
    }
}

/// A streamer of one track.
pub struct SingleStreamer {
    input_info: StreamerInputInfo,
    output_sample_rate: u32,
    control: ControlHandle,
    command_rx: Option<Receiver<ControlCommand>>,
    last_seek_position: u64,
}

impl SingleStreamer {
    pub closed spec fn input_info(self) -> StreamerInputInfo {
        self.input_info
    }

    /// The sample rate of the output.
    pub closed spec fn output_rate(self) -> u32 {
        self.output_sample_rate
    }

    /// The handle that controls the streamer.
    pub closed spec fn control(self) -> ControlHandle {
        self.control
    }

    /// Where the commands for the streamer come from, until it plays.
    pub closed spec fn commands(self) -> Option<Receiver<ControlCommand>> {
        self.command_rx
    }

    pub closed spec fn seek_position(self) -> u64 {
        self.last_seek_position
    }

    /// What making a streamer comes to, as far as errors and rates go. The device is
    /// missing if there is none.
    pub open spec fn outcome(probed: Probed, device: Option<OutputDevice>) -> Result<
        DeviceOutputInfo,
        StreamErr,
    > {
        match (track_of(probed), device) {
            (Err(e), _) => Err(e),
            (Ok(_), None) => Err(StreamErr::NoOutputDevice),
            (Ok(track), Some(device)) => match device.configs {
                None => Err(StreamErr::QueryOutputDeviceError),
                Some(ranges) => output_config(
                    ranges@,
                    track.sample_rate->0,
                    track.channels->0,
                ),
            },
        }
    }

    /// The container and the device say enough to make a streamer, or to tell why there is
    /// none: the channels of a track that has a rate; bounds that are in order, of the
    /// range for these channels; and the time of the track, once there is such a range.
    pub open spec fn can_be_made(probed: Probed, device: Option<OutputDevice>) -> bool {
        track_of(probed) matches Ok(track) ==> {
            &&& track.channels is Some
            &&& device matches Some(d) ==> d.configs matches Some(ranges) ==> {
                &&& bounds_in_order(ranges@, track.channels->0)
                &&& matching(ranges@, track.channels->0) is Some ==> track.has_measurable_time()
            }
        }
    }

    /// Whether the container and the device say enough to make a streamer, or to tell why
    /// there is none.
    pub fn is_described(probed: &Probed, device: &Option<OutputDevice>) -> (described: bool)
        ensures
            described == Self::can_be_made(*probed, *device),
            described <==> ({
                &&& probed is Some
                &&& probed->0 is Some
                &&& probed->0->0.sample_rate is Some
            } ==> {
                let track = probed->0->0;
                &&& track.channels is Some
                &&& device is Some && device->0.configs is Some ==> forall|i: int|
                    0 <= i < device->0.configs->0@.len() && (
                    #[trigger] device->0.configs->0@[i]).channels == track.channels->0 && (forall|
                        j: int,
                    |
                        0 <= j < i ==> (#[trigger] device->0.configs->0@[j]).channels
                            != track.channels->0) ==> {
                        &&& device->0.configs->0@[i].min_sample_rate
                            <= device->0.configs->0@[i].max_sample_rate
                        &&& track.has_measurable_time()
                    }
            }),
    {
        let track: TrackInfo = match probed {
            Some(Some(track)) => *track,
            _ => {
                return true;
            },
        };
        if track.sample_rate.is_none() {
            return true;
        }
        let channels: u16 = match track.channels {
            None => {
                return false;
            },
            Some(channels) => channels,
        };
        match device {
            None => true,
            Some(device) => match &device.configs {
                None => true,
                Some(ranges) => match find_range(ranges, channels) {
                    None => true,
                    Some(range) => range.min_sample_rate <= range.max_sample_rate
                        && track.is_measurable(),
                },
            },
        }
    }

    /// A streamer of the default track of a container, for an output device. It plays
    /// at the rate of the track, or at the closest that the device has for its
    /// channels.
    pub fn new(probed: Probed, device: Option<OutputDevice>) -> (result: Result<Self, StreamErr>)
        requires
            Self::can_be_made(probed, device),
        ensures
            match Self::outcome(probed, device) {
                Err(e) => result == Err::<Self, StreamErr>(e),
                Ok(info) => {
                    &&& result matches Ok(streamer)
                    &&& Ok::<StreamerInputInfo, StreamErr>(streamer.input_info()) == input_info_of(
                        probed,
                    )
                    &&& streamer.output_rate() == info.sample_rate
                    &&& streamer.control().is_fresh()
                    &&& streamer.commands() matches Some(rx)
                    &&& streamer.control().feeds(rx)
                    &&& commands_received(rx) == Seq::<Option<ControlCommand>>::empty()
                    &&& streamer.seek_position() == NO_SEEK
                },
            },
            probed is None ==> result is Err && result->Err_0 == StreamErr::UnsupportedFormat,
            probed == Some(None::<TrackInfo>) ==> result is Err && result->Err_0
                == StreamErr::NoAudioTrack,
            probed matches Some(Some(track)) ==> {
                &&& track.sample_rate is None ==> result is Err && result->Err_0
                    == StreamErr::NoSampleRate
                &&& track.sample_rate is Some && device is None ==> result is Err && result->Err_0
                    == StreamErr::NoOutputDevice
                &&& track.sample_rate is Some && device is Some && device->0.configs is None
                    ==> result is Err && result->Err_0 == StreamErr::QueryOutputDeviceError
                &&& track.sample_rate is Some && device is Some && device->0.configs is Some ==> {
                    let ranges = device->0.configs->0@;
                    &&& result is Err <==> forall|i: int|
                        0 <= i < ranges.len() ==> Some((#[trigger] ranges[i]).channels)
                            != track.channels
                    &&& result is Err ==> result->Err_0 == StreamErr::NoDeviceConfigForChannelCount
                    &&& result is Ok ==> exists|i: int|
                        #![trigger ranges[i]]
                        0 <= i < ranges.len() && Some(ranges[i].channels) == track.channels && (
                        forall|j: int|
                            0 <= j < i ==> Some((#[trigger] ranges[j]).channels) != track.channels)
                            && ranges[i].min_sample_rate <= result->Ok_0.output_rate()
                            <= ranges[i].max_sample_rate && (track.sample_rate->0
                            < ranges[i].min_sample_rate ==> result->Ok_0.output_rate()
                            == ranges[i].min_sample_rate) && (track.sample_rate->0
                            > ranges[i].max_sample_rate ==> result->Ok_0.output_rate()
                            == ranges[i].max_sample_rate) && (ranges[i].min_sample_rate
                            <= track.sample_rate->0 <= ranges[i].max_sample_rate
                            ==> Some(result->Ok_0.output_rate()) == track.sample_rate)
                }
                &&& result matches Ok(streamer) ==> {
                    &&& streamer.input_info().track_id == track.id
                    &&& Some(streamer.input_info().sample_rate) == track.sample_rate
                    &&& Some(streamer.input_info().channels) == track.channels
                    &&& streamer.input_info().duration is Some <==> track.time_base is Some
                        && track.n_frames is Some
                    &&& streamer.commands() is Some
                    &&& streamer.control().feeds(streamer.commands()->0)
                    &&& streamer.control().sent().len() == 0
                    &&& !streamer.control().pause_requested()
                }
            },
    {
        let track: TrackInfo = match probed {
            None => {
                return Err(StreamErr::UnsupportedFormat);
            },
            Some(None) => {
                return Err(StreamErr::NoAudioTrack);
            },
            Some(Some(track)) => track,
        };
        let (sample_rate, channels): (u32, u16) = match (track.sample_rate, track.channels) {
            (Some(sample_rate), Some(channels)) => (sample_rate, channels),
            _ => {
                return Err(StreamErr::NoSampleRate);
            },
        };
        let ranges = match device {
            None => {
                return Err(StreamErr::NoOutputDevice);
            },
            Some(device) => match device.configs {
                None => {
                    return Err(StreamErr::QueryOutputDeviceError);
                },
                Some(ranges) => ranges,
            },
        };
        let config: DeviceOutputInfo = match choose_output_config(&ranges, sample_rate, channels) {
            Ok(config) => config,
            Err(e) => {
                return Err(e);
            },
        };
        let duration: Option<u64> = track.duration();
        let input_info: StreamerInputInfo = StreamerInputInfo {
            track_id: track.id,
            channels,
            sample_rate,
            duration,
        };
        let (control, command_rx): (ControlHandle, Receiver<ControlCommand>) = ControlHandle::new();
        Ok(
            SingleStreamer {
                input_info,
                output_sample_rate: config.sample_rate,
                control,
                command_rx: Some(command_rx),
                last_seek_position: NO_SEEK,
            },
        )
    }

    /// The sample rate of the output.
    pub fn output_sample_rate(&self) -> (rate: u32)
        ensures
            rate == self.output_rate(),
    {
        self.output_sample_rate
    }

    /// Whether playback has to resample: the rates differ.
    pub fn needs_resampler(&self) -> (needed: bool)
        ensures
            needed == (self.output_rate() != self.input_info().sample_rate),
    {
        self.output_sample_rate != self.input_info.sample_rate
    }

    /// Starts the playback, with or without a resampler. A streamer plays once.
    pub fn play(&mut self, resamples: bool) -> (result: Result<
        (SinglePlayback, Receiver<ControlCommand>),
        StreamErr,
    >)
        ensures
            final(self).input_info() == old(self).input_info(),
            final(self).output_rate() == old(self).output_rate(),
            final(self).control() == old(self).control(),
            final(self).seek_position() == old(self).seek_position(),
            final(self).commands() is None,
            match old(self).commands() {
                None => result == Err::<(SinglePlayback, Receiver<ControlCommand>), StreamErr>(
                    StreamErr::AlreadyPlaying,
                ),
                Some(rx) => {
                    &&& result matches Ok((playback, commands))
                    &&& commands == rx
                    &&& playback@ == (PlaybackView {
                        track_id: old(self).input_info().track_id,
                        channels: old(self).input_info().channels,
                        resamples,
                        buffer: Seq::<Sample>::empty(),
                        gain: None,
                        done: 0,
                        reached: 0,
                        finished: false,
                    })
                },
            },
    {
        let mut commands: Option<Receiver<ControlCommand>> = None;
        std::mem::swap(&mut commands, &mut self.command_rx);
        match commands {
            None => Err(StreamErr::AlreadyPlaying),
            Some(commands) => {
                let playback: SinglePlayback = SinglePlayback {
                    track_id: self.input_info.track_id,
                    channels: self.input_info.channels,
                    resamples,
                    buffer: Vec::new(),
                    gain: None,
                    resampled_len: 0,
                    cnt: 0,
                    finished: false,
                };
                assert(playback.buffer@ =~= Seq::<Sample>::empty());
                Ok((playback, commands))
            },
        }
    }

    /// The handle that controls the streamer.
    pub fn control_handle(&self) -> (handle: ControlHandle)
        ensures
            handle.controls_like(self.control()),
            handle.sent() == Seq::<(ControlCommand, bool)>::empty(),
            flag_stores(handle.flag()) == Seq::<bool>::empty(),
            flag_loads(handle.flag()) == Seq::<bool>::empty(),
    {
        self.control.clone()
    }

    /// What the streamer tells of its input.
    pub fn get_input_info(&self) -> (info: Result<StreamerInputInfo, StreamErr>)
        ensures
            info == Ok::<StreamerInputInfo, StreamErr>(self.input_info()),
    {
        Ok(self.input_info)
    }

    /// The duration in whole seconds.
    pub fn get_duration(&self) -> (duration: Option<u64>)
        ensures
            duration == self.input_info().duration,
    {
        self.input_info.duration
    }

    /// The last seek position.
    pub fn last_seek_position(&self) -> (position: u64)
        ensures
            position == self.seek_position(),
    {
        self.last_seek_position
    }
}

/// A track while it plays.
pub struct SinglePlayback {
    track_id: u32,
    channels: u16,
    resamples: bool,
    buffer: Vec<Sample>,
    gain: Option<GainFunction>,
    resampled_len: usize,
    cnt: usize,
    finished: bool,
}

/// What can be said of a track while it plays.
pub ghost struct PlaybackView {
    pub track_id: u32,
    pub channels: u16,
    pub resamples: bool,
    /// What was decoded and not resampled yet.
    pub buffer: Seq<Sample>,
    pub gain: Option<GainFunction>,
    /// How many samples have gone out since the gain was set, over the packets that
    /// went out whole.
    pub done: usize,
    /// The same, with those of the packet that goes out now.
    pub reached: usize,
    pub finished: bool,
}

impl PlaybackView {
    /// How many samples a chunk for the resampler has.
    pub open spec fn chunk_len(self) -> nat {
        CHUNK_SIZE as nat * self.channels as nat
    }

    /// `self` is `before` after a command, if one was waiting, and `action` is what to do.
    pub open spec fn has_taken(
        self,
        before: PlaybackView,
        command: Option<ControlCommand>,
        action: PlaybackAction,
    ) -> bool {
        match command {
            None => {
                &&& action == PlaybackAction::Continue
                &&& self == before
            },
            Some(ControlCommand::Seek(time)) => {
                &&& action == PlaybackAction::SeekTo(time)
                &&& self == before
            },
            Some(ControlCommand::Rewind) => {
                &&& action == PlaybackAction::SeekStart
                &&& self == before
            },
            Some(ControlCommand::Stop) => {
                &&& action == PlaybackAction::End
                &&& self == (PlaybackView { finished: true, ..before })
            },
            Some(ControlCommand::AddGainFunction(gain)) => {
                &&& action == PlaybackAction::Continue
                &&& self == (PlaybackView { gain: Some(gain), done: 0, ..before })
            },
            Some(ControlCommand::RemoveGainFunction) => {
                &&& action == PlaybackAction::Continue
                &&& self == (PlaybackView { gain: None, done: 0, ..before })
            },
        }
    }

    /// After the samples of a packet came.
    pub open spec fn begun(self, samples: Seq<Sample>) -> PlaybackView {
        PlaybackView {
            buffer: (if self.resamples {
                self.buffer + samples
            } else {
                self.buffer
            }),
            reached: self.done,
            ..self
        }
    }

    /// After `count` samples went out.
    pub open spec fn moved_on(self, count: nat) -> PlaybackView {
        PlaybackView { reached: (self.reached + count) as usize, ..self }
    }

    /// After a chunk was taken off.
    pub open spec fn without_chunk(self) -> PlaybackView {
        PlaybackView { buffer: self.buffer.skip(self.chunk_len() as int), ..self }
    }

    /// After a packet went out whole.
    pub open spec fn ended(self) -> PlaybackView {
        PlaybackView { done: self.reached, ..self }
    }
}

impl View for SinglePlayback {
    type V = PlaybackView;

    closed spec fn view(&self) -> PlaybackView {
        PlaybackView {
            track_id: self.track_id,
            channels: self.channels,
            resamples: self.resamples,
            buffer: self.buffer@,
            gain: self.gain,
            done: self.resampled_len,
            reached: self.cnt,
            finished: self.finished,
        }
    }
}

/// What a command makes of the playback.
#[derive(Debug, Clone, Copy, PartialEq, Eq, Structural)]
pub enum PlaybackAction {
    /// The playback is paused.
    Wait,
    /// Read on.
    Continue,
    /// Go to a time in seconds, and reset the decoder.
    SeekTo(u64),
    /// Go to the beginning, and reset the decoder.
    SeekStart,
    /// The playback ends.
    End,
}

/// What reading the next packet came to.
#[derive(Debug, Clone, Copy, PartialEq, Eq, Structural)]
pub enum PacketOutcome {
    /// A packet of a track.
    Packet(u32),
    /// The list of tracks has changed.
    ResetRequired,
    /// The end of the container.
    EndOfStream,
    /// Any other error.
    Failed,
}

/// What to do after a packet was read.
#[derive(Debug, Clone, Copy, PartialEq, Eq)]
pub enum PacketStep {
    Decode,
    /// It belongs to another track.
    Skip,
    End(Result<(), StreamErr>),
}

/// What decoding a packet came to.
#[derive(Debug, Clone, Copy, PartialEq, Eq, Structural)]
pub enum DecodeOutcome {
    Decoded,
    /// The packet could not be read or is damaged.
    Damaged,
    /// Any other error.
    Failed,
}

/// What to do after a packet was decoded.
#[derive(Debug, Clone, Copy, PartialEq, Eq)]
pub enum DecodeStep {
    PlaySamples,
    Skip,
    End(Result<(), StreamErr>),
}

/// The gain at a sample. The gains that follow loudness and those of the application
/// are given for it.
pub open spec fn gain_at(gain: GainFunction, position: nat, given: Sample) -> Sample {
    match gain {
        GainFunction::FadeInLinear(cutoff) => fadein_linear(position, cutoff as nat),
        GainFunction::FadeOutLinear(cutoff) => fadeout_linear(position, cutoff as nat),
        _ => given,
    }
}

/// The gain is not one that is computed here.
pub open spec fn gain_is_given(gain: Option<GainFunction>) -> bool {
    match gain {
        Some(GainFunction::FadeInLinear(_)) => false,
        Some(GainFunction::FadeOutLinear(_)) => false,
        Some(_) => true,
        None => false,
    }
}

/// Samples with a gain on each, the first of them at a position of the gain.
pub open spec fn amplified(
    samples: Seq<Sample>,
    gain: Option<GainFunction>,
    position: nat,
    given: Seq<Sample>,
) -> Seq<Sample> {
    match gain {
        None => samples,
        Some(g) => Seq::new(
            samples.len(),
            |j: int| samples[j].product(gain_at(g, position + j as nat, given[j])),
        ),
    }
}

impl SinglePlayback {
    /// How many samples a chunk for the resampler has.
    pub open spec fn chunk_len(self) -> nat {
        self@.chunk_len()
    }

    /// The playback is told a command, if one was waiting. A new gain starts at its
    /// first sample.
    pub fn command(&mut self, command: Option<ControlCommand>) -> (action: PlaybackAction)
        ensures
            final(self)@.has_taken(old(self)@, command, action),
            command is None ==> action == PlaybackAction::Continue,
            command matches Some(ControlCommand::Seek(time)) ==> action == PlaybackAction::SeekTo(
                time,
            ),
            command == Some(ControlCommand::Rewind) ==> action == PlaybackAction::SeekStart,
            command == Some(ControlCommand::Stop) <==> action == PlaybackAction::End,
            command matches Some(ControlCommand::AddGainFunction(gain)) ==> action
                == PlaybackAction::Continue && final(self)@.gain == Some(gain) && final(self)@.done
                == 0,
            command == Some(ControlCommand::RemoveGainFunction) ==> action
                == PlaybackAction::Continue && final(self)@.gain is None && final(self)@.done == 0,
            !(command matches Some(ControlCommand::AddGainFunction(_))) && command != Some(
                ControlCommand::RemoveGainFunction,
            ) ==> final(self)@.gain == old(self)@.gain && final(self)@.done == old(self)@.done,
            final(self)@.finished == (old(self)@.finished || command == Some(ControlCommand::Stop)),
            final(self)@.buffer == old(self)@.buffer,
            final(self)@.reached == old(self)@.reached,
            final(self)@.track_id == old(self)@.track_id,
            final(self)@.channels == old(self)@.channels,
            final(self)@.resamples == old(self)@.resamples,
    {
        match command {
            None => PlaybackAction::Continue,
            Some(ControlCommand::Seek(time)) => PlaybackAction::SeekTo(time),
            Some(ControlCommand::Rewind) => PlaybackAction::SeekStart,
            Some(ControlCommand::Stop) => {
                self.finished = true;
                PlaybackAction::End
            },
            Some(ControlCommand::AddGainFunction(gain)) => {
                self.gain = Some(gain);
                self.resampled_len = 0;
                PlaybackAction::Continue
            },
            Some(ControlCommand::RemoveGainFunction) => {
                self.gain = None;
                self.resampled_len = 0;
                PlaybackAction::Continue
            },
        }
    }

    /// One turn of a playback before it reads its next packet. While the playback is paused
    /// it waits: no command is taken out of the channel and nothing changes. Otherwise the
    /// next command is taken, if one is waiting. What the flag is read to be and which
    /// command is waiting is not stated: other threads set the flag and send.
    pub fn turn(
        &mut self,
        paused: &mut SharedFlag,
        commands: &mut Receiver<ControlCommand>,
    ) -> (action: PlaybackAction)
        ensures
            flag_loads(*final(paused)).len() == flag_loads(*old(paused)).len() + 1,
            flag_loads(*final(paused)).drop_last() == flag_loads(*old(paused)),
            flag_stores(*final(paused)) == flag_stores(*old(paused)),
            final(paused).is_handle_like(*old(paused)),
            if flag_loads(*final(paused)).last() {
                &&& action == PlaybackAction::Wait
                &&& final(self)@ == old(self)@
                &&& *final(commands) == *old(commands)
            } else {
                let received = commands_received(*final(commands));
                &&& received.len() == commands_received(*old(commands)).len() + 1
                &&& received.drop_last() == commands_received(*old(commands))
                &&& final(self)@.has_taken(old(self)@, received.last(), action)
                &&& action != PlaybackAction::Wait
                &&& received.last() is None ==> action == PlaybackAction::Continue && final(self)@
                    == old(self)@
                &&& received.last() == Some(ControlCommand::Stop) <==> action == PlaybackAction::End
                &&& received.last() matches Some(ControlCommand::Seek(time)) ==> action
                    == PlaybackAction::SeekTo(time)
                &&& received.last() == Some(ControlCommand::Rewind) ==> action
                    == PlaybackAction::SeekStart
                &&& received.last() matches Some(ControlCommand::AddGainFunction(gain)) ==> final(self)@.gain == Some(
                    gain,
                ) && final(self)@.done == 0
                &&& received.last() == Some(ControlCommand::RemoveGainFunction)
                    ==> final(self)@.gain is None && final(self)@.done == 0
            },
            forall|handle: ControlHandle|
                #[trigger] handle.feeds(*final(commands)) == handle.feeds(*old(commands)),
    {
        let waits: bool = paused.load();
        assert(flag_loads(*paused).drop_last() =~= flag_loads(*old(paused)));
        if waits {
            return PlaybackAction::Wait;
        }
        let command: Option<ControlCommand> = next_command(commands);
        assert(commands_received(*commands).drop_last() =~= commands_received(*old(commands)));
        self.command(command)
    }

    /// A packet was read, or not. The end of the container ends the playback well,
    /// anything else that is not a packet ends it with an error.
    pub fn packet(&mut self, outcome: PacketOutcome) -> (step: PacketStep)
        ensures
            match outcome {
                PacketOutcome::Packet(track_id) => {
                    &&& step == (if track_id == old(self)@.track_id {
                        PacketStep::Decode
                    } else {
                        PacketStep::Skip
                    })
                    &&& final(self)@ == old(self)@
                },
                PacketOutcome::EndOfStream => {
                    &&& step == PacketStep::End(Ok(()))
                    &&& final(self)@ == (PlaybackView { finished: true, ..old(self)@ })
                },
                _ => {
                    &&& step == PacketStep::End(Err(StreamErr::UnknownError))
                    &&& final(self)@ == (PlaybackView { finished: true, ..old(self)@ })
                },
            },
    {
        match outcome {
            PacketOutcome::Packet(track_id) => {
                if track_id == self.track_id {
                    PacketStep::Decode
                } else {
                    PacketStep::Skip
                }
            },
            PacketOutcome::EndOfStream => {
                self.finished = true;
                PacketStep::End(Ok(()))
            },
            _ => {
                self.finished = true;
                PacketStep::End(Err(StreamErr::UnknownError))
            },
        }
    }

    /// A packet was decoded, or not. A damaged one is passed over.
    pub fn decoded(&self, outcome: DecodeOutcome) -> (step: DecodeStep)
        ensures
            step == (match outcome {
                DecodeOutcome::Decoded => DecodeStep::PlaySamples,
                DecodeOutcome::Damaged => DecodeStep::Skip,
                DecodeOutcome::Failed => DecodeStep::End(Err(StreamErr::UnknownError)),
            }),
    {
        match outcome {
            DecodeOutcome::Decoded => DecodeStep::PlaySamples,
            DecodeOutcome::Damaged => DecodeStep::Skip,
            DecodeOutcome::Failed => DecodeStep::End(Err(StreamErr::UnknownError)),
        }
    }

    /// The samples of a packet are there. With a resampler they join what it has not
    /// taken yet; without one they come back, to go out as they are.
    pub fn begin(&mut self, samples: Vec<Sample>) -> (direct: Option<Vec<Sample>>)
        ensures
            final(self)@ == old(self)@.begun(samples@),
            old(self)@.resamples ==> final(self)@.buffer == old(self)@.buffer + samples@,
            !old(self)@.resamples ==> final(self)@.buffer == old(self)@.buffer,
            final(self)@.reached == old(self)@.done,
            final(self)@.done == old(self)@.done,
            final(self)@.gain == old(self)@.gain,
            final(self)@.finished == old(self)@.finished,
            final(self)@.track_id == old(self)@.track_id,
            final(self)@.channels == old(self)@.channels,
            final(self)@.resamples == old(self)@.resamples,
            direct == (if old(self)@.resamples {
                None
            } else {
                Some(samples)
            }),
    {
        self.cnt = self.resampled_len;
        if self.resamples {
            let mut samples: Vec<Sample> = samples;
            self.buffer.append(&mut samples);
            None
        } else {
            Some(samples)
        }
    }

    /// The next chunk for the resampler, once there is enough for one.
    pub fn chunk(&self) -> (chunk: Option<Vec<Sample>>)
        ensures
            match chunk {
                Some(c) => {
                    &&& self@.buffer.len() >= self.chunk_len()
                    &&& c@ == self@.buffer.take(self.chunk_len() as int)
                },
                None => self@.buffer.len() < self.chunk_len(),
            },
            chunk is Some <==> self@.buffer.len() >= 1024 * self@.channels,
            chunk matches Some(c) ==> c@.len() == 1024 * self@.channels && c@.is_prefix_of(
                self@.buffer,
            ),
    {
        let len: usize = self.samples_per_chunk();
        if self.buffer.len() < len {
            return None;
        }
        let mut chunk: Vec<Sample> = Vec::new();
        let mut i: usize = 0;
        while i < len
            invariant
                i <= len <= self.buffer@.len(),
                chunk@ =~= self.buffer@.take(i as int),
            decreases len - i,
        {
            chunk.push(self.buffer[i]);
            i = i + 1;
        }
        Some(chunk)
    }

    /// How many samples a chunk has.
    fn samples_per_chunk(&self) -> (len: usize)
        ensures
            len == self.chunk_len(),
    {
        CHUNK_SIZE * self.channels as usize
    }

    /// Samples that are about to go out, with the gain on them. The position of the
    /// gain moves on by as many. Gains that are not linear are given, one for each
    /// sample.
    pub fn amplify(&mut self, samples: Vec<Sample>, given: &Vec<Sample>) -> (output: Vec<Sample>)
        requires
            old(self)@.reached + samples@.len() <= usize::MAX,
            gain_is_given(old(self)@.gain) ==> given@.len() >= samples@.len(),
        ensures
            output@ == amplified(samples@, old(self)@.gain, old(self)@.reached as nat, given@),
            final(self)@ == old(self)@.moved_on(samples@.len()),
            output@.len() == samples@.len(),
            old(self)@.gain is None ==> output@ == samples@,
            gain_is_given(old(self)@.gain) ==> forall|j: int|
                0 <= j < samples@.len() ==> #[trigger] output@[j] == samples@[j].product(given@[j]),
            old(self)@.gain matches Some(GainFunction::FadeInLog(_)) ==> forall|j: int|
                0 <= j < samples@.len() ==> #[trigger] output@[j] == samples@[j].product(given@[j]),
            old(self)@.gain matches Some(GainFunction::FadeOutLog(_)) ==> forall|j: int|
                0 <= j < samples@.len() ==> #[trigger] output@[j] == samples@[j].product(given@[j]),
            old(self)@.gain matches Some(GainFunction::Custom(_)) ==> forall|j: int|
                0 <= j < samples@.len() ==> #[trigger] output@[j] == samples@[j].product(given@[j]),
            old(self)@.gain matches Some(GainFunction::FadeInLinear(n)) ==> forall|j: int|
                0 <= j < samples@.len() ==> #[trigger] output@[j] == samples@[j].product(
                    fadein_linear((old(self)@.reached + j) as nat, n as nat),
                ),
            old(self)@.gain matches Some(GainFunction::FadeOutLinear(n)) ==> forall|j: int|
                0 <= j < samples@.len() ==> #[trigger] output@[j] == samples@[j].product(
                    fadeout_linear((old(self)@.reached + j) as nat, n as nat),
                ),
            final(self)@.reached == old(self)@.reached + samples@.len(),
            final(self)@.done == old(self)@.done,
            final(self)@.gain == old(self)@.gain,
            final(self)@.buffer == old(self)@.buffer,
            final(self)@.finished == old(self)@.finished,
            final(self)@.track_id == old(self)@.track_id,
            final(self)@.channels == old(self)@.channels,
            final(self)@.resamples == old(self)@.resamples,
    {
        let start: usize = self.cnt;
        let gain: Option<GainFunction> = self.gain;
        self.cnt = self.cnt + samples.len();
        let g: GainFunction = match gain {
            None => {
                return samples;
            },
            Some(g) => g,
        };
        let mut output: Vec<Sample> = Vec::new();
        let mut j: usize = 0;
        while j < samples.len()
            invariant
                j <= samples@.len(),
                start + samples@.len() <= usize::MAX,
                gain_is_given(Some(g)) ==> given@.len() >= samples@.len(),
                output@.len() == j,
                forall|k: int|
                    0 <= k < j ==> #[trigger] output@[k] == samples@[k].product(
                        gain_at(g, (start + k) as nat, given@[k]),
                    ),
            decreases samples@.len() - j,
        {
            let gain: Sample = match g {
                GainFunction::FadeInLinear(cutoff) => f_fadein_linear(start + j, cutoff),
                GainFunction::FadeOutLinear(cutoff) => f_fadeout_linear(start + j, cutoff),
                _ => given[j],
            };
            output.push(samples[j].times(gain));
            j = j + 1;
        }
        assert(output@ =~= amplified(samples@, Some(g), start as nat, given@));
        output
    }

    /// A chunk was resampled, or it could not be. What it came to goes out with the
    /// gain on it.
    pub fn resampled(&mut self, outcome: Option<Vec<Sample>>, given: &Vec<Sample>) -> (result:
        Result<Vec<Sample>, StreamErr>)
        requires
            outcome matches Some(samples) ==> {
                &&& old(self)@.reached + samples@.len() <= usize::MAX
                &&& gain_is_given(old(self)@.gain) ==> given@.len() >= samples@.len()
            },
        ensures
            match outcome {
                None => {
                    &&& result == Err::<Vec<Sample>, StreamErr>(StreamErr::ResamplingError)
                    &&& final(self)@ == old(self)@
                },
                Some(samples) => {
                    &&& result matches Ok(output)
                    &&& output@ == amplified(
                        samples@,
                        old(self)@.gain,
                        old(self)@.reached as nat,
                        given@,
                    )
                    &&& final(self)@ == old(self)@.moved_on(samples@.len())
                },
            },
            result is Err <==> outcome is None,
            result is Err ==> result->Err_0 == StreamErr::ResamplingError && final(self)@ == old(
                self,
            )@,
            outcome matches Some(samples) ==> {
                let output = result->Ok_0@;
                &&& output.len() == samples@.len()
                &&& old(self)@.gain is None ==> output == samples@
                &&& (old(self)@.gain matches Some(GainFunction::FadeInLog(_)) || old(
                    self,
                )@.gain matches Some(GainFunction::FadeOutLog(_)) || old(self)@.gain matches Some(
                    GainFunction::Custom(_),
                )) ==> forall|j: int|
                    0 <= j < samples@.len() ==> #[trigger] output[j] == samples@[j].product(
                        given@[j],
                    )
                &&& old(self)@.gain matches Some(GainFunction::FadeInLinear(n)) ==> forall|j: int|
                    0 <= j < samples@.len() ==> #[trigger] output[j] == samples@[j].product(
                        fadein_linear((old(self)@.reached + j) as nat, n as nat),
                    )
                &&& old(self)@.gain matches Some(GainFunction::FadeOutLinear(n)) ==> forall|j: int|
                    0 <= j < samples@.len() ==> #[trigger] output[j] == samples@[j].product(
                        fadeout_linear((old(self)@.reached + j) as nat, n as nat),
                    )
                &&& final(self)@.reached == old(self)@.reached + samples@.len()
            },
            final(self)@.done == old(self)@.done,
            final(self)@.gain == old(self)@.gain,
            final(self)@.buffer == old(self)@.buffer,
            final(self)@.finished == old(self)@.finished,
            final(self)@.track_id == old(self)@.track_id,
            final(self)@.channels == old(self)@.channels,
            final(self)@.resamples == old(self)@.resamples,
    {
        match outcome {
            None => Err(StreamErr::ResamplingError),
            Some(samples) => Ok(self.amplify(samples, given)),
        }
    }

    /// What the last chunk was resampled to has gone out, so the chunk is taken off.
    /// If it has not, because nobody is left to take it, the chunk stays.
    pub fn chunk_sent(&mut self, sent: bool) -> (result: Result<(), StreamErr>)
        requires
            old(self)@.buffer.len() >= old(self).chunk_len(),
        ensures
            result == (if sent {
                Ok::<(), StreamErr>(())
            } else {
                Err::<(), StreamErr>(StreamErr::SendError)
            }),
            final(self)@ == (if sent {
                old(self)@.without_chunk()
            } else {
                old(self)@
            }),
            !sent ==> final(self)@.buffer == old(self)@.buffer,
            sent ==> final(self)@.buffer == old(self)@.buffer.skip(1024 * old(self)@.channels),
            final(self)@.reached == old(self)@.reached,
            final(self)@.done == old(self)@.done,
            final(self)@.gain == old(self)@.gain,
            final(self)@.finished == old(self)@.finished,
            final(self)@.track_id == old(self)@.track_id,
            final(self)@.channels == old(self)@.channels,
            final(self)@.resamples == old(self)@.resamples,
    {
        if !sent {
            return Err(StreamErr::SendError);
        }
        let len: usize = self.samples_per_chunk();
        let rest: Vec<Sample> = self.buffer.split_off(len);
        self.buffer = rest;
        assert(self.buffer@ =~= old(self)@.buffer.skip(len as int));
        Ok(())
    }

    /// The samples of a packet have gone out, or not all of them. Only a packet that
    /// went out whole moves the gain on for good.
    pub fn end(&mut self, whole: bool)
        ensures
            final(self)@ == (if whole {
                old(self)@.ended()
            } else {
                old(self)@
            }),
            whole ==> final(self)@.done == old(self)@.reached,
            !whole ==> final(self)@.done == old(self)@.done,
            final(self)@.reached == old(self)@.reached,
            final(self)@.gain == old(self)@.gain,
            final(self)@.buffer == old(self)@.buffer,
            final(self)@.finished == old(self)@.finished,
            final(self)@.track_id == old(self)@.track_id,
            final(self)@.channels == old(self)@.channels,
            final(self)@.resamples == old(self)@.resamples,
    {
        if whole {
            self.resampled_len = self.cnt;
        }
    }

    /// Whether the playback has ended by itself or by a command.
    pub fn is_finished(&self) -> (finished: bool)
        ensures
            finished == self@.finished,
    {
        self.finished
    }

    /// The gain, and the position in it of the next sample.
    pub fn gain(&self) -> (gain: (Option<GainFunction>, usize))
        ensures
            gain == (self@.gain, self@.reached),
    {
        (self.gain, self.cnt)
    }
}

/// Each sample goes out times the gain at its position: the one that is given, for every gain
/// but the linear fades, and no gain is no change.
pub proof fn law_gain_is_applied(
    samples: Seq<Sample>,
    gain: GainFunction,
    position: nat,
    given: Seq<Sample>,
    j: int,
)
    requires
        0 <= j < samples.len(),
    ensures
        amplified(samples, Some(gain), position, given).len() == samples.len(),
        !(gain is FadeInLinear) && !(gain is FadeOutLinear) ==> amplified(
            samples,
            Some(gain),
            position,
            given,
        )[j] == samples[j].product(given[j]),
        gain matches GainFunction::FadeInLinear(n) ==> amplified(
            samples,
            Some(gain),
            position,
            given,
        )[j] == samples[j].product(fadein_linear(position + j as nat, n as nat)),
        gain matches GainFunction::FadeOutLinear(n) ==> amplified(
            samples,
            Some(gain),
            position,
            given,
        )[j] == samples[j].product(fadeout_linear(position + j as nat, n as nat)),
        amplified(samples, None, position, given) == samples,
        gain_is_given(Some(gain)) <==> !(gain is FadeInLinear) && !(gain is FadeOutLinear),
{
}

/// A gain does not depend on how the samples are cut into pieces.
pub proof fn law_gain_over_pieces(
    first: Seq<Sample>,
    second: Seq<Sample>,
    gain: Option<GainFunction>,
    position: nat,
    given: Seq<Sample>,
)
    requires
        gain_is_given(gain) ==> given.len() >= first.len() + second.len(),
    ensures
        amplified(first + second, gain, position, given) == amplified(first, gain, position, given)
            + amplified(second, gain, position + first.len(), given.skip(first.len() as int)),
{
    let rest = given.skip(first.len() as int);
    let whole = amplified(first + second, gain, position, given);
    let pieces = amplified(first, gain, position, given) + amplified(
        second,
        gain,
        position + first.len(),
        rest,
    );
    assert forall|j: int| 0 <= j < whole.len() implies whole[j] == pieces[j] by {
        if j >= first.len() {
            let k = j - first.len();
            assert(position + j as nat == position + first.len() + k as nat);
            if gain_is_given(gain) {
                assert(rest[k] == given[j]);
            }
        }
    }
    assert(whole =~= pieces);
}

/// What the resampler is given, chunk by chunk, is what was decoded, in its order: a
/// chunk followed by what stays is what there was.
pub proof fn law_chunks_keep_order(playback: SinglePlayback)
    requires
        playback@.buffer.len() >= playback.chunk_len(),
    ensures
        playback@.buffer.take(playback.chunk_len() as int) + playback@.buffer.skip(
            playback.chunk_len() as int,
        ) == playback@.buffer,
{
    let n = playback.chunk_len() as int;
    assert(playback@.buffer.take(n) + playback@.buffer.skip(n) =~= playback@.buffer);
}

/// What comes of a packet that goes out whole.
pub ghost struct PacketRun<R> {
    /// The resampler afterwards.
    pub resampler: R,
    /// The playback afterwards.
    pub playback: PlaybackView,
    /// All that went out, in its order.
    pub sent: Seq<Sample>,
}

/// The gains for `count` samples from a position on, out of a gain that depends on nothing
/// but the position.
pub open spec fn gains_from(given: spec_fn(nat) -> Sample, position: nat, count: nat) -> Seq<Sample> {
    Seq::new(count, |j: int| given(position + j as nat))
}

/// The chunks of a packet go out one after the other, as long as there is enough for one:
/// the resampler takes a chunk, what it makes of it goes out with the gain on it, and the
/// chunk is taken off. `process` is what the resampler makes of a chunk, and what becomes
/// of itself.
pub open spec fn chunks_sent<R>(
    process: spec_fn(R, Seq<Sample>) -> (R, Seq<Sample>),
    given: spec_fn(nat) -> Sample,
    resampler: R,
    playback: PlaybackView,
) -> PacketRun<R>
    decreases playback.buffer.len(),
{
    let len = playback.chunk_len();
    if len == 0 || playback.buffer.len() < len {
        PacketRun { resampler, playback, sent: Seq::empty() }
    } else {
        let (after, samples) = process(resampler, playback.buffer.take(len as int));
        let reached = playback.reached as nat;
        let rest = chunks_sent(
            process,
            given,
            after,
            playback.moved_on(samples.len()).without_chunk(),
        );
        PacketRun {
            sent: amplified(
                samples,
                playback.gain,
                reached,
                gains_from(given, reached, samples.len()),
            ) + rest.sent,
            ..rest
        }
    }
}

/// A packet goes out whole, through the resampler or as it is.
pub open spec fn packet_sent<R>(
    process: spec_fn(R, Seq<Sample>) -> (R, Seq<Sample>),
    given: spec_fn(nat) -> Sample,
    resampler: R,
    playback: PlaybackView,
    samples: Seq<Sample>,
) -> PacketRun<R> {
    let begun = playback.begun(samples);
    if playback.resamples {
        let run = chunks_sent(process, given, resampler, begun);
        PacketRun { playback: run.playback.ended(), ..run }
    } else {
        let reached = begun.reached as nat;
        PacketRun {
            resampler,
            playback: begun.moved_on(samples.len()).ended(),
            sent: amplified(
                samples,
                playback.gain,
                reached,
                gains_from(given, reached, samples.len()),
            ),
        }
    }
}

/// What goes out does not depend on how much went out before the packet.
proof fn lemma_chunks_whatever_done<R>(
    process: spec_fn(R, Seq<Sample>) -> (R, Seq<Sample>),
    given: spec_fn(nat) -> Sample,
    resampler: R,
    playback: PlaybackView,
    done: usize,
)
    ensures
        ({
            let run = chunks_sent(process, given, resampler, playback);
            chunks_sent(process, given, resampler, PlaybackView { done, ..playback }) == (PacketRun {
                playback: PlaybackView { done, ..run.playback },
                ..run
            })
        }),
    decreases playback.buffer.len(),
{
    let len = playback.chunk_len();
    if len > 0 && playback.buffer.len() >= len {
        let (after, samples) = process(resampler, playback.buffer.take(len as int));
        lemma_chunks_whatever_done(
            process,
            given,
            after,
            playback.moved_on(samples.len()).without_chunk(),
            done,
        );
    }
}

/// Samples that come later do not change what goes out first.
proof fn lemma_chunks_then_more<R>(
    process: spec_fn(R, Seq<Sample>) -> (R, Seq<Sample>),
    given: spec_fn(nat) -> Sample,
    resampler: R,
    playback: PlaybackView,
    more: Seq<Sample>,
)
    requires
        playback.channels > 0,
    ensures
        ({
            let first = chunks_sent(process, given, resampler, playback);
            let second = chunks_sent(
                process,
                given,
                first.resampler,
                PlaybackView { buffer: first.playback.buffer + more, ..first.playback },
            );
            let whole = chunks_sent(
                process,
                given,
                resampler,
                PlaybackView { buffer: playback.buffer + more, ..playback },
            );
            &&& whole == (PacketRun { sent: first.sent + second.sent, ..second })
            &&& first.playback == (PlaybackView {
                buffer: first.playback.buffer,
                reached: first.playback.reached,
                ..playback
            })
        }),
    decreases playback.buffer.len(),
{
    let len = playback.chunk_len();
    let joined = PlaybackView { buffer: playback.buffer + more, ..playback };
    let first = chunks_sent(process, given, resampler, playback);
    let whole = chunks_sent(process, given, resampler, joined);
    if playback.buffer.len() < len {
        let second = chunks_sent(
            process,
            given,
            first.resampler,
            PlaybackView { buffer: first.playback.buffer + more, ..first.playback },
        );
        assert(first.sent + second.sent =~= second.sent);
    } else {
        let (after, samples) = process(resampler, playback.buffer.take(len as int));
        let next = playback.moved_on(samples.len()).without_chunk();
        assert(joined.buffer.take(len as int) =~= playback.buffer.take(len as int));
        assert(joined.buffer.skip(len as int) =~= playback.buffer.skip(len as int) + more);
        assert(joined.moved_on(samples.len()).without_chunk() == (PlaybackView {
            buffer: next.buffer + more,
            ..next
        }));
        lemma_chunks_then_more(process, given, after, next, more);
        let rest = chunks_sent(process, given, after, next);
        let second = chunks_sent(
            process,
            given,
            rest.resampler,
            PlaybackView { buffer: rest.playback.buffer + more, ..rest.playback },
        );
        let head = amplified(
            samples,
            playback.gain,
            playback.reached as nat,
            gains_from(given, playback.reached as nat, samples.len()),
        );
        assert(head + (rest.sent + second.sent) =~= (head + rest.sent) + second.sent);
    }
}

/// How samples are cut into packets does not matter: two packets send, one after the other,
/// what one packet of both would send, and leave the same in the buffer, the resampler in
/// the same state and the gain at the same position.
pub proof fn law_packets_in_pieces<R>(
    process: spec_fn(R, Seq<Sample>) -> (R, Seq<Sample>),
    given: spec_fn(nat) -> Sample,
    resampler: R,
    playback: PlaybackView,
    a: Seq<Sample>,
    b: Seq<Sample>,
)
    requires
        playback.channels > 0,
        !playback.resamples ==> playback.done + a.len() + b.len() <= usize::MAX,
    ensures
        ({
            let first = packet_sent(process, given, resampler, playback, a);
            let second = packet_sent(process, given, first.resampler, first.playback, b);
            let whole = packet_sent(process, given, resampler, playback, a + b);
            &&& whole.sent == first.sent + second.sent
            &&& whole.resampler == second.resampler
            &&& whole.playback == second.playback
        }),
{
    let first = packet_sent(process, given, resampler, playback, a);
    let second = packet_sent(process, given, first.resampler, first.playback, b);
    let whole = packet_sent(process, given, resampler, playback, a + b);
    if playback.resamples {
        let begun = playback.begun(a);
        let run = chunks_sent(process, given, resampler, begun);
        lemma_chunks_then_more(process, given, resampler, begun, b);
        assert(playback.begun(a + b).buffer =~= begun.buffer + b);
        let next = PlaybackView { buffer: run.playback.buffer + b, ..run.playback };
        assert(first.playback.begun(b) == (PlaybackView { done: run.playback.reached, ..next }));
        lemma_chunks_whatever_done(
            process,
            given,
            run.resampler,
            next,
            run.playback.reached,
        );
    } else {
        let k = playback.done as nat;
        let gains = gains_from(given, k, (a + b).len());
        law_gain_over_pieces(a, b, playback.gain, k, gains);
        assert(gains.skip(a.len() as int) =~= gains_from(given, k + a.len(), b.len()));
        assert(amplified(a, playback.gain, k, gains) =~= amplified(
            a,
            playback.gain,
            k,
            gains_from(given, k, a.len()),
        ));
    }
}

/// What a playback does with a command: a seek and a rewind are left to its caller, a stop
/// ends it, and a gain is taken over and starts at its first sample. All else stays.
pub proof fn law_playback_obeys(
    before: PlaybackView,
    after: PlaybackView,
    command: Option<ControlCommand>,
    action: PlaybackAction,
)
    requires
        after.has_taken(before, command, action),
    ensures
        command is None ==> after == before && action == PlaybackAction::Continue,
        command matches Some(ControlCommand::Seek(time)) ==> after == before && action
            == PlaybackAction::SeekTo(time),
        command == Some(ControlCommand::Rewind) ==> after == before && action
            == PlaybackAction::SeekStart,
        command == Some(ControlCommand::Stop) ==> action == PlaybackAction::End && after.finished
            && after.gain == before.gain && after.done == before.done,
        command != Some(ControlCommand::Stop) ==> after.finished == before.finished,
        command matches Some(ControlCommand::AddGainFunction(gain)) ==> action
            == PlaybackAction::Continue && after.gain == Some(gain) && after.done == 0,
        command == Some(ControlCommand::RemoveGainFunction) ==> action == PlaybackAction::Continue
            && after.gain is None && after.done == 0,
        after.buffer == before.buffer,
        after.reached == before.reached,
        after.track_id == before.track_id,
        after.channels == before.channels,
        after.resamples == before.resamples,
{
}

} // verus!
