//! Streamers: what produces the samples that a player puts out.

use vstd::prelude::*;

pub mod average;
pub mod callbacks;
pub mod control;
pub mod device;
pub mod mean;
pub mod mixer;
pub mod playlist;
pub mod single;
pub mod utils;

pub use callbacks::{add_callback, Callback, StreamerCallbackShared};
pub use control::{ControlCommand, ControlHandle, GainFunction};
pub use single::StreamerInputInfo;

verus! {

/// What can go wrong while a stream is set up, controlled or played.
#[derive(Debug, Clone, Copy, PartialEq, Eq, Structural)]
pub enum StreamErr {
    NoSampleRate,
    UnsupportedFormat,
    NoAudioTrack,
    NoOutputDevice,
    UnsupportedChannelCount,
    UnsupportedCodec,
    UnknownError,
    QueryOutputDeviceError,
    NoDeviceConfigForChannelCount,
    ResamplingError,
    OutputStreamError,
    SendError,
    AlreadyPlaying,
    NotPlaying,
    InputInfoError,
    ProbeError,
    SeekError,
    SeekNotSupported,
}

/// What can go wrong while a callback is added.
#[derive(Debug, Clone, Copy, PartialEq, Eq, Structural)]
pub enum StreamerAddError {
    NoSampleRate,
}

/// The layout of the samples that an output device plays.
#[derive(Debug, Clone, Copy, PartialEq, Eq, Structural)]
pub struct DeviceOutputInfo {
    pub channels: u16,
    pub sample_rate: u32,
}

/// A span of time: whole seconds, and nanoseconds below a second.
#[derive(Debug, Clone, Copy, PartialEq, Eq, Structural)]
pub struct Duration {
    pub secs: u64,
    pub nanos: u32,
}

/// The seek position of a streamer that has not been asked to seek.
pub const NO_SEEK: u64 = u64::MAX;

} // verus!
