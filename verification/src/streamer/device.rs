//! Output devices: what one offers, and which of it a stream is played with.

use vstd::prelude::*;
use super::{DeviceOutputInfo, StreamErr};

verus! {

/// A range of configurations of an output device.
#[derive(Debug, Clone, Copy, PartialEq, Eq, Structural)]
pub struct OutputConfigRange {
    pub channels: u16,
    pub min_sample_rate: u32,
    pub max_sample_rate: u32,
}

/// What an output device says of itself. A part that it could not be asked for is
/// missing.
#[derive(Debug)]
pub struct OutputDevice {
    pub default_config: Option<DeviceOutputInfo>,
    pub configs: Option<Vec<OutputConfigRange>>,
}

/// The first range with the given number of channels.
pub open spec fn matching(ranges: Seq<OutputConfigRange>, channels: u16) -> Option<
    OutputConfigRange,
>
    decreases ranges.len(),
{
    if ranges.len() == 0 {
        None
    } else if ranges[0].channels == channels {
        Some(ranges[0])
    } else {
        matching(ranges.skip(1), channels)
    }
}

/// The rate within the bounds that is closest to `rate`.
pub open spec fn clamped(rate: u32, min: u32, max: u32) -> u32 {
    if rate < min {
        min
    } else if rate > max {
        max
    } else {
        rate
    }
}

/// The configuration for a wish: the first range with as many channels, at the
/// closest rate that it has.
pub open spec fn output_config(
    ranges: Seq<OutputConfigRange>,
    sample_rate: u32,
    channels: u16,
) -> Result<DeviceOutputInfo, StreamErr> {
    match matching(ranges, channels) {
        Some(range) => Ok(
            DeviceOutputInfo {
                channels,
                sample_rate: clamped(sample_rate, range.min_sample_rate, range.max_sample_rate),
            },
        ),
        None => Err(StreamErr::NoDeviceConfigForChannelCount),
    }
}

/// The bounds of the range for a number of channels, if there is one, are in order.
pub open spec fn bounds_in_order(ranges: Seq<OutputConfigRange>, channels: u16) -> bool {
    matching(ranges, channels) matches Some(range) ==> range.min_sample_rate
        <= range.max_sample_rate
}

/// The first range with the given number of channels.
pub fn find_range(ranges: &Vec<OutputConfigRange>, channels: u16) -> (found: Option<
    OutputConfigRange,
>)
    ensures
        found == matching(ranges@, channels),
        found is None <==> forall|i: int|
            0 <= i < ranges@.len() ==> (#[trigger] ranges@[i]).channels != channels,
        found matches Some(range) ==> exists|i: int|
            #![trigger ranges@[i]]
            0 <= i < ranges@.len() && ranges@[i] == range && range.channels == channels && forall|
                j: int,
            |
                0 <= j < i ==> (#[trigger] ranges@[j]).channels != channels,
{
    let mut i: usize = 0;
    assert(ranges@.skip(0) =~= ranges@);
    while i < ranges.len()
        invariant
            i <= ranges@.len(),
            matching(ranges@, channels) == matching(ranges@.skip(i as int), channels),
            forall|j: int| 0 <= j < i ==> (#[trigger] ranges@[j]).channels != channels,
        decreases ranges@.len() - i,
    {
        if ranges[i].channels == channels {
            assert(ranges@[i as int].channels == channels);
            return Some(ranges[i]);
        }
        assert(ranges@.skip(i as int).skip(1) =~= ranges@.skip(i + 1));
        i = i + 1;
    }
    None
}

/// The configuration for a wish.
pub fn choose_output_config(
    ranges: &Vec<OutputConfigRange>,
    sample_rate: u32,
    channels: u16,
) -> (result: Result<DeviceOutputInfo, StreamErr>)
    requires
        bounds_in_order(ranges@, channels),
    ensures
        result == output_config(ranges@, sample_rate, channels),
        result is Err <==> forall|i: int|
            0 <= i < ranges@.len() ==> (#[trigger] ranges@[i]).channels != channels,
        result is Err ==> result->Err_0 == StreamErr::NoDeviceConfigForChannelCount,
        result matches Ok(info) ==> info.channels == channels && exists|i: int|
            #![trigger ranges@[i]]
            0 <= i < ranges@.len() && ranges@[i].channels == channels && (forall|j: int|
                0 <= j < i ==> (#[trigger] ranges@[j]).channels != channels)
                && ranges@[i].min_sample_rate <= info.sample_rate <= ranges@[i].max_sample_rate && (
            sample_rate < ranges@[i].min_sample_rate ==> info.sample_rate
                == ranges@[i].min_sample_rate) && (sample_rate > ranges@[i].max_sample_rate
                ==> info.sample_rate == ranges@[i].max_sample_rate) && (ranges@[i].min_sample_rate
                <= sample_rate <= ranges@[i].max_sample_rate ==> info.sample_rate == sample_rate),
{
    match find_range(ranges, channels) {
        None => Err(StreamErr::NoDeviceConfigForChannelCount),
        Some(range) => {
            let closest: u32 = if sample_rate < range.min_sample_rate {
                range.min_sample_rate
            } else if sample_rate > range.max_sample_rate {
                range.max_sample_rate
            } else {
                sample_rate
            };
            Ok(DeviceOutputInfo { channels, sample_rate: closest })
        },
    }
}

/// The configuration is that of the first range with the channels, whatever comes after it, and
/// of all rates that this range has, the chosen one is the nearest to the wish: no other lies
/// between the two.
pub proof fn law_first_range_at_nearest_rate(
    ranges: Seq<OutputConfigRange>,
    first: int,
    sample_rate: u32,
    channels: u16,
    rate: u32,
)
    requires
        0 <= first < ranges.len(),
        ranges[first].channels == channels,
        ranges[first].min_sample_rate <= rate <= ranges[first].max_sample_rate,
        forall|j: int| 0 <= j < first ==> (#[trigger] ranges[j]).channels != channels,
    ensures
        output_config(ranges, sample_rate, channels) is Ok,
        ({
            let info = output_config(ranges, sample_rate, channels)->Ok_0;
            let range = ranges[first];
            &&& info.channels == channels
            &&& range.min_sample_rate <= info.sample_rate <= range.max_sample_rate
            &&& rate <= sample_rate ==> rate <= info.sample_rate <= sample_rate
            &&& rate >= sample_rate ==> sample_rate <= info.sample_rate <= rate
        }),
    decreases ranges.len(),
{
    if first > 0 {
        let rest = ranges.skip(1);
        assert(ranges[0].channels != channels);
        assert forall|j: int| 0 <= j < first - 1 implies (#[trigger] rest[j]).channels != channels by {
            assert(rest[j] == ranges[j + 1]);
        }
        law_first_range_at_nearest_rate(rest, first - 1, sample_rate, channels, rate);
    }
}

/// The chosen rate lies within the bounds of the range it was chosen from, and is the
/// wish itself where that lies within them.
pub proof fn law_rate_is_supported(
    ranges: Seq<OutputConfigRange>,
    sample_rate: u32,
    channels: u16,
)
    requires
        bounds_in_order(ranges, channels),
    ensures
        output_config(ranges, sample_rate, channels) matches Ok(info) ==> {
            &&& info.channels == channels
            &&& exists|i: int|
                #![trigger ranges[i]]
                0 <= i < ranges.len() && ranges[i].channels == channels
                    && ranges[i].min_sample_rate <= info.sample_rate
                    <= ranges[i].max_sample_rate && (ranges[i].min_sample_rate <= sample_rate
                    <= ranges[i].max_sample_rate ==> info.sample_rate == sample_rate)
        },
        output_config(ranges, sample_rate, channels) is Err <==> forall|i: int|
            0 <= i < ranges.len() ==> (#[trigger] ranges[i]).channels != channels,
    decreases ranges.len(),
{
    if ranges.len() > 0 {
        if ranges[0].channels != channels {
            let rest = ranges.skip(1);
            law_rate_is_supported(rest, sample_rate, channels);
            if output_config(rest, sample_rate, channels) is Ok {
                let info = output_config(rest, sample_rate, channels)->Ok_0;
                let i = choose|i: int|
                    #![trigger rest[i]]
                    0 <= i < rest.len() && rest[i].channels == channels && rest[i].min_sample_rate
                        <= info.sample_rate <= rest[i].max_sample_rate && (rest[i].min_sample_rate
                        <= sample_rate <= rest[i].max_sample_rate ==> info.sample_rate
                        == sample_rate);
                assert(ranges[i + 1] == rest[i]);
            } else {
                assert forall|i: int| 0 <= i < ranges.len() implies (
                #[trigger] ranges[i]).channels != channels by {
                    if i > 0 {
                        assert(rest[i - 1] == ranges[i]);
                    }
                }
            }
        } else {
            assert(ranges[0].channels == channels);
        }
    }
}

} // verus!
