use audio_learn::streamer::device::{choose_output_config, OutputConfigRange};
use audio_learn::streamer::{DeviceOutputInfo, StreamErr};

fn ranges() -> Vec<OutputConfigRange> {
    vec![
        OutputConfigRange { channels: 1, min_sample_rate: 8_000, max_sample_rate: 48_000 },
        OutputConfigRange { channels: 2, min_sample_rate: 44_100, max_sample_rate: 48_000 },
        OutputConfigRange { channels: 2, min_sample_rate: 8_000, max_sample_rate: 192_000 },
    ]
}

#[test]
fn first_range_with_the_channels_is_taken() {
    let config = choose_output_config(&ranges(), 96_000, 2);
    assert_eq!(config, Ok(DeviceOutputInfo { channels: 2, sample_rate: 48_000 }));
}

#[test]
fn rate_is_the_closest_supported() {
    let at = |rate| choose_output_config(&ranges(), rate, 2).unwrap().sample_rate;
    assert_eq!(at(22_050), 44_100);
    assert_eq!(at(44_100), 44_100);
    assert_eq!(at(47_999), 47_999);
    assert_eq!(at(48_001), 48_000);
}

#[test]
fn channels_without_a_range_are_an_error() {
    assert_eq!(
        choose_output_config(&ranges(), 44_100, 6),
        Err(StreamErr::NoDeviceConfigForChannelCount)
    );
    assert_eq!(
        choose_output_config(&Vec::new(), 44_100, 2),
        Err(StreamErr::NoDeviceConfigForChannelCount)
    );
}
