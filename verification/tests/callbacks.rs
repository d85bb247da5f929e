use audio_learn::streamer::callbacks::duration_to_samples;
use audio_learn::streamer::utils::execute_callback;
use audio_learn::streamer::{
    add_callback, Callback, DeviceOutputInfo, Duration, StreamerCallbackShared,
};
use std::collections::HashMap;

const STEREO: DeviceOutputInfo = DeviceOutputInfo { channels: 2, sample_rate: 44_100 };

fn secs(secs: u64) -> Duration {
    Duration { secs, nanos: 0 }
}

#[test]
fn callback_is_taken_once() {
    let mut callbacks: HashMap<u64, &str> = HashMap::new();
    callbacks.insert(7, "seven");
    callbacks.insert(8, "eight");
    assert_eq!(execute_callback(&mut callbacks, 7), Some("seven"));
    assert_eq!(execute_callback(&mut callbacks, 7), None);
    assert_eq!(execute_callback(&mut callbacks, 9), None);
    assert_eq!(callbacks.len(), 1);
}

#[test]
fn durations_become_samples_as_doubles_do() {
    let durations = [
        (0u64, 0u32),
        (0, 1),
        (0, 999_999_999),
        (1, 0),
        (10, 0),
        (2, 1_000_000),
        (3, 333_333_333),
        (86_400, 123_456_789),
        (1 << 33, 7),
        (1 << 53, 999_999_999),
        ((1 << 54) + 3, 1),
        (u64::MAX, 999_999_999),
    ];
    let outputs = [(2u16, 44_100u32), (1, 48_000), (6, 96_000), (0, 44_100), (2, 0), (u16::MAX, u32::MAX)];
    for (secs, nanos) in durations {
        for (channels, sample_rate) in outputs {
            let machine = std::time::Duration::new(secs, nanos).as_secs_f64();
            let expected = (machine * sample_rate as f64 * channels as f64) as u64;
            let info = DeviceOutputInfo { channels, sample_rate };
            assert_eq!(
                duration_to_samples(Duration { secs, nanos }, info),
                expected,
                "{secs}.{nanos} at {sample_rate} x {channels}"
            );
        }
    }
    assert_eq!(duration_to_samples(secs(10), STEREO), 882_000);
}

#[test]
fn longer_delay_is_no_earlier() {
    let mut last = 0;
    for nanos in (0..1_000_000_000u32).step_by(77_777_777) {
        for secs in [5u64] {
            let at = duration_to_samples(Duration { secs, nanos }, STEREO);
            assert!(at >= last);
            last = at;
        }
    }
    assert!(duration_to_samples(secs(6), STEREO) >= last);
}

#[test]
fn callbacks_wait_for_the_output() {
    let mut shared: StreamerCallbackShared<u32> = StreamerCallbackShared::new();
    assert_eq!(shared.convert_duration_to_samples(secs(3)), 0);
    assert_eq!(shared.add_callback(secs(10), 1), Ok(None));
    assert_eq!(add_callback(&mut shared, secs(2), 2), Ok(None));
    let times = shared.set_callback_receiver(STEREO);
    assert_eq!(times, vec![882_000, 176_400]);
    assert_eq!(shared.convert_duration_to_samples(secs(3)), 264_600);
    assert_eq!(shared.take_callback(Callback::CbOnSample(176_400)), Some(2));
    assert_eq!(shared.take_callback(Callback::CbOnSample(176_400)), None);
    assert_eq!(shared.take_callback(Callback::CbOnSample(882_000)), Some(1));
}

#[test]
fn latest_callback_with_a_delay_wins() {
    let mut shared: StreamerCallbackShared<u32> = StreamerCallbackShared::default();
    assert_eq!(shared.add_callback(secs(1), 1), Ok(None));
    assert_eq!(shared.add_callback(secs(2), 2), Ok(None));
    assert_eq!(shared.add_callback(secs(1), 3), Ok(None));
    assert_eq!(shared.set_callback_receiver(STEREO), vec![88_200, 176_400]);
    assert_eq!(shared.take_callback(Callback::CbOnSample(88_200)), Some(3));
}

#[test]
fn callback_after_the_start_is_registered_at_once() {
    let mut shared: StreamerCallbackShared<u32> = StreamerCallbackShared::new();
    assert_eq!(shared.set_callback_receiver(STEREO), Vec::<u64>::new());
    assert_eq!(shared.add_callback(secs(15), 4), Ok(Some(1_323_000)));
    assert_eq!(add_callback(&mut shared, secs(15), 5), Ok(Some(1_323_000)));
    assert_eq!(shared.take_callback(Callback::CbOnSample(1_323_000)), Some(5));
}

#[test]
fn before_or_after_the_start_makes_no_difference() {
    let mut early: StreamerCallbackShared<u32> = StreamerCallbackShared::new();
    let _ = early.add_callback(secs(4), 9);
    let registered = early.set_callback_receiver(STEREO);
    let mut late: StreamerCallbackShared<u32> = StreamerCallbackShared::new();
    let _ = late.set_callback_receiver(STEREO);
    assert_eq!(late.add_callback(secs(4), 9), Ok(Some(registered[0])));
    let reached = Callback::CbOnSample(registered[0]);
    assert_eq!(early.take_callback(reached), late.take_callback(reached));
}

#[test]
fn whole_seconds_are_exact() {
    for count in [0u64, 1, 59, 3_600, 100_000_000_000] {
        assert_eq!(duration_to_samples(secs(count), STEREO), count * 88_200);
    }
}

#[test]
fn nothing_waits_once_playback_has_started() {
    let mut shared: StreamerCallbackShared<&str> = StreamerCallbackShared::new();
    assert_eq!(add_callback(&mut shared, secs(2), "two"), Ok(None));
    assert_eq!(shared.set_callback_receiver(STEREO), vec![176_400]);
    assert_eq!(add_callback(&mut shared, secs(3), "three"), Ok(Some(264_600)));
    assert!(shared.set_callback_receiver(STEREO).is_empty());
    assert_eq!(shared.take_callback(Callback::CbOnSample(264_600)), Some("three"));
}
