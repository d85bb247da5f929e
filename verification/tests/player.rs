use audio_learn::sample::Sample;
use audio_learn::seconds::Seconds;
use audio_learn::stream_player::ring::SampleRing;
use audio_learn::stream_player::schedule::CallbackSchedule;
use audio_learn::stream_player::{
    is_device_in_order, new_stream_player, play_time_ms, BitRateInfo, OutputOutcome, Playback, PollStep, StreamCommand,
    StreamNotify, StreamPlayerImpl,
};
use audio_learn::streamer::device::{OutputConfigRange, OutputDevice};
use audio_learn::streamer::{
    Callback, DeviceOutputInfo, StreamErr, StreamerInputInfo, NO_SEEK,
};

fn device() -> OutputDevice {
    OutputDevice {
        default_config: Some(DeviceOutputInfo { channels: 2, sample_rate: 48_000 }),
        configs: Some(vec![
            OutputConfigRange { channels: 2, min_sample_rate: 8_000, max_sample_rate: 96_000 },
            OutputConfigRange { channels: 1, min_sample_rate: 8_000, max_sample_rate: 16_000 },
        ]),
    }
}

fn mono_input() -> Result<StreamerInputInfo, StreamErr> {
    Ok(StreamerInputInfo { track_id: 0, channels: 1, sample_rate: 44_100, duration: None })
}

fn player(bit_rate: BitRateInfo) -> StreamPlayerImpl<&'static str> {
    new_stream_player("streamer", mono_input(), bit_rate, Some(device())).ok().unwrap()
}

fn playback() -> Playback {
    player(BitRateInfo::Manual(8_000, 2)).prepare()
}

fn samples(from: u64, count: usize) -> Vec<Sample> {
    (0..count).map(|i| Sample::from_count(from + i as u64)).collect()
}

fn output(playback: &mut Playback, len: usize) -> Vec<u32> {
    let mut out = vec![Sample::from_count(99); len];
    playback.fill(&mut out);
    out.iter().map(|s| f32::from_bits(s.bits) as u32).collect()
}

fn seek(playback: &mut Playback, secs: f64) {
    let mut note = 1;
    playback.notify(StreamNotify::Seek(Seconds { bits: secs.to_bits() }), &mut note);
    assert_eq!(note, NO_SEEK);
}

#[test]
fn player_asks_for_what_it_is_told() {
    let info = |bit_rate| player(bit_rate).device_output_info();
    assert_eq!(
        info(BitRateInfo::Manual(200_000, 2)),
        DeviceOutputInfo { channels: 2, sample_rate: 96_000 }
    );
    assert_eq!(
        info(BitRateInfo::DeviceDefault),
        DeviceOutputInfo { channels: 2, sample_rate: 48_000 }
    );
    assert_eq!(
        info(BitRateInfo::Streamer),
        DeviceOutputInfo { channels: 1, sample_rate: 16_000 }
    );
    // Without an input the device decides.
    let unknown = new_stream_player(
        "streamer",
        Err(StreamErr::InputInfoError),
        BitRateInfo::Streamer,
        Some(device()),
    );
    assert_eq!(
        unknown.ok().unwrap().device_output_info(),
        DeviceOutputInfo { channels: 2, sample_rate: 48_000 }
    );
}

#[test]
fn player_needs_a_device() {
    let err = |device| {
        new_stream_player("streamer", mono_input(), BitRateInfo::Manual(8_000, 2), device).err()
    };
    assert_eq!(err(None), Some(StreamErr::NoOutputDevice));
    let no_default = OutputDevice { default_config: None, ..device() };
    assert_eq!(err(Some(no_default)), Some(StreamErr::QueryOutputDeviceError));
    let no_configs = OutputDevice { configs: None, ..device() };
    assert_eq!(err(Some(no_configs)), Some(StreamErr::QueryOutputDeviceError));
    let six = StreamPlayerImpl::new(
        "streamer",
        mono_input(),
        BitRateInfo::Manual(8_000, 6),
        Some(device()),
    );
    assert_eq!(six.err(), Some(StreamErr::NoDeviceConfigForChannelCount));
}

#[test]
fn player_starts_with_its_output() {
    let mut player = player(BitRateInfo::DeviceDefault);
    assert_eq!(player.start(OutputOutcome::NoDevice), Err(StreamErr::NoOutputDevice));
    assert_eq!(player.start(OutputOutcome::Failed), Err(StreamErr::OutputStreamError));
    assert_eq!(player.start(OutputOutcome::Playing), Ok("streamer"));
}

#[test]
fn play_time_is_that_of_single_precision() {
    for (elapsed, channels, sample_rate) in [
        (0u64, 2u16, 44_100u32),
        (88_200, 2, 44_100),
        (1_000_003, 2, 44_100),
        (u64::MAX, 1, 8_000),
        (77, 6, 96_000),
        (0, 0, 44_100),
        (5, 2, 0),
    ] {
        let expected = elapsed as f32 / (sample_rate as f32 * channels as f32) * 1000.0;
        let ms = play_time_ms(elapsed, DeviceOutputInfo { channels, sample_rate });
        if expected.is_nan() {
            assert!(f32::from_bits(ms.bits).is_nan());
        } else {
            assert_eq!(ms.bits, expected.to_bits());
        }
    }
}

#[test]
fn play_time_never_goes_down() {
    let info = DeviceOutputInfo { channels: 2, sample_rate: 44_100 };
    let mut last = 0f32;
    for elapsed in (0..40_000_000u64).step_by(99_991) {
        let ms = f32::from_bits(play_time_ms(elapsed, info).bits);
        assert!(ms >= last);
        last = ms;
    }
}

#[test]
fn status_follows_the_playback() {
    let player = player(BitRateInfo::Manual(8_000, 2));
    let status = player.status();
    let mut playback = player.prepare();
    let mut copy = status.clone();
    let mut late = player.status();
    assert_eq!((status.sample_rate(), status.channels()), (8_000, 2));
    assert_eq!(f32::from_bits(copy.get_play_time_ms().bits), 0.0);
    let _ = output(&mut playback, 8_000);
    assert_eq!(f32::from_bits(copy.get_play_time_ms().bits), 500.0);
    assert_eq!(f32::from_bits(late.get_play_time_ms().bits), 500.0);
}

#[test]
fn samples_come_out_in_order() {
    let mut playback = playback();
    assert_eq!(playback.push(&samples(1, 5), 0), 5);
    assert_eq!(output(&mut playback, 3), vec![1, 2, 3]);
    assert_eq!(playback.push(&samples(6, 2), 0), 2);
    // Silence where nothing waits.
    assert_eq!(output(&mut playback, 6), vec![4, 5, 6, 7, 0, 0]);
}

#[test]
fn requests_can_be_cut_anywhere() {
    let mut whole = playback();
    let mut cut = playback();
    let _ = whole.push(&samples(1, 10), 0);
    let _ = cut.push(&samples(1, 10), 0);
    let mut pieces = output(&mut cut, 4);
    pieces.extend(output(&mut cut, 8));
    assert_eq!(output(&mut whole, 12), pieces);
}

#[test]
fn buffer_holds_a_second_and_no_more() {
    // A second is 16000 samples; the next power of two is 16384.
    assert_eq!(player(BitRateInfo::Manual(8_000, 2)).buffer_size(), 16_000);
    let mut playback = playback();
    let data = samples(0, 20_000);
    let rest = playback.push(&data, 0);
    assert_eq!(rest, 16_384);
    assert_eq!(playback.push(&data, rest), rest);
    let first = output(&mut playback, 10_000);
    let end = playback.push(&data, rest);
    assert_eq!(end, 20_000);
    let mut all = first;
    all.extend(output(&mut playback, 10_000));
    assert_eq!(all, (0..20_000).collect::<Vec<u32>>());
    assert_eq!(f32::from_bits(playback.drain_time().bits), 16_384f32 / 8_000f32);
}

#[test]
fn seek_drops_what_waits() {
    let mut playback = playback();
    let _ = playback.push(&samples(1, 5), 0);
    seek(&mut playback, 2.0);
    playback.register(32_002);
    playback.register(32_010);
    assert_eq!(playback.poll(), PollStep::Wait);
    assert_eq!(output(&mut playback, 2), vec![0, 0]);
    // The media is at the new position now.
    assert_eq!(playback.poll(), PollStep::Due(Callback::CbOnSample(32_002)));
    assert_eq!(playback.poll(), PollStep::Wait);
    let _ = output(&mut playback, 8);
    assert_eq!(playback.poll(), PollStep::Due(Callback::CbOnSample(32_010)));
}

#[test]
fn seek_that_no_streamer_noted_is_passed_over() {
    let mut playback = playback();
    let _ = playback.push(&samples(1, 2), 0);
    let mut note = NO_SEEK;
    playback.notify(StreamNotify::Seek(Seconds { bits: 2f64.to_bits() }), &mut note);
    playback.notify(StreamNotify::Rewind, &mut note);
    assert_eq!(note, NO_SEEK);
    assert_eq!(output(&mut playback, 2), vec![1, 2]);
}

#[test]
fn callbacks_are_due_in_ascending_order() {
    let mut playback = playback();
    for at in [30, 10, 20] {
        playback.register(at);
    }
    assert_eq!(playback.poll(), PollStep::Wait);
    let _ = output(&mut playback, 25);
    assert_eq!(playback.poll(), PollStep::Due(Callback::CbOnSample(10)));
    assert_eq!(playback.poll(), PollStep::Due(Callback::CbOnSample(20)));
    assert_eq!(playback.poll(), PollStep::Wait);
    let _ = output(&mut playback, 5);
    assert_eq!(playback.poll(), PollStep::Due(Callback::CbOnSample(30)));
    assert_eq!(playback.poll(), PollStep::Wait);
}

#[test]
fn callback_for_a_sample_that_is_out_is_passed_over() {
    let mut playback = playback();
    let _ = output(&mut playback, 100);
    playback.register(99);
    assert_eq!(playback.poll(), PollStep::Wait);
    playback.register(100);
    assert_eq!(playback.poll(), PollStep::Due(Callback::CbOnSample(100)));
}

#[test]
fn commands_pause_resume_and_stop() {
    let mut playback = playback();
    playback.register(1);
    let _ = output(&mut playback, 1);
    assert!(!playback.command(StreamCommand::Pause));
    assert!(playback.is_paused());
    assert_eq!(playback.poll(), PollStep::Wait);
    assert!(!playback.command(StreamCommand::Resume));
    assert_eq!(playback.poll(), PollStep::Due(Callback::CbOnSample(1)));
    assert!(playback.command(StreamCommand::Stop));
    assert_eq!(playback.poll(), PollStep::Stopped);
}

#[test]
fn order_of_registration_does_not_matter() {
    let orders = [[5u64, 9, 7], [9, 7, 5], [7, 5, 9]];
    for order in orders {
        let mut schedule = CallbackSchedule::new();
        for at in order {
            schedule.register(at, 0);
        }
        let due: Vec<Option<u64>> = (0..4).map(|_| schedule.poll(100)).collect();
        assert_eq!(due, vec![Some(5), Some(7), Some(9), None]);
    }
}

#[test]
fn seek_forward_passes_over_callbacks() {
    let mut schedule = CallbackSchedule::new();
    for at in [10, 20, 30, 40] {
        schedule.register(at, 0);
    }
    schedule.seek(30);
    assert_eq!(schedule.poll(29), None);
    assert_eq!(schedule.poll(30), Some(30));
    assert_eq!(schedule.poll(40), Some(40));
    assert_eq!(schedule.poll(100), None);
}

#[test]
fn seek_back_brings_callbacks_again() {
    let mut schedule = CallbackSchedule::new();
    for at in [10, 20, 30, 40] {
        schedule.register(at, 0);
    }
    assert_eq!(schedule.poll(10), Some(10));
    assert_eq!(schedule.poll(20), Some(20));
    // Now 30 is next, and 10 and 20 have come up.
    schedule.seek(15);
    assert_eq!(schedule.poll(19), None);
    assert_eq!(schedule.poll(20), Some(20));
    assert_eq!(schedule.poll(30), Some(30));
    assert_eq!(schedule.poll(40), Some(40));
    assert_eq!(schedule.poll(100), None);
    // All have come up, and nothing is next.
    schedule.seek(10);
    let due: Vec<Option<u64>> = (0..5).map(|_| schedule.poll(100)).collect();
    assert_eq!(due, vec![Some(10), Some(20), Some(30), Some(40), None]);
}

#[test]
fn callback_comes_up_twice_around_a_seek() {
    let mut playback = playback();
    playback.register(100);
    let _ = output(&mut playback, 150);
    assert_eq!(playback.poll(), PollStep::Due(Callback::CbOnSample(100)));
    assert_eq!(playback.poll(), PollStep::Wait);
    seek(&mut playback, 0.0);
    assert_eq!(output(&mut playback, 50).len(), 50);
    assert_eq!(playback.poll(), PollStep::Wait);
    let _ = output(&mut playback, 50);
    assert_eq!(playback.poll(), PollStep::Due(Callback::CbOnSample(100)));
    assert_eq!(playback.poll(), PollStep::Wait);
}

#[test]
fn skipped_callback_comes_up_after_a_seek_back() {
    let mut schedule = CallbackSchedule::new();
    for at in [10, 20, 30] {
        schedule.register(at, 0);
    }
    // The next one is passed over as well.
    schedule.seek(25);
    assert_eq!(schedule.poll(29), None);
    schedule.seek(5);
    assert_eq!(schedule.poll(9), None);
    let due: Vec<Option<u64>> = (0..4).map(|_| schedule.poll(30)).collect();
    assert_eq!(due, vec![Some(10), Some(20), Some(30), None]);
}

#[test]
fn seek_before_the_next_callback_keeps_it() {
    let mut schedule = CallbackSchedule::new();
    schedule.register(50, 0);
    schedule.seek(20);
    assert_eq!(schedule.poll(49), None);
    assert_eq!(schedule.poll(50), Some(50));
}

#[test]
fn callback_at_zero_disarms_the_next() {
    let mut schedule = CallbackSchedule::new();
    schedule.register(0, 0);
    assert_eq!(schedule.poll(100), None);
    schedule.register(7, 0);
    schedule.register(0, 0);
    assert_eq!(schedule.poll(7), None);
    assert_eq!(schedule.poll(100), None);
    // Another callback comes up, and then the one that waits.
    schedule.register(20, 0);
    assert_eq!(schedule.poll(19), None);
    assert_eq!(schedule.poll(20), Some(20));
    assert_eq!(schedule.poll(20), Some(7));
    assert_eq!(schedule.poll(100), None);
    // Once something is out, zero is passed over.
    schedule.register(50, 0);
    schedule.register(0, 1);
    assert_eq!(schedule.poll(50), Some(50));
}

#[test]
fn seek_arms_what_a_callback_at_zero_disarmed() {
    let mut schedule = CallbackSchedule::new();
    schedule.register(7, 0);
    schedule.register(0, 0);
    schedule.seek(3);
    assert_eq!(schedule.poll(6), None);
    assert_eq!(schedule.poll(7), Some(7));
}

#[test]
fn bounds_of_the_chosen_range_are_checked() {
    let upside_down = OutputConfigRange { channels: 6, min_sample_rate: 9, max_sample_rate: 8 };
    let mut ranges = device().configs.unwrap();
    ranges.push(upside_down);
    let device = Some(OutputDevice { configs: Some(ranges), ..device() });
    let checked = |bit_rate| is_device_in_order(&mono_input(), bit_rate, &device);
    assert!(checked(BitRateInfo::Manual(8_000, 2)));
    assert!(checked(BitRateInfo::Streamer));
    assert!(checked(BitRateInfo::DeviceDefault));
    assert!(checked(BitRateInfo::Manual(8_000, 5)));
    assert!(!checked(BitRateInfo::Manual(8_000, 6)));
    assert!(is_device_in_order(&mono_input(), BitRateInfo::Manual(8_000, 6), &None));
}

#[test]
fn ring_keeps_order_and_bounds() {
    let mut ring = SampleRing::new(4);
    let data = samples(1, 6);
    assert_eq!(ring.size(), 4);
    assert_eq!(ring.push_from(&data, 0), 4);
    assert_eq!(ring.pop(), Sample::from_count(1));
    assert_eq!(ring.push_from(&data, 4), 5);
    for expected in [2u64, 3, 4, 5, 0] {
        assert_eq!(ring.pop(), Sample::from_count(expected));
    }
    let _ = ring.push_from(&data, 3);
    ring.clear();
    assert_eq!(ring.pop(), Sample::from_count(0));
}
