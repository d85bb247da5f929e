use audio_learn::sample::Sample;
use audio_learn::streamer::control::next_command;
use audio_learn::streamer::device::{OutputConfigRange, OutputDevice};
use audio_learn::streamer::single::{
    nearest_second, read_input_info, says_enough, DecodeOutcome, DecodeStep, PacketOutcome, PacketStep,
    PlaybackAction, SinglePlayback, SingleStreamer, TimeBase, TrackInfo, CHUNK_SIZE,
};
use audio_learn::streamer::{ControlCommand, GainFunction, StreamErr, StreamerInputInfo};

fn track() -> TrackInfo {
    TrackInfo {
        id: 3,
        sample_rate: Some(44_100),
        channels: Some(2),
        time_base: Some(TimeBase { numer: 1, denom: 44_100 }),
        n_frames: Some(44_100 * 60 + 22_050),
    }
}

fn device(max: u32) -> Option<OutputDevice> {
    Some(OutputDevice {
        default_config: None,
        configs: Some(vec![OutputConfigRange {
            channels: 2,
            min_sample_rate: 8_000,
            max_sample_rate: max,
        }]),
    })
}

fn playback(resamples: bool) -> SinglePlayback {
    let mut streamer = SingleStreamer::new(Some(Some(track())), device(48_000)).ok().unwrap();
    streamer.play(resamples).ok().unwrap().0
}

fn samples(count: usize) -> Vec<Sample> {
    (0..count).map(|i| Sample::from_count(i as u64)).collect()
}

#[test]
fn input_info_is_read_from_the_track() {
    let info = StreamerInputInfo {
        track_id: 3,
        channels: 2,
        sample_rate: 44_100,
        duration: Some(61),
    };
    assert_eq!(read_input_info(Some(Some(track()))), Ok(info));
    let streamer = SingleStreamer::new(Some(Some(track())), device(48_000)).ok().unwrap();
    assert_eq!(streamer.get_input_info(), Ok(info));
    assert_eq!(streamer.get_duration(), Some(61));
    assert_eq!(streamer.last_seek_position(), u64::MAX);
}

#[test]
fn durations_are_rounded_to_the_nearest_second() {
    let with = |numer, denom, frames| {
        let time_base = Some(TimeBase { numer, denom });
        TrackInfo { time_base, n_frames: Some(frames), ..track() }.duration()
    };
    assert_eq!(with(1, 44_100, 44_100 * 60), Some(60));
    assert_eq!(with(1, 44_100, 44_100 * 60 + 22_049), Some(60));
    assert_eq!(with(1, 44_100, 44_100 * 60 + 22_050), Some(61));
    assert_eq!(with(1, 320, 12_345), Some(39));
    assert_eq!(with(1, 320, u64::MAX), Some(57_646_075_230_342_349));
    assert_eq!(with(3, 2, 1), Some(2));
    assert_eq!(with(1, u32::MAX, 0), Some(0));
    // Whole seconds wrap around.
    assert_eq!(with(320, 1, u64::MAX), Some(18_446_744_073_709_551_296));
    assert_eq!(TrackInfo { n_frames: None, ..track() }.duration(), None);
    assert_eq!(TrackInfo { time_base: None, ..track() }.duration(), None);
    assert_eq!(nearest_second(7, 0.5f64.to_bits()), 8);
    assert_eq!(nearest_second(7, 0.499_999f64.to_bits()), 7);
}

#[test]
fn track_has_to_say_enough() {
    assert!(says_enough(&None));
    assert!(says_enough(&Some(None)));
    assert!(says_enough(&Some(Some(track()))));
    assert!(!says_enough(&Some(Some(TrackInfo { channels: None, ..track() }))));
    // Without a rate it is not played anyway.
    let no_rate = TrackInfo { sample_rate: None, channels: None, ..track() };
    assert!(says_enough(&Some(Some(no_rate))));
    let zero = TrackInfo { time_base: Some(TimeBase { numer: 1, denom: 0 }), ..track() };
    assert!(!says_enough(&Some(Some(zero))));
    // One second more than there are is needed to round up.
    let full = |numer, denom, frames| {
        let time_base = Some(TimeBase { numer, denom });
        TrackInfo { time_base, n_frames: Some(frames), ..track() }.is_measurable()
    };
    assert!(full(1, 1, u64::MAX));
    assert!(!full(7, 4, 10540996613548315209));
    assert!(full(7, 4, 10540996613548315209 - 1));
}

#[test]
fn streamer_needs_a_track_with_a_rate() {
    let err = |probed| SingleStreamer::new(probed, device(48_000)).err();
    assert_eq!(err(None), Some(StreamErr::UnsupportedFormat));
    assert_eq!(err(Some(None)), Some(StreamErr::NoAudioTrack));
    let no_rate = TrackInfo { sample_rate: None, ..track() };
    assert_eq!(err(Some(Some(no_rate))), Some(StreamErr::NoSampleRate));
}

#[test]
fn streamer_needs_a_device_for_its_channels() {
    let err = |track, device| SingleStreamer::new(Some(Some(track)), device).err();
    assert_eq!(err(track(), None), Some(StreamErr::NoOutputDevice));
    let mute = OutputDevice { default_config: None, configs: None };
    assert_eq!(err(track(), Some(mute)), Some(StreamErr::QueryOutputDeviceError));
    let six = TrackInfo { channels: Some(6), ..track() };
    assert_eq!(err(six, device(48_000)), Some(StreamErr::NoDeviceConfigForChannelCount));
}

#[test]
fn resampler_is_needed_where_the_rates_differ() {
    let needs = |max| {
        SingleStreamer::new(Some(Some(track())), device(max)).ok().unwrap().needs_resampler()
    };
    assert!(!needs(48_000));
    assert!(!needs(44_100));
    assert!(needs(32_000));
}

#[test]
fn streamer_plays_once() {
    let mut streamer = SingleStreamer::new(Some(Some(track())), device(48_000)).ok().unwrap();
    let mut control = streamer.control_handle();
    let (_, mut commands) = streamer.play(false).ok().unwrap();
    assert_eq!(control.rewind(), Ok(()));
    assert_eq!(next_command(&mut commands), Some(ControlCommand::Rewind));
    assert_eq!(streamer.play(false).err(), Some(StreamErr::AlreadyPlaying));
}

#[test]
fn commands_steer_the_playback() {
    let mut playback = playback(false);
    assert_eq!(playback.command(None), PlaybackAction::Continue);
    assert_eq!(playback.command(Some(ControlCommand::Seek(9))), PlaybackAction::SeekTo(9));
    assert_eq!(playback.command(Some(ControlCommand::Rewind)), PlaybackAction::SeekStart);
    let gain = GainFunction::FadeInLinear(10);
    assert_eq!(
        playback.command(Some(ControlCommand::AddGainFunction(gain))),
        PlaybackAction::Continue
    );
    assert_eq!(playback.gain().0, Some(gain));
    assert_eq!(
        playback.command(Some(ControlCommand::RemoveGainFunction)),
        PlaybackAction::Continue
    );
    assert_eq!(playback.gain().0, None);
    assert!(!playback.is_finished());
    assert_eq!(playback.command(Some(ControlCommand::Stop)), PlaybackAction::End);
    assert!(playback.is_finished());
}

#[test]
fn packets_are_decoded_skipped_or_the_end() {
    let mut first = playback(false);
    assert_eq!(first.packet(PacketOutcome::Packet(3)), PacketStep::Decode);
    assert_eq!(first.packet(PacketOutcome::Packet(4)), PacketStep::Skip);
    assert!(!first.is_finished());
    assert_eq!(first.packet(PacketOutcome::EndOfStream), PacketStep::End(Ok(())));
    assert!(first.is_finished());
    for outcome in [PacketOutcome::ResetRequired, PacketOutcome::Failed] {
        let mut other = playback(false);
        assert_eq!(other.packet(outcome), PacketStep::End(Err(StreamErr::UnknownError)));
        assert!(other.is_finished());
    }
}

#[test]
fn damaged_packets_are_passed_over() {
    let playback = playback(false);
    assert_eq!(playback.decoded(DecodeOutcome::Decoded), DecodeStep::PlaySamples);
    assert_eq!(playback.decoded(DecodeOutcome::Damaged), DecodeStep::Skip);
    assert_eq!(
        playback.decoded(DecodeOutcome::Failed),
        DecodeStep::End(Err(StreamErr::UnknownError))
    );
}

#[test]
fn without_a_resampler_samples_go_out_as_they_are() {
    let mut playback = playback(false);
    let direct = playback.begin(samples(5)).unwrap();
    assert_eq!(playback.amplify(direct, &Vec::new()), samples(5));
    playback.end(true);
    assert_eq!(playback.gain(), (None, 5));
}

#[test]
fn linear_gain_runs_over_packets() {
    let mut playback = playback(false);
    let gain = ControlCommand::AddGainFunction(GainFunction::FadeOutLinear(4));
    let _ = playback.command(Some(gain));
    let one = || vec![Sample::from_count(1); 3];
    let as_values = |out: Vec<Sample>| -> Vec<f32> {
        out.iter().map(|s| f32::from_bits(s.bits)).collect()
    };
    let direct = playback.begin(one()).unwrap();
    let out = playback.amplify(direct, &Vec::new());
    playback.end(true);
    assert_eq!(as_values(out), vec![1.0, 0.75, 0.5]);
    // A packet that could not be sent does not move the gain on.
    let direct = playback.begin(one()).unwrap();
    let out = playback.amplify(direct, &Vec::new());
    playback.end(false);
    assert_eq!(as_values(out), vec![0.25, 0.0, 0.0]);
    let direct = playback.begin(one()).unwrap();
    let out = playback.amplify(direct, &Vec::new());
    assert_eq!(as_values(out), vec![0.25, 0.0, 0.0]);
    // A new gain starts at its first sample.
    let gain = ControlCommand::AddGainFunction(GainFunction::FadeInLinear(2));
    let _ = playback.command(Some(gain));
    let direct = playback.begin(one()).unwrap();
    assert_eq!(as_values(playback.amplify(direct, &Vec::new())), vec![0.0, 0.5, 1.0]);
}

#[test]
fn other_gains_are_given() {
    let mut playback = playback(false);
    let gain = ControlCommand::AddGainFunction(GainFunction::FadeOutLog(4));
    let _ = playback.command(Some(gain));
    let direct = playback.begin(samples(3)).unwrap();
    let given: Vec<Sample> = vec![Sample::from_ratio(1, 2); 3];
    let out = playback.amplify(direct, &given);
    let expected: Vec<Sample> =
        vec![Sample::from_count(0), Sample::from_ratio(1, 2), Sample::from_count(1)];
    assert_eq!(out, expected);
}

#[test]
fn resampler_gets_whole_chunks_in_order() {
    let mut playback = playback(true);
    let chunk = 2 * CHUNK_SIZE;
    let all = samples(2 * chunk + 700);
    assert!(playback.begin(all[..1000].to_vec()).is_none());
    assert!(playback.chunk().is_none());
    playback.end(true);
    assert!(playback.begin(all[1000..].to_vec()).is_none());
    assert_eq!(playback.chunk().unwrap(), all[..chunk].to_vec());
    // What was resampled could not be sent: the chunk stays.
    assert!(playback.resampled(Some(samples(10)), &Vec::new()).is_ok());
    assert_eq!(playback.chunk_sent(false), Err(StreamErr::SendError));
    assert_eq!(playback.chunk().unwrap(), all[..chunk].to_vec());
    assert_eq!(playback.chunk_sent(true), Ok(()));
    assert_eq!(playback.chunk().unwrap(), all[chunk..2 * chunk].to_vec());
    assert_eq!(
        playback.resampled(None, &Vec::new()).err(),
        Some(StreamErr::ResamplingError)
    );
    assert_eq!(playback.chunk_sent(true), Ok(()));
    assert!(playback.chunk().is_none());
}

#[test]
fn device_is_asked_for_before_the_duration() {
    // A time base of zero says nothing of the duration, but the device comes first.
    let zero = TrackInfo { time_base: Some(TimeBase { numer: 1, denom: 0 }), ..track() };
    assert_eq!(SingleStreamer::new(Some(Some(zero)), None).err(), Some(StreamErr::NoOutputDevice));
    let six = TrackInfo { channels: Some(6), ..zero };
    assert_eq!(
        SingleStreamer::new(Some(Some(six)), device(48_000)).err(),
        Some(StreamErr::NoDeviceConfigForChannelCount)
    );
}

/// Sends a packet through a resampler that takes every other sample and numbers its chunks.
fn send_packet(playback: &mut SinglePlayback, count: &mut u64, packet: Vec<Sample>) -> Vec<Sample> {
    let mut sent = Vec::new();
    assert!(playback.begin(packet).is_none());
    while let Some(chunk) = playback.chunk() {
        *count += 1;
        let mut samples: Vec<Sample> = chunk.iter().copied().step_by(2).collect();
        samples.push(Sample::from_count(*count));
        sent.extend(playback.resampled(Some(samples), &Vec::new()).ok().unwrap());
        assert_eq!(playback.chunk_sent(true), Ok(()));
    }
    playback.end(true);
    sent
}

#[test]
fn packets_can_be_cut_anywhere() {
    let all = samples(7 * CHUNK_SIZE + 13);
    let gain = ControlCommand::AddGainFunction(GainFunction::FadeOutLinear(5_000));
    for cut in [0usize, 1, 2_048, 3_000, 7 * CHUNK_SIZE] {
        let mut whole = playback(true);
        let mut pieces = playback(true);
        let _ = whole.command(Some(gain));
        let _ = pieces.command(Some(gain));
        let (mut one, mut two) = (0, 0);
        let expected = send_packet(&mut whole, &mut one, all.clone());
        let mut sent = send_packet(&mut pieces, &mut two, all[..cut].to_vec());
        sent.extend(send_packet(&mut pieces, &mut two, all[cut..].to_vec()));
        assert_eq!(sent, expected);
        assert_eq!(pieces.gain(), whole.gain());
        // What is left in the buffer is the same too.
        let rest = samples(CHUNK_SIZE);
        assert_eq!(
            send_packet(&mut whole, &mut one, rest.clone()),
            send_packet(&mut pieces, &mut two, rest)
        );
    }
}

#[test]
fn pause_of_a_streamer_is_shared() {
    let streamer = SingleStreamer::new(Some(Some(track())), device(48_000)).ok().unwrap();
    let mut one = streamer.control_handle();
    let mut two = streamer.control_handle();
    assert!(!two.is_paused());
    one.pause();
    assert!(two.is_paused());
}

#[test]
fn paused_playback_takes_no_command() {
    let mut streamer = SingleStreamer::new(Some(Some(track())), device(48_000)).ok().unwrap();
    let mut control = streamer.control_handle();
    let mut paused = control.paused_flag();
    let (mut playback, mut commands) = streamer.play(false).ok().unwrap();
    assert_eq!(playback.turn(&mut paused, &mut commands), PlaybackAction::Continue);
    control.pause();
    assert_eq!(control.seek(5), Ok(()));
    assert_eq!(control.stop(), Ok(()));
    assert_eq!(playback.turn(&mut paused, &mut commands), PlaybackAction::Wait);
    assert_eq!(playback.turn(&mut paused, &mut commands), PlaybackAction::Wait);
    assert!(!playback.is_finished());
    assert_eq!(commands.len(), 2);
    control.resume();
    assert_eq!(playback.turn(&mut paused, &mut commands), PlaybackAction::SeekTo(5));
    assert_eq!(playback.turn(&mut paused, &mut commands), PlaybackAction::End);
    assert!(playback.is_finished());
}
