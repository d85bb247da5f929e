use audio_learn::sample::Sample;
use audio_learn::streamer::control::next_command;
use audio_learn::streamer::mixer::{
    apply_mixer_control, MixState, MixStep, MixTurn, Mixer, MixerCommand,
};
use audio_learn::streamer::{
    ControlCommand, ControlHandle, DeviceOutputInfo, GainFunction, StreamErr,
};

const STEREO: DeviceOutputInfo = DeviceOutputInfo { channels: 2, sample_rate: 44_100 };

fn samples(values: &[f32]) -> Vec<Sample> {
    values.iter().map(|v| Sample { bits: v.to_bits() }).collect()
}

fn values(step: MixStep) -> Vec<f32> {
    match step {
        MixStep::Output(output) => output.iter().map(|s| f32::from_bits(s.bits)).collect(),
        _ => panic!("nothing was mixed"),
    }
}

fn handles(count: usize) -> Vec<ControlHandle> {
    (0..count).map(|_| ControlHandle::new().0).collect()
}

fn mix_of(weights: Vec<u32>, normalize: bool) -> MixState {
    let count = weights.len();
    let mut mixer: Mixer<usize> = Mixer::new((0..count).collect(), weights);
    mixer.set_normalize_gain(normalize);
    let (state, _) = mixer.play(STEREO, handles(count), &vec![false; count]).ok().unwrap();
    state
}

#[test]
fn channels_are_averaged_by_weight() {
    let mut state = mix_of(vec![95, 5], true);
    assert!(state.deliver(0, samples(&[1.0, 0.5, 0.25])));
    assert!(matches!(state.mix(), MixStep::Idle));
    assert!(state.deliver(1, samples(&[-1.0, 0.1])));
    assert_eq!(state.weight(), Some(100));
    let koef = 1.0f32 / 100.0;
    let expected = vec![
        0.0f32 + 1.0 * 95.0 * koef + -1.0 * 5.0 * koef,
        0.0f32 + 0.5 * 95.0 * koef + 0.1 * 5.0 * koef,
    ];
    assert_eq!(values(state.mix()), expected);
    assert_eq!(state.play_position(), 2);
    // The third sample of the first channel waits for the second.
    assert!(matches!(state.mix(), MixStep::Idle));
    assert!(state.deliver(1, samples(&[0.75])));
    let expected = vec![0.0f32 + 0.25 * 95.0 * koef + 0.75 * 5.0 * koef];
    assert_eq!(values(state.mix()), expected);
}

#[test]
fn plain_sum_does_not_average() {
    let mut state = mix_of(vec![1, 1], false);
    assert!(state.deliver(0, samples(&[0.5, 0.25])));
    assert!(state.deliver(1, samples(&[0.125, -0.25])));
    assert_eq!(values(state.mix()), vec![0.625, 0.0]);
}

#[test]
fn no_weight_is_silence() {
    let mut state = mix_of(vec![0, 0], true);
    assert!(state.deliver(0, samples(&[0.5])));
    assert!(state.deliver(1, samples(&[0.5])));
    assert_eq!(values(state.mix()), vec![0.0]);
}

#[test]
fn one_channel_passes_through() {
    let mut state = mix_of(vec![1], false);
    let input = [0.1f32, -0.7, 1.0e-40, 3.0e38];
    assert!(state.deliver(0, samples(&input)));
    assert_eq!(values(state.mix()), input.to_vec());
}

#[test]
fn finished_channel_is_not_waited_for() {
    let mut state = mix_of(vec![1, 1], false);
    assert!(state.deliver(0, samples(&[0.5, 0.5])));
    state.apply(MixerCommand::Stop(1));
    assert!(!state.deliver(1, samples(&[9.0])));
    assert_eq!(values(state.mix()), vec![0.5, 0.5]);
    // There is no channel of that number.
    state.apply(MixerCommand::Stop(7));
    state.apply(MixerCommand::Stop(0));
    assert!(matches!(state.mix(), MixStep::Finished));
    assert!(state.is_finished());
}

#[test]
fn streamers_and_weights_are_observed() {
    let mut state = mix_of(vec![1, 1], false);
    state.observe(&vec![false, true], &vec![3, 1]);
    assert!(state.deliver(0, samples(&[0.25])));
    assert_eq!(values(state.mix()), vec![0.75]);
    state.observe(&vec![false, true], &vec![u32::MAX, 1]);
    assert_eq!(state.weight(), Some(u32::MAX));
    state.observe(&vec![false, false], &vec![u32::MAX, 1]);
    assert_eq!(state.weight(), None);
}

#[test]
fn added_channel_starts_where_the_mix_is() {
    let mut state = mix_of(vec![1], false);
    assert!(state.deliver(0, samples(&[0.5, 0.5, 0.5])));
    assert_eq!(values(state.mix()).len(), 3);
    let control = ControlHandle::new().0;
    let index = state.play_position();
    state.apply(MixerCommand::Add { index, finished: false, weight: 2, control });
    assert_eq!(state.len(), 2);
    assert!(state.deliver(0, samples(&[0.5, 0.25])));
    assert!(state.deliver(1, samples(&[0.125])));
    assert_eq!(values(state.mix()), vec![0.75]);
    assert_eq!(state.play_position(), 4);
}

#[test]
fn stop_ends_the_mix() {
    let mut state = mix_of(vec![1], false);
    assert!(!state.control(ControlCommand::Rewind));
    assert!(!state.is_finished());
    assert!(state.control(ControlCommand::Stop));
    assert!(state.is_finished());
    assert!(matches!(state.mix(), MixStep::Stopped));
}

#[test]
fn commands_reach_every_child() {
    let (first, mut first_rx) = ControlHandle::new();
    let (second, mut second_rx) = ControlHandle::new();
    let (gone, gone_rx) = ControlHandle::new();
    drop(gone_rx);
    let mut children = vec![first, gone, second];
    let mut stopped = false;
    let gain = ControlCommand::AddGainFunction(GainFunction::FadeOutLog(10));
    assert!(!apply_mixer_control(gain, &mut children, &mut stopped));
    assert!(!apply_mixer_control(ControlCommand::RemoveGainFunction, &mut children, &mut stopped));
    // A seek is not passed on.
    assert!(!apply_mixer_control(ControlCommand::Seek(3), &mut children, &mut stopped));
    assert!(!stopped);
    assert!(apply_mixer_control(ControlCommand::Stop, &mut children, &mut stopped));
    assert!(stopped);
    for rx in [&mut first_rx, &mut second_rx] {
        assert_eq!(next_command(rx), Some(gain));
        assert_eq!(next_command(rx), Some(ControlCommand::RemoveGainFunction));
        assert_eq!(next_command(rx), Some(ControlCommand::Stop));
        assert_eq!(next_command(rx), None);
    }
}

#[test]
fn handles_from_before_work_once_the_mix_runs() {
    let mut mixer: Mixer<&str> = Mixer::new(vec!["a"], vec![1]);
    let first = mixer.handle();
    let second = mixer.handle();
    let third = second.clone();
    let control = || ControlHandle::new().0;
    let mut mix: Option<MixState> = None;
    assert!(!first.add(&mut mix, 1, false, false, control()));
    first.stop_channel(&mut mix, 0);
    mixer.stop_channel(&mut mix, 0);
    assert!(mix.is_none());
    let (state, _) = mixer.play(STEREO, handles(1), &vec![false]).ok().unwrap();
    mix = Some(state);
    if let Some(state) = &mut mix {
        assert!(state.deliver(0, samples(&[0.5, 0.5])));
        assert_eq!(values(state.mix()), vec![0.5, 0.5]);
    }
    assert!(first.add(&mut mix, 7, true, false, control()));
    assert!(second.add(&mut mix, 1, false, true, control()));
    if let Some(state) = &mut mix {
        assert_eq!(state.len(), 3);
        assert_eq!(state.weight(), Some(8));
        // The new channel starts where the mix is; the other has finished.
        assert!(state.deliver(0, samples(&[1.0])));
        assert!(matches!(state.mix(), MixStep::Idle));
        assert!(state.deliver(1, samples(&[1.0])));
        assert!(!state.deliver(2, samples(&[1.0])));
        assert_eq!(values(state.mix()).len(), 1);
        assert_eq!(state.play_position(), 3);
    }
    third.stop_channel(&mut mix, 1);
    second.stop_channel(&mut mix, 9);
    if let Some(state) = &mut mix {
        assert!(!state.deliver(1, samples(&[1.0])));
        assert!(state.deliver(0, samples(&[1.0])));
    }
    mixer.stop_channel(&mut mix, 0);
    if let Some(state) = &mut mix {
        assert!(matches!(state.mix(), MixStep::Finished));
    }
    // The mix has ended: nothing joins it.
    assert!(!first.add(&mut mix, 1, false, false, control()));
    assert_eq!(mix.as_ref().map(|state| state.len()), Some(3));
}

#[test]
fn mixer_plays_once() {
    let mut mixer: Mixer<&str> = Mixer::new(vec!["a"], vec![1]);
    assert!(mixer.play(STEREO, handles(1), &vec![false]).is_ok());
    match mixer.play(STEREO, handles(1), &vec![false]) {
        Err(e) => assert_eq!(e, StreamErr::AlreadyPlaying),
        Ok(_) => panic!("a mixer plays once"),
    }
}

#[test]
fn streamers_join_before_and_after_the_start() {
    let mut mixer: Mixer<&str> = Mixer::new(vec!["a"], vec![1]);
    let control = || ControlHandle::new().0;
    let mut mix: Option<MixState> = None;
    assert!(mixer.add(&mut mix, "b", 2, false, false, control()).is_none());
    assert_eq!(mixer.get_streamers(), &vec!["a", "b"]);
    assert_eq!(mixer.get_weights(), vec![1, 2]);
    mixer.set_weight(0, 9);
    assert_eq!(mixer.get_weights(), vec![9, 2]);
    mix = mixer.play(STEREO, handles(2), &vec![false, false]).ok().map(|started| started.0);
    assert_eq!(mixer.add(&mut mix, "c", 3, true, false, control()), Some("c"));
    assert_eq!(mix.as_ref().map(|state| state.len()), Some(3));
    assert_eq!(mixer.get_streamers(), &vec!["a", "b"]);
    assert_eq!(mixer.get_weights(), vec![9, 2, 3]);
    // After the end a streamer is dropped.
    if let Some(state) = &mut mix {
        assert!(state.control(ControlCommand::Stop));
    }
    assert_eq!(mixer.add(&mut mix, "d", 4, false, false, control()), None);
    assert_eq!(mixer.get_streamers(), &vec!["a", "b"]);
    assert_eq!(mixer.get_weights(), vec![9, 2, 3, 4]);
    assert_eq!(mixer.last_seek_position(), u64::MAX);
}

#[test]
fn control_handle_reaches_the_mix() {
    let mut mixer: Mixer<&str> = Mixer::new(vec!["a"], vec![1]);
    let mut control = mixer.control_handle();
    let mut other = mixer.control_handle();
    let (_, mut commands) = mixer.play(STEREO, handles(1), &vec![false]).ok().unwrap();
    other.pause();
    assert!(control.is_paused());
    assert_eq!(control.stop(), Ok(()));
    assert_eq!(next_command(&mut commands), Some(ControlCommand::Stop));
}

#[test]
fn shortest_duration_counts() {
    assert_eq!(Mixer::<u8>::get_duration(&vec![Some(30), None, Some(12), Some(40)]), Some(12));
    assert_eq!(Mixer::<u8>::get_duration(&vec![None, None]), None);
    assert_eq!(Mixer::<u8>::get_duration(&Vec::new()), None);
    // A duration of zero counts as none, and what came before it is forgotten.
    assert_eq!(Mixer::<u8>::get_duration(&vec![Some(30), Some(0), Some(40)]), Some(40));
    assert_eq!(Mixer::<u8>::get_duration(&vec![Some(30), Some(0)]), None);
}

#[test]
fn mixing_loses_no_sample() {
    let mut state = mix_of(vec![1, 1], false);
    let mut first = Vec::new();
    let mut heard = Vec::new();
    let mut next = 0.0f32;
    for round in 0..40usize {
        let piece: Vec<f32> = (0..round % 5 + 1)
            .map(|_| {
                next += 1.0;
                next
            })
            .collect();
        first.extend_from_slice(&piece);
        assert!(state.deliver(0, samples(&piece)));
        assert!(state.deliver(1, samples(&vec![0.0; (round * 7) % 6])));
        if let MixStep::Output(output) = state.mix() {
            heard.extend(output.iter().map(|s| f32::from_bits(s.bits)));
        }
    }
    assert!(heard.len() > 50);
    assert_eq!(heard, first[..heard.len()].to_vec());
}

#[test]
fn finished_channel_holds_nothing_up() {
    let mut whole = mix_of(vec![2, 5, 3], true);
    let mut without = mix_of(vec![2, 3], true);
    whole.apply(MixerCommand::Stop(1));
    for (channel, value) in [(0usize, 0.5f32), (2, -0.25)] {
        assert!(whole.deliver(channel, samples(&[value, value])));
        assert!(without.deliver(channel / 2, samples(&[value, value])));
    }
    assert_eq!(whole.weight(), without.weight());
    assert_eq!(values(whole.mix()), values(without.mix()));
}

#[test]
fn too_much_weight_does_not_matter_while_nothing_is_mixed() {
    let mut state = mix_of(vec![u32::MAX, 1], true);
    assert_eq!(state.weight(), None);
    assert!(matches!(state.mix(), MixStep::Idle));
    assert!(state.control(ControlCommand::Stop));
    assert!(matches!(state.mix(), MixStep::Stopped));
}

#[test]
fn average_is_no_louder_than_the_loudest() {
    let weights = vec![95u32, 5, 1_000_003, 77, 0, u32::MAX / 2];
    let mut state = mix_of(weights.clone(), true);
    let mut peaks = vec![0.0f32; 50];
    for channel in 0..weights.len() {
        let input: Vec<f32> =
            (0..50).map(|i| ((i * 37 + channel * 11) % 101) as f32 / 101.0 - 0.3).collect();
        for (peak, value) in peaks.iter_mut().zip(&input) {
            *peak = peak.max(value.abs());
        }
        assert!(state.deliver(channel, samples(&input)));
    }
    for (out, peak) in values(state.mix()).iter().zip(&peaks) {
        assert!(out.abs() <= peak * (1.0 + 20.0 / 16_777_216.0));
    }
    // All the same: the average is the same, but for rounding.
    let mut state = mix_of(vec![3, 4], true);
    assert!(state.deliver(0, samples(&[0.7])));
    assert!(state.deliver(1, samples(&[0.7])));
    assert!((values(state.mix())[0] - 0.7).abs() < 1.0e-6);
}

#[test]
fn paused_mix_parks_and_sends_nothing() {
    let (child, mut child_rx) = ControlHandle::new();
    let mut mixer: Mixer<&str> = Mixer::new(vec!["a"], vec![1]);
    mixer.set_normalize_gain(false);
    let (mut state, _) = mixer.play(STEREO, vec![child], &vec![false]).ok().unwrap();
    assert!(state.deliver(0, samples(&[0.5, 0.25])));
    for _ in 0..3 {
        assert!(matches!(state.turn(true, None), MixTurn::Parked));
    }
    // Commands get through meanwhile.
    assert!(matches!(state.turn(true, Some(ControlCommand::Rewind)), MixTurn::Parked));
    assert_eq!(next_command(&mut child_rx), Some(ControlCommand::Rewind));
    assert_eq!(state.play_position(), 0);
    assert!(matches!(state.turn(false, Some(ControlCommand::Rewind)), MixTurn::Told));
    assert_eq!(next_command(&mut child_rx), Some(ControlCommand::Rewind));
    // It goes on where it was.
    match state.turn(false, None) {
        MixTurn::Mixed(step) => assert_eq!(values(step), vec![0.5, 0.25]),
        _ => panic!("a step was expected"),
    }
    assert!(matches!(state.turn(false, None), MixTurn::Mixed(MixStep::Idle)));
    assert!(matches!(state.turn(true, Some(ControlCommand::Stop)), MixTurn::Ended));
    assert_eq!(next_command(&mut child_rx), Some(ControlCommand::Stop));
    assert!(state.is_finished());
    assert!(matches!(state.turn(false, None), MixTurn::Mixed(MixStep::Stopped)));
}
