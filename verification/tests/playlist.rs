use audio_learn::sample::Sample;
use audio_learn::seconds::Seconds;
use audio_learn::streamer::control::next_command;
use audio_learn::streamer::playlist::{
    build_fades, requeue, seconds_to_samples, CrossFadeType, ListAction, NextTrack, PlayListStreamer,
    PlayMode, SeekWalk, TrackDuration, WalkStep,
};
use audio_learn::streamer::{
    ControlCommand, ControlHandle, DeviceOutputInfo, GainFunction, StreamErr,
};

const STEREO: DeviceOutputInfo = DeviceOutputInfo { channels: 2, sample_rate: 44_100 };

fn secs(value: f64) -> Seconds {
    Seconds { bits: value.to_bits() }
}

fn linear(seconds: f32) -> CrossFadeType {
    CrossFadeType::Linear(seconds.to_bits())
}

fn list(fade: CrossFadeType) -> PlayListStreamer<&'static str> {
    PlayListStreamer::new(vec!["a", "b", "c"], fade)
}

/// Plays the next streamer, leaves a copy of it, and says which it was.
fn play_next(list: &mut PlayListStreamer<&'static str>, handle: ControlHandle) -> &'static str {
    match list.next_track() {
        NextTrack::Play(track) => {
            list.track_started(handle, Ok(track));
            track
        }
        _ => panic!("a track was expected"),
    }
}

#[test]
fn empty_list_has_nothing_to_play() {
    let mut list: PlayListStreamer<u8> = PlayListStreamer::new(Vec::new(), linear(20.0));
    assert_eq!(list.play(STEREO, None), (PlayMode::Empty, None));
    assert!(matches!(list.next_track(), NextTrack::Exhausted));
}

#[test]
fn list_without_a_fade_plays_in_sequence() {
    for fade in [CrossFadeType::NoFade, linear(0.0), linear(-3.0)] {
        let mut list = list(fade);
        assert_eq!(list.play(STEREO, Some(secs(60.0))), (PlayMode::Sequential, None));
        assert_eq!(list.queue(), &vec!["a", "b", "c"]);
    }
    // Without a duration there is no time for a fade either.
    assert_eq!(list(linear(20.0)).play(STEREO, None), (PlayMode::Sequential, None));
}

#[test]
fn crossfade_starts_before_the_end() {
    let mut list = list(linear(20.0));
    let (mode, first) = list.play(STEREO, Some(secs(300.0)));
    assert_eq!(mode, PlayMode::CrossFade { fade_samples: 1_764_000, cutoff: secs(280.0) });
    assert_eq!(first, Some("a"));
    assert_eq!(list.queue(), &vec!["b", "c"]);
}

#[test]
fn fade_longer_than_the_track_starts_at_once() {
    let mut list = list(CrossFadeType::Logarithmic(20f32.to_bits()));
    let (mode, _) = list.play(STEREO, Some(secs(5.0)));
    assert_eq!(mode, PlayMode::CrossFade { fade_samples: 1_764_000, cutoff: secs(0.0) });
}

#[test]
fn tracks_play_one_after_the_other() {
    let mut list = list(CrossFadeType::NoFade);
    for expected in ["a", "b", "c"] {
        assert_eq!(play_next(&mut list, ControlHandle::new().0), expected);
        assert!(list.track_finished(Ok(()), Some(secs(10.0))));
    }
    assert!(matches!(list.next_track(), NextTrack::Exhausted));
}

#[test]
fn stop_ends_the_list() {
    let mut list = list(CrossFadeType::NoFade);
    // Nothing plays yet, so there is nothing to stop.
    assert_eq!(list.command(ControlCommand::Stop), Ok(ListAction::Handled));
    let (handle, mut commands) = ControlHandle::new();
    assert_eq!(play_next(&mut list, handle), "a");
    assert_eq!(list.command(ControlCommand::Stop), Ok(ListAction::Handled));
    assert_eq!(next_command(&mut commands), Some(ControlCommand::Stop));
    assert!(matches!(list.next_track(), NextTrack::Stopped));
}

#[test]
fn gain_goes_to_what_plays() {
    let mut list = list(CrossFadeType::NoFade);
    let (handle, mut commands) = ControlHandle::new();
    assert_eq!(play_next(&mut list, handle), "a");
    let gain = ControlCommand::AddGainFunction(GainFunction::Custom(3));
    assert_eq!(list.command(gain), Ok(ListAction::Handled));
    assert_eq!(list.command(ControlCommand::RemoveGainFunction), Ok(ListAction::Handled));
    assert_eq!(next_command(&mut commands), Some(gain));
    assert_eq!(next_command(&mut commands), Some(ControlCommand::RemoveGainFunction));
    assert_eq!(next_command(&mut commands), None);
}

#[test]
fn command_to_a_track_that_is_gone_is_an_error() {
    let mut list = list(CrossFadeType::NoFade);
    let (handle, commands) = ControlHandle::new();
    assert_eq!(play_next(&mut list, handle), "a");
    drop(commands);
    assert_eq!(list.command(ControlCommand::Stop), Err(StreamErr::SendError));
    // The stop did not get through, so the list goes on.
    assert_eq!(play_next(&mut list, ControlHandle::new().0), "b");
}

#[test]
fn seek_walks_over_durations() {
    let mut list = list(CrossFadeType::NoFade);
    let (handle, mut commands) = ControlHandle::new();
    assert_eq!(play_next(&mut list, ControlHandle::new().0), "a");
    assert!(list.track_finished(Ok(()), Some(secs(10.0))));
    assert_eq!(play_next(&mut list, handle), "b");
    let mut walk = match list.command(ControlCommand::Seek(35)) {
        Ok(ListAction::Walk(walk)) => walk,
        _ => panic!("a walk was expected"),
    };
    assert_eq!(walk, SeekWalk { time: secs(25.0), prev_time: secs(25.0), sought: 0 });
    assert_eq!(walk.next(), WalkStep::Ask);
    assert_eq!(walk.advance(TrackDuration::Known(secs(20.0))), Ok(WalkStep::Ask));
    assert_eq!(walk.time, secs(5.0));
    assert_eq!(walk.advance(TrackDuration::Known(secs(20.0))), Ok(WalkStep::Done));
    assert_eq!(walk.prev_time, secs(5.0));
    assert_eq!(list.seek_found(walk), Ok(()));
    assert_eq!(next_command(&mut commands), Some(ControlCommand::Stop));
    assert_eq!(list.queue(), &vec!["a", "b", "c"]);
    // What played ends; then the list goes on.
    assert!(matches!(list.next_track(), NextTrack::Stopped));
    assert!(list.restart());
    assert!(!list.restart());
    assert!(matches!(list.next_track(), NextTrack::Play("a")));
}

#[test]
fn rewind_brings_the_list_back() {
    let mut list = list(CrossFadeType::NoFade);
    // Nothing plays yet.
    assert_eq!(list.command(ControlCommand::Rewind), Ok(ListAction::Handled));
    assert_eq!(play_next(&mut list, ControlHandle::new().0), "a");
    assert!(list.track_finished(Ok(()), Some(secs(10.0))));
    let (handle, mut commands) = ControlHandle::new();
    assert_eq!(play_next(&mut list, handle), "b");
    let walk = match list.command(ControlCommand::Rewind) {
        Ok(ListAction::Walk(walk)) => walk,
        _ => panic!("a walk was expected"),
    };
    assert_eq!(walk.next(), WalkStep::Done);
    assert_eq!(list.seek_found(walk), Ok(()));
    assert_eq!(next_command(&mut commands), Some(ControlCommand::Stop));
    assert!(matches!(list.next_track(), NextTrack::Stopped));
    assert!(list.restart());
    assert_eq!(list.queue(), &vec!["a", "b", "c"]);
    assert_eq!(play_next(&mut list, ControlHandle::new().0), "a");
    // Nothing counts as played any more, so a seek starts from zero.
    match list.command(ControlCommand::Seek(3)) {
        Ok(ListAction::Walk(walk)) => assert_eq!(walk.time, secs(3.0)),
        _ => panic!("a walk was expected"),
    }
}

#[test]
fn stop_after_a_seek_ends_the_list() {
    let mut list = list(CrossFadeType::NoFade);
    let (handle, _commands) = ControlHandle::new();
    assert_eq!(play_next(&mut list, handle), "a");
    match list.command(ControlCommand::Rewind) {
        Ok(ListAction::Walk(walk)) => assert_eq!(list.seek_found(walk), Ok(())),
        _ => panic!("a walk was expected"),
    }
    assert_eq!(list.command(ControlCommand::Stop), Ok(ListAction::Handled));
    assert!(!list.restart());
    assert!(matches!(list.next_track(), NextTrack::Stopped));
}

#[test]
fn rewind_in_a_crossfade_does_nothing() {
    let mut list = list(linear(20.0));
    let (_, first) = list.play(STEREO, Some(secs(300.0)));
    list.mix_started(ControlHandle::new().0, Ok(first.unwrap()));
    assert_eq!(list.command(ControlCommand::Rewind), Ok(ListAction::Handled));
    assert!(matches!(list.next_track(), NextTrack::Play("b")));
}

#[test]
fn failed_track_ends_the_list() {
    let mut list = list(CrossFadeType::NoFade);
    assert_eq!(play_next(&mut list, ControlHandle::new().0), "a");
    assert!(!list.track_finished(Err(StreamErr::UnknownError), Some(secs(10.0))));
    // It does not count as played.
    match list.command(ControlCommand::Seek(3)) {
        Ok(ListAction::Walk(walk)) => assert_eq!(walk.time, secs(3.0)),
        _ => panic!("a walk was expected"),
    }
}

#[test]
fn crossfades_follow_each_other() {
    let mut list = list(linear(20.0));
    assert_eq!(list.next_crossfade(), None);
    let _ = list.play(STEREO, Some(secs(300.0)));
    assert_eq!(list.next_crossfade(), Some(secs(280.0)));
    // The second streamer is shorter than a fade.
    for (streamer, duration, due) in [("b", 15.0, 280.0), ("c", 100.0, 360.0)] {
        let cutoff = list.next_crossfade().unwrap();
        assert_eq!(list.crossfade_due(), Some(streamer));
        let mut going = ControlHandle::new().0;
        let mut coming = ControlHandle::new().0;
        let next = list.crossfade(
            Ok(streamer),
            Some(secs(duration)),
            &mut going,
            &mut coming,
            1_764_000,
            cutoff,
        );
        assert_eq!(next, Some(secs(due)));
        assert_eq!(list.next_crossfade(), next);
    }
    assert_eq!(list.crossfade_due(), None);
    assert_eq!(list.next_crossfade(), Some(secs(360.0)));
}

#[test]
fn seek_without_a_duration_is_not_supported() {
    let mut walk = SeekWalk { time: secs(1.0), prev_time: secs(1.0), sought: 0 };
    assert_eq!(walk.advance(TrackDuration::Unknown), Err(StreamErr::SeekNotSupported));
    assert_eq!(walk.advance(TrackDuration::NoTrack), Ok(WalkStep::Done));
    assert_eq!(walk.sought, 1);
    let done = SeekWalk { time: secs(0.0), prev_time: secs(0.0), sought: 0 };
    assert_eq!(done.next(), WalkStep::Done);
}

#[test]
fn seek_back_or_without_a_track_does_nothing() {
    let mut list = list(CrossFadeType::NoFade);
    assert_eq!(list.command(ControlCommand::Seek(5)), Ok(ListAction::Handled));
    assert_eq!(play_next(&mut list, ControlHandle::new().0), "a");
    assert!(list.track_finished(Ok(()), Some(secs(10.0))));
    assert_eq!(list.command(ControlCommand::Seek(5)), Ok(ListAction::Handled));
    assert!(matches!(list.next_track(), NextTrack::Stopped));
}

#[test]
fn seek_in_a_crossfade_does_nothing() {
    let mut list = list(linear(20.0));
    let (_, first) = list.play(STEREO, Some(secs(300.0)));
    list.mix_started(ControlHandle::new().0, Ok(first.unwrap()));
    assert_eq!(list.command(ControlCommand::Seek(50)), Ok(ListAction::Handled));
    assert!(matches!(list.next_track(), NextTrack::Play("b")));
}

#[test]
fn copies_go_back_in_their_order() {
    let mut copies = vec!["a", "b", "c"];
    let mut queue = vec!["d", "e"];
    requeue(&mut copies, &mut queue, 0);
    assert_eq!(queue, vec!["a", "b", "c", "d", "e"]);
    assert!(copies.is_empty());
    let mut copies = vec!["a", "b", "c"];
    let mut queue = vec!["d"];
    requeue(&mut copies, &mut queue, 3);
    assert_eq!((copies, queue), (vec!["a", "b"], vec!["c", "d"]));
    let mut copies = vec!["a"];
    let mut queue = vec!["b"];
    requeue(&mut copies, &mut queue, 2);
    assert_eq!((copies, queue), (vec!["a"], vec!["b"]));
}

#[test]
fn crossfade_hands_out_both_gains() {
    let mut list = list(linear(20.0));
    let _ = list.play(STEREO, Some(secs(300.0)));
    assert_eq!(list.crossfade_due(), Some("b"));
    let (mut going, mut going_rx) = ControlHandle::new();
    let (mut coming, mut coming_rx) = ControlHandle::new();
    let next = list.crossfade(
        Ok("b"),
        Some(secs(100.0)),
        &mut going,
        &mut coming,
        1_764_000,
        secs(280.0),
    );
    assert_eq!(next, Some(secs(360.0)));
    assert_eq!(
        next_command(&mut going_rx),
        Some(ControlCommand::AddGainFunction(GainFunction::FadeOutLinear(1_764_000)))
    );
    assert_eq!(
        next_command(&mut coming_rx),
        Some(ControlCommand::AddGainFunction(GainFunction::FadeInLinear(1_764_000)))
    );
    assert_eq!(list.crossfade_due(), Some("c"));
    drop(going_rx);
    let next = list.crossfade(
        Err(StreamErr::UnknownError),
        None,
        &mut going,
        &mut coming,
        5,
        secs(360.0),
    );
    assert_eq!(next, None);
    assert_eq!(list.crossfade_due(), None);
}

#[test]
fn fades_follow_the_type() {
    assert_eq!(
        build_fades(CrossFadeType::Logarithmic(0), 7),
        (GainFunction::FadeInLog(7), GainFunction::FadeOutLog(7))
    );
    assert_eq!(
        build_fades(linear(1.0), 7),
        (GainFunction::FadeInLinear(7), GainFunction::FadeOutLinear(7))
    );
    assert_eq!(
        build_fades(CrossFadeType::NoFade, 7),
        (GainFunction::FadeInLinear(7), GainFunction::FadeOutLinear(7))
    );
}

#[test]
fn seconds_become_samples() {
    assert_eq!(seconds_to_samples(secs(1.5), STEREO), 132_300);
    assert_eq!(seconds_to_samples(secs(-1.0), STEREO), 0);
    assert_eq!(seconds_to_samples(secs(f64::NAN), STEREO), 0);
    assert_eq!(seconds_to_samples(secs(f64::INFINITY), STEREO), u64::MAX);
    assert_eq!(seconds_to_samples(secs(0.1), STEREO), (88_200f64 * 0.1) as u64);
    // Whole seconds are exact.
    for count in [0u64, 1, 59, 3_600, 100_000_000_000] {
        assert_eq!(seconds_to_samples(Seconds::from_count(count), STEREO), count * 88_200);
    }
}

#[test]
fn list_is_respawned_from_copies() {
    let list = list(linear(2.0));
    match list.respawn(vec![Ok("a"), Ok("b"), Ok("c")]) {
        Ok(copy) => {
            assert_eq!(copy.queue(), &vec!["a", "b", "c"]);
            let mut handle = copy.control_handle();
            assert!(!handle.is_paused());
            assert_eq!(handle.rewind(), Ok(()));
            let mut receiver = copy.command_receiver().clone();
            assert_eq!(next_command(&mut receiver), Some(ControlCommand::Rewind));
            assert_eq!(next_command(&mut receiver), None);
            assert_eq!(copy.last_seek_position(), u64::MAX);
        }
        Err(_) => panic!("all were copied"),
    }
    let copies = vec![Ok("a"), Err(StreamErr::ProbeError), Err(StreamErr::SeekError)];
    match list.respawn(copies) {
        Ok(_) => panic!("not all were copied"),
        Err(e) => assert_eq!(e, StreamErr::ProbeError),
    }
}

#[test]
fn control_handle_reaches_the_list() {
    let list = list(CrossFadeType::NoFade);
    let mut handle = list.control_handle();
    assert_eq!(handle.seek(9), Ok(()));
    let mut receiver = list.command_receiver().clone();
    assert_eq!(next_command(&mut receiver), Some(ControlCommand::Seek(9)));
    assert_eq!(list.last_seek_position(), u64::MAX);
}

#[test]
fn fade_gains_are_single_precision_patterns() {
    assert_eq!(linear(20.0), CrossFadeType::Linear(0x41A0_0000));
    assert_eq!(Sample { bits: 0x41A0_0000 }, Sample::from_count(20));
}

#[test]
fn paused_list_takes_no_command() {
    let mut list = list(CrossFadeType::NoFade);
    let mut control = list.control_handle();
    let mut paused = control.paused_flag();
    assert!(list.turn(&mut paused).is_none());
    let (handle, mut commands) = ControlHandle::new();
    assert_eq!(play_next(&mut list, handle), "a");
    control.pause();
    assert_eq!(control.stop(), Ok(()));
    assert!(list.turn(&mut paused).is_none());
    assert_eq!(next_command(&mut commands), None);
    control.resume();
    assert_eq!(list.turn(&mut paused), Some(Ok(ListAction::Handled)));
    assert_eq!(next_command(&mut commands), Some(ControlCommand::Stop));
    assert!(matches!(list.next_track(), NextTrack::Stopped));
}

#[test]
fn walk_takes_the_duration_off_as_often_as_it_fits() {
    let walk = |secs: u64, durations: &Vec<TrackDuration>, limit| {
        let time = Seconds::from_count(secs);
        let mut walk = SeekWalk { time, prev_time: time, sought: 0 };
        (walk.walk(durations, limit), walk)
    };
    let lasts = vec![TrackDuration::Known(secs(20.0)), TrackDuration::Known(secs(7.0))];
    for (time, left) in [(1, 1.0), (20, 20.0), (21, 1.0), (65, 5.0), (100, 20.0)] {
        let (result, after) = walk(time, &lasts, time as usize);
        assert_eq!(result, Ok(WalkStep::Done));
        assert_eq!((after.prev_time, after.sought), (secs(left), 0));
    }
    // A walk that is cut short can go on.
    let (result, mut after) = walk(65, &lasts, 2);
    assert_eq!((result, after.time), (Ok(WalkStep::Ask), secs(25.0)));
    assert_eq!(after.walk(&lasts, 5), Ok(WalkStep::Done));
    assert_eq!(after.prev_time, secs(5.0));
    // A streamer of no length takes nothing off.
    let none = vec![TrackDuration::Known(secs(0.0))];
    let (result, after) = walk(3, &none, 1_000);
    assert_eq!((result, after.time), (Ok(WalkStep::Ask), secs(3.0)));
    assert_eq!(walk(0, &none, 0).0, Ok(WalkStep::Done));
    let unknown = vec![TrackDuration::Unknown];
    assert_eq!(walk(3, &unknown, 9).0, Err(StreamErr::SeekNotSupported));
    let (result, after) = walk(3, &Vec::new(), 9);
    assert_eq!((result, after.sought), (Ok(WalkStep::Done), 1));
}
