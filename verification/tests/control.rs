use audio_learn::streamer::control::{next_command, COMMAND_CAPACITY};
use audio_learn::streamer::{ControlCommand, ControlHandle, GainFunction, StreamErr};
use audio_learn::shared::{SharedCounter, SharedFlag};

#[test]
fn commands_arrive_in_their_order() {
    let (mut handle, mut receiver) = ControlHandle::new();
    assert_eq!(next_command(&mut receiver), None);
    assert_eq!(handle.seek(12), Ok(()));
    assert_eq!(handle.rewind(), Ok(()));
    assert_eq!(handle.add_gain_function(GainFunction::FadeOutLinear(5)), Ok(()));
    assert_eq!(handle.stop(), Ok(()));
    assert_eq!(next_command(&mut receiver), Some(ControlCommand::Seek(12)));
    assert_eq!(next_command(&mut receiver), Some(ControlCommand::Rewind));
    assert_eq!(
        next_command(&mut receiver),
        Some(ControlCommand::AddGainFunction(GainFunction::FadeOutLinear(5)))
    );
    assert_eq!(next_command(&mut receiver), Some(ControlCommand::Stop));
    assert_eq!(next_command(&mut receiver), None);
}

#[test]
fn clone_controls_the_same_streamer() {
    let (mut handle, mut receiver) = ControlHandle::new();
    let mut other = handle.clone();
    assert_eq!(other.remove_gain_function(), Ok(()));
    assert_eq!(next_command(&mut receiver), Some(ControlCommand::RemoveGainFunction));
    let mut flag = handle.paused_flag();
    other.pause();
    assert!(handle.is_paused());
    assert!(flag.load());
    assert!(other.is_paused());
    // Commands leave the flag as it is.
    assert_eq!(handle.rewind(), Ok(()));
    assert_eq!(handle.seek(4), Ok(()));
    assert!(flag.load());
    other.resume();
    assert!(!handle.is_paused());
    assert!(!flag.load());
    flag.store(true);
    assert!(other.is_paused());
}

#[test]
fn new_handle_is_not_paused() {
    let (mut handle, mut receiver) = ControlHandle::new();
    assert!(!handle.is_paused());
    assert_eq!(handle.rewind(), Ok(()));
    assert_eq!(handle.seek(42), Ok(()));
    assert_eq!(next_command(&mut receiver), Some(ControlCommand::Rewind));
    assert_eq!(next_command(&mut receiver), Some(ControlCommand::Seek(42)));
    assert_eq!(next_command(&mut receiver), None);
}

#[test]
fn handles_of_two_streamers_are_apart() {
    let (mut one, mut one_rx) = ControlHandle::new();
    let (mut two, mut two_rx) = ControlHandle::new();
    one.pause();
    assert!(!two.is_paused());
    assert_eq!(two.stop(), Ok(()));
    assert_eq!(next_command(&mut one_rx), None);
    assert_eq!(next_command(&mut two_rx), Some(ControlCommand::Stop));
}

#[test]
fn cells_are_shared_by_clones() {
    let mut flag = SharedFlag::new(true);
    assert!(flag.load());
    let mut other = flag.clone();
    assert!(other.load());
    other.store(false);
    assert!(!flag.load());
    let mut counter = SharedCounter::new(5);
    let mut other = counter.clone();
    assert_eq!(other.load(), 5);
    other.store(77);
    assert_eq!(counter.load(), 77);
    assert_eq!(SharedCounter::new(3).load(), 3);
}

#[test]
fn command_to_nobody_is_an_error() {
    let (mut handle, receiver) = ControlHandle::new();
    drop(receiver);
    assert_eq!(handle.stop(), Err(StreamErr::SendError));
    assert_eq!(handle.send(ControlCommand::Rewind), Err(StreamErr::SendError));
}

#[test]
fn channel_holds_a_few_commands() {
    let (mut handle, receiver) = ControlHandle::new();
    for _ in 0..COMMAND_CAPACITY {
        assert_eq!(handle.rewind(), Ok(()));
    }
    assert_eq!(receiver.len(), 4);
    assert!(receiver.is_full());
}
