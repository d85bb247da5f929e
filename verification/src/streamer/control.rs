//! Transport control: the commands that a streamer takes while it plays, and the
//! handle through which they are sent.

use crossbeam_channel::{Receiver, SendError, Sender, TryRecvError};
use vstd::prelude::*;
use crate::shared::{flag_loads, flag_stores, on_one_flag, SharedFlag};
use super::StreamErr;

verus! {

/// A gain that depends on how many samples have passed since it was set.
#[derive(Debug, Clone, Copy, PartialEq, Eq, Structural)]
pub enum GainFunction {
    /// From silence to unity over a count of samples, in equal steps.
    FadeInLinear(usize),
    /// From unity to silence over a count of samples, in equal steps.
    FadeOutLinear(usize),
    /// From -60 dB to unity over a count of samples, in equal steps of loudness.
    FadeInLog(usize),
    /// From unity to -60 dB over a count of samples, in equal steps of loudness.
    FadeOutLog(usize),
    /// A function that the application keeps under a number of its own.
    Custom(u64),
}

/// What a streamer can be told while it plays.
#[derive(Debug, Clone, Copy, PartialEq, Eq, Structural)]
pub enum ControlCommand {
    Stop,
    /// To a time in seconds.
    Seek(u64),
    Rewind,
    AddGainFunction(GainFunction),
    RemoveGainFunction,
}

/// How many commands wait for a streamer before senders block.
pub const COMMAND_CAPACITY: usize = 4;

/// `crossbeam_channel::Sender`.
#[verifier::external_type_specification]
#[verifier::external_body]
#[verifier::reject_recursive_types(T)]
pub struct ExSender<T>(Sender<T>);

/// `crossbeam_channel::Receiver`.
#[verifier::external_type_specification]
#[verifier::external_body]
#[verifier::reject_recursive_types(T)]
pub struct ExReceiver<T>(Receiver<T>);

/// `crossbeam_channel::SendError`.
#[verifier::external_type_specification]
#[verifier::external_body]
#[verifier::reject_recursive_types(T)]
pub struct ExSendError<T>(SendError<T>);

/// `crossbeam_channel::TryRecvError`.
#[verifier::external_type_specification]
#[verifier::external_body]
pub struct ExTryRecvError(TryRecvError);

/// The commands that were handed to the channel through this sender, in their order,
/// each with whether the channel took it.
pub uninterp spec fn commands_sent(sender: Sender<ControlCommand>) -> Seq<(ControlCommand, bool)>;

/// What the attempts to take a command out of the channel through this receiver came to,
/// in their order: a command, or nothing.
pub uninterp spec fn commands_received(receiver: Receiver<ControlCommand>) -> Seq<
    Option<ControlCommand>,
>;

/// The number of commands that the channel of this sender holds at most.
pub uninterp spec fn command_limit(sender: Sender<ControlCommand>) -> nat;

/// What goes into the sender comes out of the receiver: they are ends of one channel.
pub uninterp spec fn one_channel(
    sender: Sender<ControlCommand>,
    receiver: Receiver<ControlCommand>,
) -> bool;

/// Calls `crossbeam_channel::bounded`: the two ends of one channel that holds `limit`
/// commands, with nothing sent and no attempt to receive.
#[verifier::external_body]
fn command_channel(limit: usize) -> (ends: (Sender<ControlCommand>, Receiver<ControlCommand>))
    requires
        0 < limit <= 1024,
    ensures
        commands_sent(ends.0) == Seq::<(ControlCommand, bool)>::empty(),
        command_limit(ends.0) == limit,
        one_channel(ends.0, ends.1),
        commands_received(ends.1) == Seq::<Option<ControlCommand>>::empty(),
{
    crossbeam_channel::bounded(limit)
}

/// Calls `crossbeam_channel::Sender::send`: the command goes into the channel, or
/// comes back in the error where no receiver is left. The call waits while the
/// channel is full. The sender stays one into the same channel. Whether a receiver is
/// left is not stated: other threads hold the receivers.
#[verifier::external_body]
fn send_command(sender: &mut Sender<ControlCommand>, command: ControlCommand) -> (result: Result<
    (),
    SendError<ControlCommand>,
>)
    ensures
        commands_sent(*final(sender)) == commands_sent(*old(sender)).push((command, result is Ok)),
        command_limit(*final(sender)) == command_limit(*old(sender)),
        forall|r: Receiver<ControlCommand>|
            #[trigger] one_channel(*final(sender), r) == one_channel(*old(sender), r),
{
    sender.send(command)
}

/// Calls `Clone::clone` of `crossbeam_channel::Sender`: another sender into the same
/// channel, so with the same limit and the same receivers, through which nothing went yet.
#[verifier::external_body]
fn clone_sender(sender: &Sender<ControlCommand>) -> (result: Sender<ControlCommand>)
    ensures
        commands_sent(result) == Seq::<(ControlCommand, bool)>::empty(),
        command_limit(result) == command_limit(*sender),
        forall|r: Receiver<ControlCommand>|
            #[trigger] one_channel(result, r) == one_channel(*sender, r),
{
    sender.clone()
}

/// Calls `crossbeam_channel::Receiver::try_recv`: takes the next command out of the
/// channel if there is one, without waiting. The receiver stays one out of the same
/// channel. What comes out is not tied to what went in: other threads hold the senders.
#[verifier::external_body]
fn receive_command(receiver: &mut Receiver<ControlCommand>) -> (result: Result<
    ControlCommand,
    TryRecvError,
>)
    ensures
        commands_received(*final(receiver)) == commands_received(*old(receiver)).push(
            match result {
                Ok(command) => Some(command),
                Err(_) => None,
            },
        ),
        forall|s: Sender<ControlCommand>|
            #[trigger] one_channel(s, *final(receiver)) == one_channel(s, *old(receiver)),
{
    receiver.try_recv()
}

/// Controls a streamer: stop, pause, resume, seek, rewind and gain. A clone of the
/// handle controls the same streamer.
pub struct ControlHandle {
    paused: SharedFlag,
    command_tx: Sender<ControlCommand>,
}

impl ControlHandle {
    /// The commands that were sent through this handle, in their order, each with
    /// whether there was still somebody to take it.
    pub closed spec fn sent(self) -> Seq<(ControlCommand, bool)> {
        commands_sent(self.command_tx)
    }

    /// The number of commands that wait for the streamer at most.
    pub closed spec fn limit(self) -> nat {
        command_limit(self.command_tx)
    }

    /// This handle's access to the pause flag.
    pub closed spec fn flag(self) -> SharedFlag {
        self.paused
    }

    /// Commands through this handle reach the streamer that drains the receiver.
    pub closed spec fn feeds(self, receiver: Receiver<ControlCommand>) -> bool {
        one_channel(self.command_tx, receiver)
    }

    /// Both handles pause and resume one streamer.
    pub open spec fn shares_flag(self, other: ControlHandle) -> bool {
        on_one_flag(self.flag(), other.flag())
    }

    /// Both handles control the same streamer: they reach the same receivers, as far as
    /// commands go, and the same flag.
    pub open spec fn controls_like(self, other: ControlHandle) -> bool {
        &&& self.limit() == other.limit()
        &&& self.flag().is_handle_like(other.flag())
        &&& forall|r: Receiver<ControlCommand>| #[trigger] self.feeds(r) == other.feeds(r)
    }

    /// The last of `pause` and `resume` through this handle was `pause`.
    pub open spec fn pause_requested(self) -> bool {
        flag_stores(self.flag()).len() > 0 && flag_stores(self.flag()).last()
    }

    /// `self` is `before` after `command` was handed to the channel. The result says
    /// whether it went in or nobody is left to take it.
    pub open spec fn has_sent(
        self,
        before: ControlHandle,
        command: ControlCommand,
        result: Result<(), StreamErr>,
    ) -> bool {
        &&& self.flag() == before.flag()
        &&& self.controls_like(before)
        &&& self.sent() == before.sent().push((command, result is Ok))
        &&& result is Err ==> result == Err::<(), StreamErr>(StreamErr::SendError)
    }

    /// Nothing went through this handle, and nobody has paused the streamer.
    pub open spec fn is_fresh(self) -> bool {
        &&& self.sent() == Seq::<(ControlCommand, bool)>::empty()
        &&& self.limit() == COMMAND_CAPACITY
        &&& flag_stores(self.flag()) == seq![false]
        &&& flag_loads(self.flag()) == Seq::<bool>::empty()
        &&& self.shares_flag(self)
    }

    /// A handle together with the receiver that the play loop of the streamer has
    /// to drain.
    pub fn new() -> (ends: (ControlHandle, Receiver<ControlCommand>))
        ensures
            ends.0.is_fresh(),
            ends.0.sent().len() == 0,
            ends.0.limit() == 4,
            flag_stores(ends.0.flag()) == seq![false],
            flag_loads(ends.0.flag()).len() == 0,
            on_one_flag(ends.0.flag(), ends.0.flag()),
            !ends.0.pause_requested(),
            ends.0.feeds(ends.1),
            commands_received(ends.1) == Seq::<Option<ControlCommand>>::empty(),
    {
        let (command_tx, command_rx): (Sender<ControlCommand>, Receiver<ControlCommand>) =
            command_channel(COMMAND_CAPACITY);
        (ControlHandle { paused: SharedFlag::new(false), command_tx }, command_rx)
    }

    /// The shared pause flag, which the play loop of the streamer honours.
    pub fn paused_flag(&self) -> (flag: SharedFlag)
        ensures
            flag.is_handle_like(self.flag()),
            forall|o: SharedFlag| #[trigger] on_one_flag(flag, o) == on_one_flag(self.flag(), o),
            forall|o: SharedFlag| #[trigger] on_one_flag(o, flag) == on_one_flag(o, self.flag()),
            flag_stores(flag) == Seq::<bool>::empty(),
            flag_loads(flag) == Seq::<bool>::empty(),
    {
        self.paused.clone()
    }

    /// Asks the streamer to pause.
    pub fn pause(&mut self)
        ensures
            final(self).pause_requested(),
            flag_stores(final(self).flag()) == flag_stores(old(self).flag()).push(true),
            flag_loads(final(self).flag()) == flag_loads(old(self).flag()),
            final(self).sent() == old(self).sent(),
            final(self).controls_like(*old(self)),
            final(self).limit() == old(self).limit(),
            forall|r: Receiver<ControlCommand>|
                #[trigger] final(self).feeds(r) == old(self).feeds(r),
            forall|o: SharedFlag|
                #[trigger] on_one_flag(final(self).flag(), o) == on_one_flag(old(self).flag(), o),
            forall|o: SharedFlag|
                #[trigger] on_one_flag(o, final(self).flag()) == on_one_flag(o, old(self).flag()),
    {
        self.paused.store(true)
    }

    /// Asks the streamer to go on.
    pub fn resume(&mut self)
        ensures
            !final(self).pause_requested(),
            flag_stores(final(self).flag()) == flag_stores(old(self).flag()).push(false),
            flag_loads(final(self).flag()) == flag_loads(old(self).flag()),
            final(self).sent() == old(self).sent(),
            final(self).controls_like(*old(self)),
            final(self).limit() == old(self).limit(),
            forall|r: Receiver<ControlCommand>|
                #[trigger] final(self).feeds(r) == old(self).feeds(r),
            forall|o: SharedFlag|
                #[trigger] on_one_flag(final(self).flag(), o) == on_one_flag(old(self).flag(), o),
            forall|o: SharedFlag|
                #[trigger] on_one_flag(o, final(self).flag()) == on_one_flag(o, old(self).flag()),
    {
        self.paused.store(false)
    }

    /// Whether the streamer is asked to pause, by this handle or any other: what the
    /// shared flag is read to be. Which it is is not stated: other threads store to the
    /// flag at any time.
    pub fn is_paused(&mut self) -> (paused: bool)
        ensures
            flag_loads(final(self).flag()) == flag_loads(old(self).flag()).push(paused),
            flag_stores(final(self).flag()) == flag_stores(old(self).flag()),
            final(self).sent() == old(self).sent(),
            final(self).controls_like(*old(self)),
            final(self).limit() == old(self).limit(),
            forall|r: Receiver<ControlCommand>|
                #[trigger] final(self).feeds(r) == old(self).feeds(r),
            forall|o: SharedFlag|
                #[trigger] on_one_flag(final(self).flag(), o) == on_one_flag(old(self).flag(), o),
            forall|o: SharedFlag|
                #[trigger] on_one_flag(o, final(self).flag()) == on_one_flag(o, old(self).flag()),
    {
        self.paused.load()
    }

    /// Stops the streamer.
    pub fn stop(&mut self) -> (result: Result<(), StreamErr>)
        ensures
            final(self).has_sent(*old(self), ControlCommand::Stop, result),
            final(self).sent() == old(self).sent().push((ControlCommand::Stop, result is Ok)),
            result is Err ==> result->Err_0 == StreamErr::SendError,
            final(self).flag() == old(self).flag(),
            final(self).limit() == old(self).limit(),
            forall|r: Receiver<ControlCommand>|
                #[trigger] final(self).feeds(r) == old(self).feeds(r),
    {
        self.send(ControlCommand::Stop)
    }

    /// Moves the streamer to a time in seconds.
    pub fn seek(&mut self, time: u64) -> (result: Result<(), StreamErr>)
        ensures
            final(self).has_sent(*old(self), ControlCommand::Seek(time), result),
            final(self).sent() == old(self).sent().push((ControlCommand::Seek(time), result is Ok)),
            result is Err ==> result->Err_0 == StreamErr::SendError,
            final(self).flag() == old(self).flag(),
            final(self).limit() == old(self).limit(),
            forall|r: Receiver<ControlCommand>|
                #[trigger] final(self).feeds(r) == old(self).feeds(r),
    {
        self.send(ControlCommand::Seek(time))
    }

    /// Moves the streamer to its beginning.
    pub fn rewind(&mut self) -> (result: Result<(), StreamErr>)
        ensures
            final(self).has_sent(*old(self), ControlCommand::Rewind, result),
            final(self).sent() == old(self).sent().push((ControlCommand::Rewind, result is Ok)),
            result is Err ==> result->Err_0 == StreamErr::SendError,
            final(self).flag() == old(self).flag(),
            final(self).limit() == old(self).limit(),
            forall|r: Receiver<ControlCommand>|
                #[trigger] final(self).feeds(r) == old(self).feeds(r),
    {
        self.send(ControlCommand::Rewind)
    }

    /// Hands a command to the streamer. Waits while as many commands as the channel
    /// holds are still to be taken.
    pub fn send(&mut self, command: ControlCommand) -> (result: Result<(), StreamErr>)
        ensures
            final(self).has_sent(*old(self), command, result),
            final(self).sent() == old(self).sent().push((command, result is Ok)),
            result is Err ==> result->Err_0 == StreamErr::SendError,
            final(self).flag() == old(self).flag(),
            final(self).limit() == old(self).limit(),
            forall|r: Receiver<ControlCommand>|
                #[trigger] final(self).feeds(r) == old(self).feeds(r),
    {
        sent_outcome(send_command(&mut self.command_tx, command))
    }

    /// Makes the streamer apply a gain from its next sample on.
    pub fn add_gain_function(&mut self, function: GainFunction) -> (result: Result<(), StreamErr>)
        ensures
            final(self).has_sent(*old(self), ControlCommand::AddGainFunction(function), result),
            final(self).sent() == old(self).sent().push(
                (ControlCommand::AddGainFunction(function), result is Ok),
            ),
            result is Err ==> result->Err_0 == StreamErr::SendError,
            final(self).flag() == old(self).flag(),
            final(self).limit() == old(self).limit(),
            forall|r: Receiver<ControlCommand>|
                #[trigger] final(self).feeds(r) == old(self).feeds(r),
    {
        self.send(ControlCommand::AddGainFunction(function))
    }

    /// Makes the streamer play without a gain again.
    pub fn remove_gain_function(&mut self) -> (result: Result<(), StreamErr>)
        ensures
            final(self).has_sent(*old(self), ControlCommand::RemoveGainFunction, result),
            final(self).sent() == old(self).sent().push(
                (ControlCommand::RemoveGainFunction, result is Ok),
            ),
            result is Err ==> result->Err_0 == StreamErr::SendError,
            final(self).flag() == old(self).flag(),
            final(self).limit() == old(self).limit(),
            forall|r: Receiver<ControlCommand>|
                #[trigger] final(self).feeds(r) == old(self).feeds(r),
    {
        self.send(ControlCommand::RemoveGainFunction)
    }
}

impl Clone for ControlHandle {
    /// Another handle for the same streamer.
    fn clone(&self) -> (result: Self)
        ensures
            result.controls_like(*self),
            result.limit() == self.limit(),
            forall|r: Receiver<ControlCommand>| #[trigger] result.feeds(r) == self.feeds(r),
            forall|o: SharedFlag|
                #[trigger] on_one_flag(result.flag(), o) == on_one_flag(self.flag(), o),
            forall|o: SharedFlag|
                #[trigger] on_one_flag(o, result.flag()) == on_one_flag(o, self.flag()),
            result.sent() == Seq::<(ControlCommand, bool)>::empty(),
            flag_stores(result.flag()) == Seq::<bool>::empty(),
            flag_loads(result.flag()) == Seq::<bool>::empty(),
    {
        ControlHandle { paused: self.paused.clone(), command_tx: clone_sender(&self.command_tx) }
    }
}

/// What sending comes to: success, or that nobody is left to take the command.
pub fn sent_outcome(result: Result<(), SendError<ControlCommand>>) -> (outcome: Result<
    (),
    StreamErr,
>)
    ensures
        outcome == (match result {
            Ok(_) => Ok::<(), StreamErr>(()),
            Err(_) => Err::<(), StreamErr>(StreamErr::SendError),
        }),
{
    match result {
        Ok(_) => Ok(()),
        Err(_) => Err(StreamErr::SendError),
    }
}

/// The next command for a streamer, if one is waiting: makes one attempt to take it out of
/// the channel, and hands over what that came to.
pub fn next_command(receiver: &mut Receiver<ControlCommand>) -> (command: Option<ControlCommand>)
    ensures
        commands_received(*final(receiver)) == commands_received(*old(receiver)).push(command),
        forall|handle: ControlHandle|
            #[trigger] handle.feeds(*final(receiver)) == handle.feeds(*old(receiver)),
{
    match receive_command(receiver) {
        Ok(command) => Some(command),
        Err(_) => None,
    }
}

/// A clone of a handle controls the same streamer, whatever went through either since:
/// its commands come out of the same receiver, and it pauses by the same flag.
pub proof fn law_clone_controls_same_streamer(
    handle: ControlHandle,
    other: ControlHandle,
    receiver: Receiver<ControlCommand>,
)
    requires
        other.controls_like(handle),
        handle.feeds(receiver),
        handle.shares_flag(handle),
    ensures
        other.feeds(receiver),
        other.shares_flag(handle),
        handle.shares_flag(other),
        other.shares_flag(other),
        handle.controls_like(other),
        other.limit() == handle.limit(),
{
    assert(other.feeds(receiver) == handle.feeds(receiver));
    assert(other.shares_flag(handle) == on_one_flag(handle.flag(), handle.flag()));
    assert(on_one_flag(handle.flag(), other.flag()) == on_one_flag(handle.flag(), handle.flag()));
    assert(other.shares_flag(other) == on_one_flag(handle.flag(), other.flag()));
}

/// Handles that control the same streamer as a third control the same streamer.
pub proof fn law_handles_of_one_streamer(a: ControlHandle, b: ControlHandle, third: ControlHandle)
    requires
        a.controls_like(third),
        b.controls_like(third),
    ensures
        a.controls_like(b),
{
    assert forall|r: Receiver<ControlCommand>| #[trigger] a.feeds(r) == b.feeds(r) by {
        assert(b.feeds(r) == third.feeds(r));
    }
    assert forall|o: SharedFlag| #[trigger] on_one_flag(a.flag(), o) == on_one_flag(b.flag(), o) by {
        assert(on_one_flag(b.flag(), o) == on_one_flag(third.flag(), o));
    }
    assert forall|o: SharedFlag| #[trigger] on_one_flag(o, a.flag()) == on_one_flag(o, b.flag()) by {
        assert(on_one_flag(o, b.flag()) == on_one_flag(o, third.flag()));
    }
}

/// What goes out through a handle comes behind all that went out before, with whether it was
/// taken, and nothing else of the handle changes.
pub proof fn law_sent_in_order(
    after: ControlHandle,
    before: ControlHandle,
    command: ControlCommand,
    result: Result<(), StreamErr>,
)
    requires
        after.has_sent(before, command, result),
    ensures
        after.sent().len() == before.sent().len() + 1,
        after.sent().drop_last() == before.sent(),
        after.sent().last() == (command, result is Ok),
        after.flag() == before.flag(),
        after.limit() == before.limit(),
        result is Err ==> result->Err_0 == StreamErr::SendError,
        forall|r: Receiver<ControlCommand>| #[trigger] after.feeds(r) == before.feeds(r),
{
    assert(after.sent().drop_last() =~= before.sent());
}

/// A new handle has sent nothing, and its streamer is not paused.
pub proof fn law_fresh_handle(handle: ControlHandle)
    requires
        handle.is_fresh(),
    ensures
        handle.sent().len() == 0,
        handle.limit() == 4,
        !handle.pause_requested(),
        flag_stores(handle.flag()) == seq![false],
        flag_loads(handle.flag()).len() == 0,
        on_one_flag(handle.flag(), handle.flag()),
{
}

} // verus!
