//! Keeping one connection to the device alive: what to do next, given what
//! has just happened. The connecting, writing, reading and waiting themselves
//! are the caller's.

use crate::buffers::bytes_contents;
use crate::codec::{decode, decode_spec, encode, encode_spec, Message};
use crate::server::Post;
use bytes::Bytes;
use vstd::prelude::*;

verus! {

/// Something that happened: a message from the device, or a command from
/// the operator.
#[derive(Clone, PartialEq, Debug)]
pub enum Event {
    Cbus(Message),
    Hmi(Post),
}

/// How long to wait after a connection has closed before trying again, in
/// milliseconds.
pub const RETRY_DELAY_MS: u64 = 2000;

/// How many items each of the two buses holds for a reader that is behind.
pub const BUS_CAPACITY: usize = 16;

/// Why a connection attempt came to its end.
#[derive(Clone, Copy, PartialEq, Eq, Debug, Structural)]
pub enum Reason {
    /// The device could not be reached.
    ConnectFailed,
    /// The preamble could not be written.
    HandshakeFailed,
    /// Reading from the device ended or failed.
    InputEnded,
    /// Writing to the device failed, or nothing more can arrive to be written.
    OutputEnded,
}

/// Where a connection attempt stands.
#[derive(Clone, Copy, PartialEq, Eq, Debug, Structural)]
pub enum Phase {
    Connecting,
    Handshaking,
    Active,
    Closed(Reason),
}

/// What the caller reports back after doing what it was asked to.
#[derive(Clone, Copy, PartialEq, Eq, Debug, Structural)]
pub enum Report {
    Connected,
    ConnectFailed,
    PreambleSent,
    PreambleFailed,
    InputEnded,
    OutputEnded,
    DelayElapsed,
}

/// What the caller is asked to do in a phase.
#[derive(Clone, Copy, PartialEq, Eq, Debug, Structural)]
pub enum Action {
    /// Open a connection to the device.
    Connect,
    /// Write the preamble, before anything else is written or read.
    SendPreamble,
    /// Run the reading and the writing side by side until one of them ends.
    RunTasks,
    /// Give up the connection, both halves of it, and wait this many
    /// milliseconds.
    CloseAndWait(u64),
}

/// The phase that follows, given what was reported. A report that does not
/// belong to the phase changes nothing.
pub open spec fn next_phase_spec(phase: Phase, report: Report) -> Phase {
    match (phase, report) {
        (Phase::Connecting, Report::Connected) => Phase::Handshaking,
        (Phase::Connecting, Report::ConnectFailed) => Phase::Closed(Reason::ConnectFailed),
        (Phase::Handshaking, Report::PreambleSent) => Phase::Active,
        (Phase::Handshaking, Report::PreambleFailed) => Phase::Closed(Reason::HandshakeFailed),
        (Phase::Active, Report::InputEnded) => Phase::Closed(Reason::InputEnded),
        (Phase::Active, Report::OutputEnded) => Phase::Closed(Reason::OutputEnded),
        (Phase::Closed(_), Report::DelayElapsed) => Phase::Connecting,
        _ => phase,
    }
}

/// What is to be done in a phase.
pub open spec fn action_spec(phase: Phase) -> Action {
    match phase {
        Phase::Connecting => Action::Connect,
        Phase::Handshaking => Action::SendPreamble,
        Phase::Active => Action::RunTasks,
        Phase::Closed(_) => Action::CloseAndWait(RETRY_DELAY_MS),
    }
}

/// The phase that follows, given what was reported.
pub fn next_phase(phase: Phase, report: Report) -> (next: Phase)
    ensures
        next == next_phase_spec(phase, report),
{
    match (phase, report) {
        (Phase::Connecting, Report::Connected) => Phase::Handshaking,
        (Phase::Connecting, Report::ConnectFailed) => Phase::Closed(Reason::ConnectFailed),
        (Phase::Handshaking, Report::PreambleSent) => Phase::Active,
        (Phase::Handshaking, Report::PreambleFailed) => Phase::Closed(Reason::HandshakeFailed),
        (Phase::Active, Report::InputEnded) => Phase::Closed(Reason::InputEnded),
        (Phase::Active, Report::OutputEnded) => Phase::Closed(Reason::OutputEnded),
        (Phase::Closed(_), Report::DelayElapsed) => Phase::Connecting,
        (phase, _) => phase,
    }
}

/// What is to be done in a phase.
pub fn action(phase: Phase) -> (todo: Action)
    ensures
        todo == action_spec(phase),
{
    match phase {
        Phase::Connecting => Action::Connect,
        Phase::Handshaking => Action::SendPreamble,
        Phase::Active => Action::RunTasks,
        Phase::Closed(_) => Action::CloseAndWait(RETRY_DELAY_MS),
    }
}

/// A connection becomes active only by way of the handshake: nothing is
/// read or written on it before the preamble has been sent.
pub proof fn lemma_preamble_comes_first(phase: Phase, report: Report)
    requires
        next_phase_spec(phase, report) == Phase::Active,
    ensures
        phase == Phase::Active || (phase == Phase::Handshaking && report == Report::PreambleSent),
{
}

/// Every failure closes the attempt, every closed attempt waits the fixed
/// delay, and after the delay the next attempt starts with connecting: there
/// is no phase from which the device is not tried again.
pub proof fn lemma_retries_for_ever(phase: Phase, reason: Reason)
    ensures
        next_phase_spec(Phase::Connecting, Report::ConnectFailed) is Closed,
        next_phase_spec(Phase::Handshaking, Report::PreambleFailed) is Closed,
        next_phase_spec(Phase::Active, Report::InputEnded) is Closed,
        next_phase_spec(Phase::Active, Report::OutputEnded) is Closed,
        action_spec(Phase::Closed(reason)) == Action::CloseAndWait(RETRY_DELAY_MS),
        next_phase_spec(Phase::Closed(reason), Report::DelayElapsed) == Phase::Connecting,
        next_phase_spec(phase, Report::DelayElapsed) == Phase::Connecting <==> phase is Closed
            || phase == Phase::Connecting,
{
}

/// The event for a line that the device sent.
pub fn accept(line: Bytes) -> (event: Event)
    ensures
        event matches Event::Cbus(m) && m@ == decode_spec(bytes_contents(line)),
{
    Event::Cbus(decode(line))
}

/// What came of waiting for the next message to send.
#[derive(Clone, PartialEq, Debug)]
pub enum Received {
    /// A message to send.
    Message(Message),
    /// Messages were missed because they came faster than they were sent.
    Lagged,
    /// No message can arrive any more.
    Closed,
}

/// What the writing side does next.
#[derive(Clone, PartialEq, Debug)]
pub enum Output {
    /// Write these bytes to the device, then wait for the next message.
    Write(Bytes),
    /// Wait for the next message.
    Skip,
    /// End: the connection is to be closed.
    Stop,
}

/// What the writing side does with what it received: a message is written in
/// its wire form, missed messages are passed over, and the end of the
/// messages ends the writing.
pub fn output_step(received: Received) -> (todo: Output)
    ensures
        match received {
            Received::Message(m) => todo matches Output::Write(wire) && bytes_contents(wire)
                == encode_spec(m@),
            Received::Lagged => todo == Output::Skip,
            Received::Closed => todo == Output::Stop,
        },
{
    match received {
        Received::Message(m) => Output::Write(encode(m)),
        Received::Lagged => Output::Skip,
        Received::Closed => Output::Stop,
    }
}

} // verus!
