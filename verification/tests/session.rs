use bytes::Bytes;
use cbus_gateway::codec::{preamble, Group, Level, Message, Ramp};
use cbus_gateway::session::{
    accept, action, next_phase, output_step, Action, Event, Output, Phase, Reason, Received,
    Report, BUS_CAPACITY, RETRY_DELAY_MS,
};

const REPORTS: [Report; 7] = [
    Report::Connected,
    Report::ConnectFailed,
    Report::PreambleSent,
    Report::PreambleFailed,
    Report::InputEnded,
    Report::OutputEnded,
    Report::DelayElapsed,
];

const REASONS: [Reason; 4] = [
    Reason::ConnectFailed,
    Reason::HandshakeFailed,
    Reason::InputEnded,
    Reason::OutputEnded,
];

#[test]
fn lost_connection_is_tried_again_after_the_delay_with_the_preamble() {
    let mut phase = Phase::Connecting;
    assert_eq!(action(phase), Action::Connect);
    phase = next_phase(phase, Report::Connected);
    assert_eq!(action(phase), Action::SendPreamble);
    phase = next_phase(phase, Report::PreambleSent);
    assert_eq!(phase, Phase::Active);
    assert_eq!(action(phase), Action::RunTasks);

    phase = next_phase(phase, Report::InputEnded);
    assert_eq!(phase, Phase::Closed(Reason::InputEnded));
    assert_eq!(action(phase), Action::CloseAndWait(2000));

    phase = next_phase(phase, Report::DelayElapsed);
    assert_eq!(phase, Phase::Connecting);
    assert_eq!(action(phase), Action::Connect);
    phase = next_phase(phase, Report::Connected);
    assert_eq!(phase, Phase::Handshaking);
    assert_eq!(action(phase), Action::SendPreamble);
    assert_eq!(&preamble()[..], b"~@A342000a\r@A3300071\r");
    phase = next_phase(phase, Report::PreambleSent);
    assert_eq!(phase, Phase::Active);
}

#[test]
fn fixed_numbers() {
    assert_eq!(RETRY_DELAY_MS, 2000);
    assert_eq!(BUS_CAPACITY, 16);
}

#[test]
fn every_failure_closes_with_its_reason() {
    assert_eq!(
        next_phase(Phase::Connecting, Report::ConnectFailed),
        Phase::Closed(Reason::ConnectFailed)
    );
    assert_eq!(
        next_phase(Phase::Handshaking, Report::PreambleFailed),
        Phase::Closed(Reason::HandshakeFailed)
    );
    assert_eq!(
        next_phase(Phase::Active, Report::InputEnded),
        Phase::Closed(Reason::InputEnded)
    );
    assert_eq!(
        next_phase(Phase::Active, Report::OutputEnded),
        Phase::Closed(Reason::OutputEnded)
    );
}

#[test]
fn first_failure_stays_the_reason() {
    let closed = next_phase(Phase::Active, Report::OutputEnded);
    assert_eq!(next_phase(closed, Report::InputEnded), Phase::Closed(Reason::OutputEnded));
}

#[test]
fn every_closed_attempt_waits_and_connects_again() {
    for reason in REASONS {
        assert_eq!(action(Phase::Closed(reason)), Action::CloseAndWait(RETRY_DELAY_MS));
        assert_eq!(
            next_phase(Phase::Closed(reason), Report::DelayElapsed),
            Phase::Connecting
        );
    }
}

#[test]
fn report_that_does_not_belong_changes_nothing() {
    let mut phases = vec![Phase::Connecting, Phase::Handshaking, Phase::Active];
    phases.extend(REASONS.iter().map(|r| Phase::Closed(*r)));
    let mut moves = 0;
    for phase in phases {
        for report in REPORTS {
            let belongs = matches!(
                (phase, report),
                (Phase::Connecting, Report::Connected)
                    | (Phase::Connecting, Report::ConnectFailed)
                    | (Phase::Handshaking, Report::PreambleSent)
                    | (Phase::Handshaking, Report::PreambleFailed)
                    | (Phase::Active, Report::InputEnded)
                    | (Phase::Active, Report::OutputEnded)
                    | (Phase::Closed(_), Report::DelayElapsed)
            );
            if belongs {
                assert_ne!(next_phase(phase, report), phase);
                moves += 1;
            } else {
                assert_eq!(next_phase(phase, report), phase);
            }
        }
    }
    assert_eq!(moves, 10);
}

#[test]
fn active_only_after_the_preamble() {
    let mut phases = vec![Phase::Connecting, Phase::Handshaking];
    phases.extend(REASONS.iter().map(|r| Phase::Closed(*r)));
    for phase in phases {
        for report in REPORTS {
            if next_phase(phase, report) == Phase::Active {
                assert_eq!((phase, report), (Phase::Handshaking, Report::PreambleSent));
            }
        }
    }
}

#[test]
fn line_from_the_device_becomes_an_event() {
    assert_eq!(
        accept(Bytes::from_static(b"050038002A041F00")),
        Event::Cbus(Message::SetVar(Group(4), Level(0x1f), Ramp(30)))
    );
    assert_eq!(
        accept(Bytes::from_static(b"what?")),
        Event::Cbus(Message::Unrecognised(Bytes::from_static(b"what?")))
    );
}

#[test]
fn message_to_send_is_written_in_its_wire_form() {
    let m = Message::SetVar(Group(4), Level(0x1f), Ramp(30));
    assert_eq!(
        output_step(Received::Message(m)),
        Output::Write(Bytes::from_static(b"\\05380002041F\r"))
    );
    assert_eq!(output_step(Received::Message(Message::Reset)), Output::Write("~".into()));
    assert_eq!(
        output_step(Received::Message(Message::StopRamp(Group(4)))),
        Output::Write(Bytes::new())
    );
}

#[test]
fn missed_messages_are_passed_over() {
    assert_eq!(output_step(Received::Lagged), Output::Skip);
}

#[test]
fn end_of_the_messages_ends_the_writing() {
    assert_eq!(output_step(Received::Closed), Output::Stop);
}
