use bytes::Bytes;
use cbus_gateway::codec::{Group, Level, Message, Ramp};
use cbus_gateway::gaffer::{react, react_to_cbus, react_to_hmi};
use cbus_gateway::server::{level_post, reply_status, Post};
use cbus_gateway::session::Event;

#[test]
fn level_command_is_passed_on_as_it_is() {
    let post = Post::Level(Group(4), Level(0x1f), Ramp(30));
    let want = vec![Message::SetVar(Group(4), Level(0x1f), Ramp(30))];
    assert_eq!(react_to_hmi(post.clone()), want);
    assert_eq!(react(Event::Hmi(post)), want);
}

#[test]
fn level_command_keeps_a_ramp_that_is_not_in_the_table() {
    assert_eq!(
        react(Event::Hmi(Post::Level(Group(0), Level(0), Ramp(7)))),
        vec![Message::SetVar(Group(0), Level(0), Ramp(7))]
    );
}

#[test]
fn other_commands_call_for_nothing() {
    assert_eq!(react_to_hmi(Post::On("hall".into())), vec![]);
    assert_eq!(react_to_hmi(Post::Off("hall".into())), vec![]);
    assert_eq!(react(Event::Hmi(Post::On("hall".into()))), vec![]);
}

#[test]
fn device_messages_call_for_nothing() {
    let messages = vec![
        Message::SetVar(Group(4), Level(0xff), Ramp(0)),
        Message::SetParam(cbus_gateway::codec::Param(0x30), cbus_gateway::codec::Setting(1)),
        Message::Reset,
        Message::StopRamp(Group(4)),
        Message::Status(Group(176), vec![0; 20]),
        Message::Unrecognised(Bytes::from_static(b"?")),
    ];
    for m in messages {
        assert_eq!(react_to_cbus(m.clone()), vec![]);
        assert_eq!(react(Event::Cbus(m)), vec![]);
    }
}

#[test]
fn request_becomes_a_level_command() {
    assert_eq!(
        level_post(4, 255, 1020),
        Post::Level(Group(4), Level(255), Ramp(1020))
    );
    assert_eq!(level_post(0, 0, 7), Post::Level(Group(0), Level(0), Ramp(7)));
}

#[test]
fn reply_tells_whether_the_command_was_handed_on() {
    assert_eq!(reply_status(true), 200);
    assert_eq!(reply_status(false), 500);
}
