//! The gaffer runs the lights: it looks at each event and says which
//! messages are to go to the device because of it.

use crate::codec::Message;
use crate::server::Post;
use crate::session::Event;
use vstd::prelude::*;

verus! {

/// The messages that an event calls for. A level command from the operator
/// is passed on as it is. Nothing else calls for anything yet: what to do
/// about a message from the device is left open.
pub open spec fn reaction(event: Event) -> Seq<Message> {
    match event {
        Event::Hmi(Post::Level(group, level, ramp)) => seq![Message::SetVar(group, level, ramp)],
        _ => Seq::empty(),
    }
}

/// The messages that a command from the operator calls for.
pub fn react_to_hmi(post: Post) -> (out: Vec<Message>)
    ensures
        out@ == reaction(Event::Hmi(post)),
{
    let mut out: Vec<Message> = Vec::new();
    match post {
        Post::Level(group, level, ramp) => {
            out.push(Message::SetVar(group, level, ramp));
        },
        _ => {},
    }
    assert(out@ =~= reaction(Event::Hmi(post)));
    out
}

/// The messages that a message from the device calls for: none.
pub fn react_to_cbus(message: Message) -> (out: Vec<Message>)
    ensures
        out@ == reaction(Event::Cbus(message)),
        out@.len() == 0,
{
    let out: Vec<Message> = Vec::new();
    assert(out@ =~= reaction(Event::Cbus(message)));
    out
}

/// The messages that an event calls for.
pub fn react(event: Event) -> (out: Vec<Message>)
    ensures
        out@ == reaction(event),
{
    match event {
        Event::Cbus(message) => react_to_cbus(message),
        Event::Hmi(post) => react_to_hmi(post),
    }
}

} // verus!
