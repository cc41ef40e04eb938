//! What the operator's side of the gateway hands to the rest: commands that
//! arrive over HTTP, as values.

use crate::codec::{Group, Level, Ramp};
use vstd::prelude::*;

verus! {

/// `Clone` for a boxed string slice: the copy holds the same text.
pub assume_specification[ <Box<str> as Clone>::clone ](name: &Box<str>) -> (copy: Box<str>)
    ensures
        copy@ == name@,
;

/// A command from the operator.
#[derive(Clone, PartialEq, Debug)]
pub enum Post {
    /// Bring a group to a level over a duration.
    Level(Group, Level, Ramp),
    /// Switch on what goes by a name.
    On(Box<str>),
    /// Switch off what goes by a name.
    Off(Box<str>),
}

/// The status that answers a request which was handed on.
pub const STATUS_OK: u16 = 200;

/// The status that answers a request which could not be handed on.
pub const STATUS_INTERNAL_SERVER_ERROR: u16 = 500;

/// The command for a request that names a group, a level and a duration in
/// seconds.
pub fn level_post(group: u8, level: u8, ramp: u16) -> (post: Post)
    ensures
        post == Post::Level(Group(group), Level(level), Ramp(ramp)),
{
    Post::Level(Group(group), Level(level), Ramp(ramp))
}

/// The status that answers a request, given whether its command was handed
/// on.
pub fn reply_status(published: bool) -> (status: u16)
    ensures
        status == if published {
            STATUS_OK
        } else {
            STATUS_INTERNAL_SERVER_ERROR
        },
{
    if published {
        STATUS_OK
    } else {
        STATUS_INTERNAL_SERVER_ERROR
    }
}

} // verus!
