//! What kind of room a joined room is.
use vstd::prelude::*;

verus! {

/// The kind of a joined room.
#[derive(Clone, Copy, Debug, PartialEq, Eq, Structural)]
pub enum RoomType {
    Space,
    DirectMessage,
    Room,
}

impl RoomType {
    /// A space is a space even when it is also marked direct; otherwise a room
    /// marked direct is a direct message, and anything else an ordinary room.
    pub fn classify(is_space: bool, is_direct: bool) -> (t: RoomType)
        ensures
            is_space ==> t == RoomType::Space,
            !is_space && is_direct ==> t == RoomType::DirectMessage,
            !is_space && !is_direct ==> t == RoomType::Room,
    {
        if is_space {
            RoomType::Space
        } else if is_direct {
            RoomType::DirectMessage
        } else {
            RoomType::Room
        }
    }
}

} // verus!
