//! Items that can be placed on a map implement [`Positionable`].

use vstd::prelude::*;

use crate::vec2::Vec2;

verus! {

/// The item can be placed on a map and knows where it stands.
pub trait Positionable: Sized {
    /// The coordinate the item currently stands on.
    spec fn spec_pos(&self) -> Vec2;

    /// Read the item's current coordinate.
    fn pos(&self) -> (r: Vec2)
        ensures
            r == self.spec_pos(),
    ;

    /// Move the item to the given coordinate.
    fn set_pos(&mut self, pos: Vec2)
        ensures
            final(self).spec_pos() == pos,
    ;
}

} // verus!
