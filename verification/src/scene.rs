//! The sides of a tile and the attachment points of a tile in a drawing of a layout.

use vstd::prelude::*;

verus! {

/// A side of a tile, and a rotation in quarter turns: `Right` is none,
/// `Bottom` one, `Left` two, `Top` three.
#[derive(Debug, Clone, Copy, PartialEq, Eq, Hash, Structural)]
pub enum TileSide {
    Right,
    Bottom,
    Left,
    Top,
}

impl TileSide {
    /// The number of the side: the quarter turns from `Right`.
    pub open spec fn number(self) -> int {
        match self {
            TileSide::Right => 0,
            TileSide::Bottom => 1,
            TileSide::Left => 2,
            TileSide::Top => 3,
        }
    }

    /// The side with the number.
    pub open spec fn of_number(value: int) -> TileSide {
        if value == 0 {
            TileSide::Right
        } else if value == 1 {
            TileSide::Bottom
        } else if value == 2 {
            TileSide::Left
        } else {
            TileSide::Top
        }
    }

    /// Returns the side with the number.
    pub fn from(value: i8) -> (side: TileSide)
        requires
            0 <= value <= 3,
        ensures
            side == Self::of_number(value as int),
            side.number() == value,
    {
        if value == 0 {
            TileSide::Right
        } else if value == 1 {
            TileSide::Bottom
        } else if value == 2 {
            TileSide::Left
        } else {
            TileSide::Top
        }
    }

    /// Returns the number of the side.
    pub fn to_number(self) -> (value: i8)
        ensures
            value == self.number(),
    {
        match self {
            TileSide::Right => 0,
            TileSide::Bottom => 1,
            TileSide::Left => 2,
            TileSide::Top => 3,
        }
    }

    /// Returns the side turned by a rotation.
    pub fn rotate(self, rotation: TileSide) -> (side: TileSide)
        ensures
            side.number() == (self.number() + rotation.number()) % 4,
    {
        TileSide::from((self.to_number() + rotation.to_number()) % 4)
    }
}

impl From<TileSide> for i8 {
    fn from(side: TileSide) -> (value: i8) {
        side.to_number()
    }
}

impl vstd::std_specs::convert::FromSpecImpl<TileSide> for i8 {
    open spec fn obeys_from_spec() -> bool {
        true
    }

    open spec fn from_spec(side: TileSide) -> i8 {
        side.number() as i8
    }
}

/// Which free attachment point a child takes on its parent: on a double the
/// last one; on another tile `Top`, the first, for the tile's first value,
/// and `Bottom`, the last, for its second value.
pub open spec fn takes_first(tuple: (u8, u8), value: u8) -> bool {
    tuple.0 != tuple.1 && value == tuple.0
}

/// Determines which attachment point to use on the parent tile, and takes it
/// from the free attachment points.
pub fn get_parent_attachment(parent_tuple: &(u8, u8), value: u8, attachments: &mut Vec<TileSide>) -> (side:
    TileSide)
    requires
        old(attachments)@.len() > 0,
        parent_tuple.0 == parent_tuple.1 || value == parent_tuple.0 || value == parent_tuple.1,
    ensures
        takes_first(*parent_tuple, value) ==> side == old(attachments)@[0] && final(attachments)@
            == old(attachments)@.update(0, old(attachments)@.last()).drop_last(),
        !takes_first(*parent_tuple, value) ==> side == old(attachments)@.last() && final(attachments)@ == old(attachments)@.drop_last(),
{
    if parent_tuple.0 == parent_tuple.1 {
        // Any open attachment can be used
        attachments.pop().unwrap()
    } else if value == parent_tuple.0 {
        // Attach to Top, which is the first element
        attachments.swap_remove(0)
    } else {
        // Attach to Bottom, which is the last element
        attachments.pop().unwrap()
    }
}

/// Determines which attachment point to use on the child tile. A double
/// attaches on its `Left` side and keeps its attachment points; another
/// tile gives up `Top` for its first value and `Bottom` for its second.
pub fn get_child_attachment(child_tuple: &(u8, u8), value: u8, attachments: &mut Vec<TileSide>) -> (side:
    TileSide)
    requires
        child_tuple.0 == child_tuple.1 || (old(attachments)@.len() > 0 && (value == child_tuple.0
            || value == child_tuple.1)),
    ensures
        child_tuple.0 == child_tuple.1 ==> side == TileSide::Left && final(attachments)@ == old(attachments)@,
        takes_first(*child_tuple, value) ==> side == old(attachments)@[0] && final(attachments)@
            == old(attachments)@.update(0, old(attachments)@.last()).drop_last(),
        child_tuple.0 != child_tuple.1 && value != child_tuple.0 ==> side == old(attachments)@.last() && final(attachments)@ == old(attachments)@.drop_last(),
{
    if child_tuple.0 == child_tuple.1 {
        TileSide::Left
    } else if child_tuple.0 == value {
        attachments.swap_remove(0)
    } else {
        attachments.pop().unwrap()
    }
}

/// Calculates the rotation that makes the child's attachment point face the
/// parent's: two quarter turns from the parent's side, less the child's side.
pub fn child_attachment_to_parent_rotation(child: TileSide, parent: TileSide) -> (rotation: TileSide)
    requires
        parent.number() + 2 - child.number() >= 0,
    ensures
        rotation.number() == (parent.number() + 2 - child.number()) % 4,
{
    TileSide::from((parent.to_number() + 2 - child.to_number()) % 4)
}

} // verus!
