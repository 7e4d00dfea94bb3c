//! Positions of single blocks in world units.

use vstd::prelude::*;

verus! {

/// The position of one block: an integer triple in world-block units.
#[derive(Clone, Copy, Debug, PartialEq, Eq, Structural, Hash)]
pub struct BlockCoordinates {
    pub x: isize,
    pub y: isize,
    pub z: isize,
}

impl BlockCoordinates {
    /// The position `(x, y, z)`.
    pub fn new(x: isize, y: isize, z: isize) -> (c: Self)
        ensures
            c.x == x,
            c.y == y,
            c.z == z,
    {
        BlockCoordinates { x, y, z }
    }
}

} // verus!
