//! Boxes of blocks: a start corner and an end corner, both inclusive.

use crate::coordinates::BlockCoordinates;
use vstd::prelude::*;

verus! {

/// A rectangular prism of blocks given by two inclusive corners.
///
/// The merge engine only creates sequences whose start is not beyond their
/// end on any axis (see [`BlockSequence::is_box`]); the type itself holds any
/// pair of corners.
#[derive(Clone, Copy, Debug, PartialEq, Eq, Structural, Hash)]
pub struct BlockSequence {
    pub start: BlockCoordinates,
    pub end: BlockCoordinates,
}

impl BlockSequence {
    /// Extent along x: zero for a single block.
    pub open spec fn x_size(self) -> int {
        self.end.x - self.start.x
    }

    /// Extent along y.
    pub open spec fn y_size(self) -> int {
        self.end.y - self.start.y
    }

    /// Extent along z.
    pub open spec fn z_size(self) -> int {
        self.end.z - self.start.z
    }

    /// The start corner is not beyond the end corner on any axis.
    pub open spec fn is_box(self) -> bool {
        &&& self.start.x <= self.end.x
        &&& self.start.y <= self.end.y
        &&& self.start.z <= self.end.z
    }

    /// The block at `p` lies inside the prism.
    pub open spec fn contains(self, p: BlockCoordinates) -> bool {
        &&& self.start.x <= p.x <= self.end.x
        &&& self.start.y <= p.y <= self.end.y
        &&& self.start.z <= p.z <= self.end.z
    }

    /// The sequence from `start` to `end`.
    pub fn new(start: BlockCoordinates, end: BlockCoordinates) -> (s: Self)
        ensures
            s.start == start,
            s.end == end,
    {
        BlockSequence { start, end }
    }

    /// Both sequences span the same number of blocks along x.
    pub fn same_x_size(&self, other: &BlockSequence) -> (same: bool)
        ensures
            same == (self.x_size() == other.x_size()),
    {
        (self.end.x as i128 - self.start.x as i128) == (other.end.x as i128 - other.start.x as i128)
    }

    /// Both sequences span the same number of blocks along z.
    pub fn same_z_size(&self, other: &BlockSequence) -> (same: bool)
        ensures
            same == (self.z_size() == other.z_size()),
    {
        (self.end.z as i128 - self.start.z as i128) == (other.end.z as i128 - other.start.z as i128)
    }

    /// The sequence stops exactly at row `z`.
    pub fn has_z_end_on(&self, z: isize) -> (on: bool)
        ensures
            on == (self.end.z == z),
    {
        self.end.z == z
    }

    /// Grows the sequence along z so that it ends where `other` ends.
    pub fn expand_z_end(&mut self, other: BlockSequence)
        ensures
            final(self).start == old(self).start,
            final(self).end.x == old(self).end.x,
            final(self).end.y == old(self).end.y,
            final(self).end.z == other.end.z,
    {
        self.end.z = other.end.z;
    }

    /// Moves the start corner to `start`, keeping the end corner.
    pub fn expand_start(&mut self, start: BlockCoordinates)
        ensures
            final(self).start == start,
            final(self).end == old(self).end,
    {
        self.start = start;
    }
}

} // verus!
