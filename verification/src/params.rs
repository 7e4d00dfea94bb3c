//! What the caller asks for.

use crate::coordinates::BlockCoordinates;
use vstd::prelude::*;

verus! {

/// The region of interest and the kinds of block to leave out.
#[derive(Clone, Debug)]
pub struct ExportParams {
    /// First corner of the region, inclusive.
    pub start: BlockCoordinates,
    /// Last corner of the region, inclusive.
    pub end: BlockCoordinates,
    /// Identifiers of the kinds of block that do not count as solid.
    pub skip_blocks: Vec<String>,
}

/// What each string of a list holds.
pub open spec fn string_views(strings: Seq<String>) -> Seq<Seq<char>> {
    Seq::new(strings.len(), |i: int| strings[i]@)
}

/// A request as plain values.
pub ghost struct ParamsView {
    pub start: BlockCoordinates,
    pub end: BlockCoordinates,
    pub skip_blocks: Seq<Seq<char>>,
}

impl View for ExportParams {
    type V = ParamsView;

    open spec fn view(&self) -> ParamsView {
        ParamsView {
            start: self.start,
            end: self.end,
            skip_blocks: string_views(self.skip_blocks@),
        }
    }
}

impl Default for ExportParams {
    /// The single block at the origin, with nothing left out.
    fn default() -> (params: Self)
        ensures
            params.start == (BlockCoordinates { x: 0, y: 0, z: 0 }),
            params.end == (BlockCoordinates { x: 0, y: 0, z: 0 }),
            params.skip_blocks@.len() == 0,
    {
        ExportParams {
            start: BlockCoordinates::new(0, 0, 0),
            end: BlockCoordinates::new(0, 0, 0),
            skip_blocks: Vec::new(),
        }
    }
}

} // verus!
