//! Extraction of solid blocks from a voxel world and their compression into
//! axis-aligned boxes.
//!
//! The reader turns the bytes of region files into a flat list of occupied
//! block positions inside a requested range. The merge engine groups those
//! positions by layer and row and compresses them into boxes with three
//! greedy passes, along x, then z, then y.
//!
//! - [`read`]: which files a request needs, and the blocks of a file or of a
//!   level inside the request; [`region`], [`nbt`], [`chunk`] and
//!   [`file_name`] hold its parts.
//! - [`block_stack`]: the index of blocks by layer and row.
//! - [`merge`]: the three passes; [`sort`] orders a row.
//! - [`coverage`], [`order_independence`], [`exclusion`]: what is proved of
//!   the merge and of the reader as a whole.

pub mod block_sequence;
pub mod block_stack;
pub mod chunk;
pub mod coordinates;
pub mod coverage;
pub mod exclusion;
pub mod file_name;
pub mod merge;
pub mod nbt;
pub mod order_independence;
pub mod params;
pub mod read;
pub mod region;
pub mod sort;

pub use coordinates::BlockCoordinates;
pub use params::ExportParams;
