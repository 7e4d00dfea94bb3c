//! The bytes of one region file: a table of 32 by 32 chunk records, and the
//! records themselves.

use std::io::Cursor;
use vstd::prelude::*;

verus! {

/// The error of `fastanvil`, taken as it is.
#[verifier::external_type_specification]
#[verifier::external_body]
pub struct ExRegionError(fastanvil::Error);

/// What reading the chunk at `(x, z)` of a region file with the given bytes
/// gives: the chunk's own bytes, unpacked; `Some(None)` where the file has
/// no chunk there; nothing where the file cannot be read.
pub uninterp spec fn stored_chunk(bytes: Seq<u8>, x: int, z: int) -> Option<Option<Seq<u8>>>;

/// Place of the table entry for the chunk at `(x, z)`.
pub open spec fn entry_position(x: int, z: int) -> int {
    4 * (x + 32 * z)
}

/// The sector at which the table says the record of the chunk at `(x, z)`
/// starts.
pub open spec fn record_sector(bytes: Seq<u8>, x: int, z: int) -> int {
    let at = entry_position(x, z);
    bytes[at] * 65536 + bytes[at + 1] * 256 + bytes[at + 2]
}

/// The number of sectors that the table gives to the chunk at `(x, z)`.
pub open spec fn record_sectors(bytes: Seq<u8>, x: int, z: int) -> int {
    bytes[entry_position(x, z) + 3] as int
}

/// The table lists a chunk at `(x, z)`, its record's head lies inside the
/// file, and the head gives the record a length of zero.
pub open spec fn has_empty_record(bytes: Seq<u8>, x: int, z: int) -> bool {
    let at = record_sector(bytes, x, z) * 4096;
    &&& bytes.len() >= 4096
    &&& (record_sector(bytes, x, z) != 0 || record_sectors(bytes, x, z) != 0)
    &&& at + 5 <= bytes.len()
    &&& bytes[at] == 0
    &&& bytes[at + 1] == 0
    &&& bytes[at + 2] == 0
    &&& bytes[at + 3] == 0
}

/// Whether the record of the chunk at `(x, z)` claims a length of zero.
pub fn has_empty_chunk_record(bytes: &Vec<u8>, x: usize, z: usize) -> (empty: bool)
    requires
        x < 32,
        z < 32,
    ensures
        empty == has_empty_record(bytes@, x as int, z as int),
{
    if bytes.len() < 4096 {
        return false;
    }
    let entry: usize = 4 * (x + 32 * z);
    let sector: u64 = (bytes[entry] as u64) * 65536 + (bytes[entry + 1] as u64) * 256 + (
    bytes[entry + 2] as u64);
    let sectors: u8 = bytes[entry + 3];
    if sector == 0 && sectors == 0 {
        return false;
    }
    let at: u64 = sector * 4096;
    if at + 5 > bytes.len() as u64 {
        return false;
    }
    let at: usize = at as usize;
    bytes[at] == 0 && bytes[at + 1] == 0 && bytes[at + 2] == 0 && bytes[at + 3] == 0
}

/// `Region::from_stream` over the bytes and `Region::read_chunk`: the
/// unpacked bytes of the chunk at `(x, z)`, `None` where the file has no
/// chunk there, or the crate's error. The record must not claim a length of
/// zero: the crate subtracts one from that length.
#[verifier::external_body]
pub(crate) fn read_region_chunk(bytes: &Vec<u8>, x: usize, z: usize) -> (chunk: Result<
    Option<Vec<u8>>,
    fastanvil::Error,
>)
    requires
        x < 32,
        z < 32,
        !has_empty_record(bytes@, x as int, z as int),
    ensures
        match chunk {
            Ok(Some(data)) => stored_chunk(bytes@, x as int, z as int) == Some(Some(data@)),
            Ok(None) => stored_chunk(bytes@, x as int, z as int) == Some(None::<Seq<u8>>),
            Err(_) => stored_chunk(bytes@, x as int, z as int) is None,
        },
{
    let mut region = fastanvil::Region::from_stream(Cursor::new(bytes.as_slice()))?;
    region.read_chunk(x, z)
}

} // verus!
