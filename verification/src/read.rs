//! The reader: which region files a request needs, which part of each file
//! it touches, and which blocks of a file fall inside it.

use crate::chunk::{chunk_voxels, collect_chunk_voxels, decode_chunk, decoded_chunk, Window};
use crate::coordinates::BlockCoordinates;
use crate::file_name::{
    format_region_file_name, get_file_coordinates, parse_file_coordinates, region_file_name,
};
use crate::nbt::{is_tame_payload, payload_is_tame};
use crate::params::{string_views, ExportParams, ParamsView};
use crate::region::{has_empty_chunk_record, has_empty_record, read_region_chunk, stored_chunk};
use std::ops::RangeInclusive;
use vstd::prelude::*;
use vstd::string::*;

verus! {

/// Blocks along one horizontal axis of a chunk.
pub const CHUNK_BLOCKS_SIZE: usize = 16;

/// Chunks along one horizontal axis of a region file.
pub const FILE_CHUNKS_SIZE: isize = 32;

/// Blocks along one horizontal axis of a region file.
pub const FILE_BLOCKS_SIZE: isize = 512;

/// The file-grid index of a block coordinate: the coordinate divided by the
/// width of a file, rounded down.
pub open spec fn file_index(c: int) -> int {
    c / 512
}

/// The file-grid index of a block coordinate, rounded down for negative
/// coordinates too.
pub fn get_file_index(c: isize) -> (index: isize)
    ensures
        index == file_index(c as int),
        index * 512 <= c < (index + 1) * 512,
{
    if c >= 0 {
        c / FILE_BLOCKS_SIZE
    } else {
        -((-(c + 1)) / FILE_BLOCKS_SIZE) - 1
    }
}

/// The span of file `file_c` fits the machine's integers.
pub open spec fn file_index_fits(file_c: int) -> bool {
    isize::MIN <= (file_c - 1) * 512 && (file_c + 1) * 512 <= isize::MAX
}

/// First coordinate of the part of file `file_c` that a request starting at
/// `start_c` touches.
pub open spec fn range_min(file_c: int, start_c: int) -> int {
    if file_c < 0 {
        if (file_c - 1) * 512 >= start_c {
            (file_c - 1) * 512
        } else {
            start_c
        }
    } else {
        if file_c * 512 >= start_c {
            file_c * 512
        } else {
            start_c
        }
    }
}

/// Last coordinate of the part of file `file_c` that a request ending at
/// `end_c` touches: the smaller of the file's upper bound and the request's
/// end.
pub open spec fn range_max(file_c: int, end_c: int) -> int {
    if (file_c + 1) * 512 <= end_c {
        (file_c + 1) * 512
    } else {
        end_c
    }
}

/// Both ends of the part of one file that a request touches along one axis.
pub fn chunk_coordinate_bounds(file_c: isize, start_c: isize, end_c: isize) -> (bounds: (
    isize,
    isize,
))
    requires
        file_index_fits(file_c as int),
    ensures
        bounds.0 == range_min(file_c as int, start_c as int),
        bounds.1 == range_max(file_c as int, end_c as int),
        start_c <= bounds.0,
        bounds.1 <= end_c,
{
    if file_c < 0 {
        let low = (file_c - 1) * FILE_BLOCKS_SIZE;
        let high = (file_c + 1) * FILE_BLOCKS_SIZE;
        let min = if low >= start_c {
            low
        } else {
            start_c
        };
        let max = if high <= end_c {
            high
        } else {
            end_c
        };
        (min, max)
    } else {
        let low = file_c * FILE_BLOCKS_SIZE;
        let high = (file_c + 1) * FILE_BLOCKS_SIZE;
        let min = if low >= start_c {
            low
        } else {
            start_c
        };
        let max = if high <= end_c {
            high
        } else {
            end_c
        };
        (min, max)
    }
}

/// The part of one file that a request touches along one axis, as an
/// inclusive range.
pub fn get_chunk_coordinate_ranges(file_c: isize, start_c: isize, end_c: isize) -> (range:
    RangeInclusive<isize>)
    requires
        file_index_fits(file_c as int),
    ensures
        range@.start == range_min(file_c as int, start_c as int),
        range@.end == range_max(file_c as int, end_c as int),
        !range@.exhausted,
        start_c <= range@.start,
        range@.end <= end_c,
{
    let bounds = chunk_coordinate_bounds(file_c, start_c, end_c);
    RangeInclusive::new(bounds.0, bounds.1)
}

/// The part of the file at `(file_x, file_z)` that the request touches,
/// along x and along z.
pub fn get_chunk_ranges(file_x: isize, file_z: isize, params: &ExportParams) -> (ranges: (
    RangeInclusive<isize>,
    RangeInclusive<isize>,
))
    requires
        file_index_fits(file_x as int),
        file_index_fits(file_z as int),
    ensures
        ranges.0@.start == range_min(file_x as int, params.start.x as int),
        ranges.0@.end == range_max(file_x as int, params.end.x as int),
        !ranges.0@.exhausted,
        ranges.1@.start == range_min(file_z as int, params.start.z as int),
        ranges.1@.end == range_max(file_z as int, params.end.z as int),
        !ranges.1@.exhausted,
{
    let x_range = get_chunk_coordinate_ranges(file_x, params.start.x, params.end.x);
    let z_range = get_chunk_coordinate_ranges(file_z, params.start.z, params.end.z);
    (x_range, z_range)
}

/// The names of the files at `(x, z_first)`, `(x, z_first + 1)`, and so on.
pub open spec fn file_row(x: int, z_first: int, count: int) -> Seq<Seq<char>> {
    if count <= 0 {
        Seq::empty()
    } else {
        Seq::new(count as nat, |j: int| region_file_name(x, z_first + j))
    }
}

/// The names of the files of a rectangle of the file grid, x by x and for
/// each x z by z.
pub open spec fn file_grid(x_first: int, x_count: int, z_first: int, z_count: int) -> Seq<
    Seq<char>,
>
    decreases x_count,
{
    if x_count <= 0 {
        Seq::empty()
    } else {
        file_grid(x_first, x_count - 1, z_first, z_count) + file_row(
            x_first + x_count - 1,
            z_first,
            z_count,
        )
    }
}

/// The names of the files that a request from `start` to `end` needs: those
/// of every file-grid cell from the cell of the start corner to the cell of
/// the end corner; where there is no such cell, the file of the start corner
/// alone.
pub open spec fn needed_file_names(start_x: int, start_z: int, end_x: int, end_z: int) -> Seq<
    Seq<char>,
> {
    let first_x = file_index(start_x);
    let first_z = file_index(start_z);
    let last_x = file_index(end_x);
    let last_z = file_index(end_z);
    if first_x <= last_x && first_z <= last_z {
        file_grid(first_x, last_x - first_x + 1, first_z, last_z - first_z + 1)
    } else {
        seq![region_file_name(first_x, first_z)]
    }
}

/// The names of the region files that the request needs. There is always at
/// least one.
pub fn get_needed_filenames(params: &ExportParams) -> (needed_files: Vec<String>)
    ensures
        string_views(needed_files@) == needed_file_names(
            params.start.x as int,
            params.start.z as int,
            params.end.x as int,
            params.end.z as int,
        ),
        needed_files@.len() > 0,
{
    let mut needed_files: Vec<String> = Vec::new();
    let start_x = get_file_index(params.start.x);
    let start_z = get_file_index(params.start.z);
    let end_x = get_file_index(params.end.x);
    let end_z = get_file_index(params.end.z);
    if start_x <= end_x && start_z <= end_z {
        let ghost z_count = end_z - start_z + 1;
        let mut x = start_x;
        assert(string_views(needed_files@) == file_grid(start_x as int, 0, start_z as int, z_count));
        while x <= end_x
            invariant
                start_x <= x <= end_x + 1,
                end_x < isize::MAX,
                end_z < isize::MAX,
                start_z <= end_z,
                z_count == end_z - start_z + 1,
                string_views(needed_files@) == file_grid(
                    start_x as int,
                    x - start_x,
                    start_z as int,
                    z_count,
                ),
                x > start_x ==> needed_files@.len() > 0,
            decreases end_x + 1 - x,
        {
            let ghost done = string_views(needed_files@);
            let mut z = start_z;
            assert(string_views(needed_files@) == done + file_row(x as int, start_z as int, 0));
            while z <= end_z
                invariant
                    start_z <= z <= end_z + 1,
                    end_z < isize::MAX,
                    string_views(needed_files@) == done + file_row(
                        x as int,
                        start_z as int,
                        z - start_z,
                    ),
                    z > start_z ==> needed_files@.len() > 0,
                decreases end_z + 1 - z,
            {
                let ghost before = string_views(needed_files@);
                let name = format_region_file_name(x, z);
                needed_files.push(name);
                assert(string_views(needed_files@) == before.push(
                    region_file_name(x as int, z as int),
                ));
                assert(file_row(x as int, start_z as int, z + 1 - start_z) == file_row(
                    x as int,
                    start_z as int,
                    z - start_z,
                ).push(region_file_name(x as int, z as int)));
                z += 1;
            }
            x += 1;
        }
    } else {
        let name = format_region_file_name(start_x, start_z);
        needed_files.push(name);
        assert(string_views(needed_files@) == seq![
            region_file_name(start_x as int, start_z as int),
        ]);
    }
    needed_files
}

// ---------------------------------------------------------------------------
// One file
// ---------------------------------------------------------------------------

/// Why a level could not be read.
#[derive(Clone, Copy, Debug, PartialEq, Eq, Structural)]
pub enum ReadError {
    /// A file that the request needs is not there, or is empty.
    MissingFile,
    /// The name of a file does not give its place in the file grid.
    FileName,
    /// A file lies so far out that its blocks have no coordinates on this
    /// machine.
    FileIndex,
    /// A region file cannot be read.
    Region,
    /// A chunk cannot be decoded.
    Chunk,
}

/// The world coordinate of the first block of chunk `chunk_c` of file
/// `file_c` along one axis. In files of negative index the chunks count
/// downwards from the file's bound.
pub open spec fn chunk_base(file_c: int, chunk_c: int) -> int {
    if file_c < 0 {
        file_c * 512 - chunk_c * 16
    } else {
        file_c * 512 + chunk_c * 16
    }
}

/// The world coordinate of the first block of a chunk along one axis.
pub fn get_chunk_base(file_c: isize, chunk_c: usize) -> (base: isize)
    requires
        file_index_fits(file_c as int),
        chunk_c < 32,
    ensures
        base == chunk_base(file_c as int, chunk_c as int),
        base + 16 <= isize::MAX,
{
    let within = (chunk_c * CHUNK_BLOCKS_SIZE) as isize;
    if file_c < 0 {
        file_c * FILE_BLOCKS_SIZE - within
    } else {
        file_c * FILE_BLOCKS_SIZE + within
    }
}

/// The window of one chunk of one file for a request.
pub open spec fn window_of(
    file_x: int,
    file_z: int,
    chunk_x: int,
    chunk_z: int,
    params: ParamsView,
) -> Window {
    Window {
        x_base: chunk_base(file_x, chunk_x) as isize,
        z_base: chunk_base(file_z, chunk_z) as isize,
        x_min: range_min(file_x, params.start.x as int) as isize,
        x_max: range_max(file_x, params.end.x as int) as isize,
        z_min: range_min(file_z, params.start.z as int) as isize,
        z_max: range_max(file_z, params.end.z as int) as isize,
    }
}

/// The chunk and the request overlap on both horizontal axes, the chunk
/// taken as the interval from its base to its base plus sixteen and both
/// intervals without their ends.
pub open spec fn overlaps(window: Window) -> bool {
    &&& window.x_min < window.x_base + 16
    &&& window.x_max > window.x_base
    &&& window.z_min < window.z_base + 16
    &&& window.z_max > window.z_base
}

/// Whether the chunk of a window has to be decoded for the request.
pub fn chunk_overlaps(window: &Window) -> (overlap: bool)
    requires
        window.fits(),
    ensures
        overlap == overlaps(*window),
{
    window.x_min < window.x_base + 16 && window.x_max > window.x_base && window.z_min
        < window.z_base + 16 && window.z_max > window.z_base
}

/// What the chunk with the given bytes adds to the result: nothing where it
/// lies outside the request, else its solid blocks inside the request. Bytes
/// that are not tame, or do not decode, are an error.
pub open spec fn chunk_result(data: Seq<u8>, window: Window, params: ParamsView) -> Result<
    Seq<BlockCoordinates>,
    ReadError,
> {
    if !overlaps(window) {
        Ok(Seq::empty())
    } else if !payload_is_tame(data) {
        Err(ReadError::Chunk)
    } else {
        match decoded_chunk(data) {
            None => Err(ReadError::Chunk),
            Some(content) => match chunk_voxels(
                content.0,
                content.1,
                params.skip_blocks,
                window,
                params.start.y as int,
                params.end.y - params.start.y + 1,
            ) {
                None => Err(ReadError::Chunk),
                Some(found) => Ok(found),
            },
        }
    }
}

/// What chunk `(chunk_x, chunk_z)` of a file adds to the result.
pub open spec fn chunk_step(
    bytes: Seq<u8>,
    file_x: int,
    file_z: int,
    chunk_x: int,
    chunk_z: int,
    params: ParamsView,
) -> Result<Seq<BlockCoordinates>, ReadError> {
    if has_empty_record(bytes, chunk_x, chunk_z) {
        Err(ReadError::Region)
    } else {
        match stored_chunk(bytes, chunk_x, chunk_z) {
            None => Err(ReadError::Region),
            Some(None) => Ok(Seq::empty()),
            Some(Some(data)) => chunk_result(
                data,
                window_of(file_x, file_z, chunk_x, chunk_z, params),
                params,
            ),
        }
    }
}

/// The result for the first `count` chunks of a file, taken z by z and for
/// each z x by x; the first error ends it.
pub open spec fn file_scan(bytes: Seq<u8>, file_x: int, file_z: int, params: ParamsView, count: int) -> Result<
    Seq<BlockCoordinates>,
    ReadError,
>
    decreases count,
{
    if count <= 0 {
        Ok(Seq::empty())
    } else {
        match file_scan(bytes, file_x, file_z, params, count - 1) {
            Err(error) => Err(error),
            Ok(before) => match chunk_step(
                bytes,
                file_x,
                file_z,
                (count - 1) % 32,
                (count - 1) / 32,
                params,
            ) {
                Err(error) => Err(error),
                Ok(found) => Ok(before + found),
            },
        }
    }
}

/// The solid blocks of one region file inside the request.
pub open spec fn file_voxels(name: Seq<char>, bytes: Seq<u8>, params: ParamsView) -> Result<
    Seq<BlockCoordinates>,
    ReadError,
> {
    match parse_file_coordinates(name) {
        None => Err(ReadError::FileName),
        Some(place) => if !file_index_fits(place.0 as int) || !file_index_fits(place.1 as int) {
            Err(ReadError::FileIndex)
        } else {
            file_scan(bytes, place.0 as int, place.1 as int, params, 1024)
        },
    }
}

/// The footprint of chunk `(chunk_x, chunk_z)` of the file at
/// `(file_x, file_z)` lies outside the request on one of the horizontal axes.
pub open spec fn chunk_is_outside(
    file_x: int,
    file_z: int,
    chunk_x: int,
    chunk_z: int,
    params: ParamsView,
) -> bool {
    ||| chunk_base(file_x, chunk_x) + 15 < params.start.x
    ||| chunk_base(file_x, chunk_x) > params.end.x
    ||| chunk_base(file_z, chunk_z) + 15 < params.start.z
    ||| chunk_base(file_z, chunk_z) > params.end.z
}

/// A chunk whose footprint lies outside the request adds nothing, whatever
/// its bytes are: they are not decoded.
pub proof fn chunk_outside_the_request_is_skipped(
    data: Seq<u8>,
    file_x: int,
    file_z: int,
    chunk_x: int,
    chunk_z: int,
    params: ParamsView,
)
    requires
        file_index_fits(file_x),
        file_index_fits(file_z),
        0 <= chunk_x < 32,
        0 <= chunk_z < 32,
        chunk_is_outside(file_x, file_z, chunk_x, chunk_z, params),
    ensures
        !overlaps(window_of(file_x, file_z, chunk_x, chunk_z, params)),
        chunk_result(data, window_of(file_x, file_z, chunk_x, chunk_z, params), params) == Ok::<
            Seq<BlockCoordinates>,
            ReadError,
        >(Seq::empty()),
{
}

/// Two files of one place in the file grid that differ only in the bytes of
/// chunks outside the request give the same result.
pub proof fn chunks_outside_the_request_do_not_matter(
    a: Seq<u8>,
    b: Seq<u8>,
    file_x: int,
    file_z: int,
    params: ParamsView,
    count: int,
)
    requires
        file_index_fits(file_x),
        file_index_fits(file_z),
        0 <= count <= 1024,
        forall|chunk_x: int, chunk_z: int|
            0 <= chunk_x < 32 && 0 <= chunk_z < 32 ==> {
                &&& has_empty_record(a, chunk_x, chunk_z) == has_empty_record(b, chunk_x, chunk_z)
                &&& {
                    ||| #[trigger] stored_chunk(a, chunk_x, chunk_z) == stored_chunk(
                        b,
                        chunk_x,
                        chunk_z,
                    )
                    ||| {
                        &&& chunk_is_outside(file_x, file_z, chunk_x, chunk_z, params)
                        &&& stored_chunk(a, chunk_x, chunk_z) matches Some(Some(_))
                        &&& stored_chunk(b, chunk_x, chunk_z) matches Some(Some(_))
                    }
                }
            },
    ensures
        file_scan(a, file_x, file_z, params, count) == file_scan(b, file_x, file_z, params, count),
    decreases count,
{
    if count > 0 {
        let chunk_x = (count - 1) % 32;
        let chunk_z = (count - 1) / 32;
        chunks_outside_the_request_do_not_matter(a, b, file_x, file_z, params, count - 1);
        if stored_chunk(a, chunk_x, chunk_z) != stored_chunk(b, chunk_x, chunk_z) {
            let in_a = stored_chunk(a, chunk_x, chunk_z).unwrap().unwrap();
            let in_b = stored_chunk(b, chunk_x, chunk_z).unwrap().unwrap();
            chunk_outside_the_request_is_skipped(in_a, file_x, file_z, chunk_x, chunk_z, params);
            chunk_outside_the_request_is_skipped(in_b, file_x, file_z, chunk_x, chunk_z, params);
        }
        assert(chunk_step(a, file_x, file_z, chunk_x, chunk_z, params) == chunk_step(
            b,
            file_x,
            file_z,
            chunk_x,
            chunk_z,
            params,
        ));
    }
}

/// Whether the span of file `file_c` fits the machine's integers.
pub fn check_file_index(file_c: isize) -> (fits: bool)
    ensures
        fits == file_index_fits(file_c as int),
{
    let wide = file_c as i128;
    (wide - 1) * 512 >= isize::MIN as i128 && (wide + 1) * 512 <= isize::MAX as i128
}

/// The solid blocks inside the request of one decoded-to-be chunk.
pub fn read_chunk_data(data: &Vec<u8>, window: &Window, params: &ExportParams) -> (voxels: Result<
    Vec<BlockCoordinates>,
    ReadError,
>)
    requires
        window.fits(),
    ensures
        match voxels {
            Ok(found) => chunk_result(data@, *window, params@) == Ok::<
                Seq<BlockCoordinates>,
                ReadError,
            >(found@),
            Err(error) => chunk_result(data@, *window, params@) == Err::<
                Seq<BlockCoordinates>,
                ReadError,
            >(error),
        },
{
    if !chunk_overlaps(window) {
        return Ok(Vec::new());
    }
    if !is_tame_payload(data) {
        return Err(ReadError::Chunk);
    }
    match decode_chunk(data) {
        Err(_) => Err(ReadError::Chunk),
        Ok(chunk) => {
            match collect_chunk_voxels(
                &chunk,
                window,
                params.start.y,
                params.end.y,
                &params.skip_blocks,
            ) {
                None => Err(ReadError::Chunk),
                Some(found) => Ok(found),
            }
        },
    }
}

/// Reads one chunk of a file: its solid blocks inside the request.
fn read_file_chunk(
    bytes: &Vec<u8>,
    file_x: isize,
    file_z: isize,
    chunk_x: usize,
    chunk_z: usize,
    params: &ExportParams,
) -> (voxels: Result<Vec<BlockCoordinates>, ReadError>)
    requires
        file_index_fits(file_x as int),
        file_index_fits(file_z as int),
        chunk_x < 32,
        chunk_z < 32,
    ensures
        match voxels {
            Ok(found) => chunk_step(
                bytes@,
                file_x as int,
                file_z as int,
                chunk_x as int,
                chunk_z as int,
                params@,
            ) == Ok::<Seq<BlockCoordinates>, ReadError>(found@),
            Err(error) => chunk_step(
                bytes@,
                file_x as int,
                file_z as int,
                chunk_x as int,
                chunk_z as int,
                params@,
            ) == Err::<Seq<BlockCoordinates>, ReadError>(error),
        },
{
    if has_empty_chunk_record(bytes, chunk_x, chunk_z) {
        return Err(ReadError::Region);
    }
    match read_region_chunk(bytes, chunk_x, chunk_z) {
        Err(_) => Err(ReadError::Region),
        Ok(None) => Ok(Vec::new()),
        Ok(Some(data)) => {
            let x_bounds = chunk_coordinate_bounds(file_x, params.start.x, params.end.x);
            let z_bounds = chunk_coordinate_bounds(file_z, params.start.z, params.end.z);
            let window = Window {
                x_base: get_chunk_base(file_x, chunk_x),
                z_base: get_chunk_base(file_z, chunk_z),
                x_min: x_bounds.0,
                x_max: x_bounds.1,
                z_min: z_bounds.0,
                z_max: z_bounds.1,
            };
            assert(window == window_of(
                file_x as int,
                file_z as int,
                chunk_x as int,
                chunk_z as int,
                params@,
            ));
            read_chunk_data(&data, &window, params)
        },
    }
}

/// Reads one region file: the solid blocks inside the request, chunk by
/// chunk. The file's place in the file grid is read out of its name. The
/// first chunk that cannot be read or decoded ends the reading with an
/// error.
pub fn read_level_file(filename: &str, bytes: &Vec<u8>, params: &ExportParams) -> (voxels: Result<
    Vec<BlockCoordinates>,
    ReadError,
>)
    ensures
        match voxels {
            Ok(found) => file_voxels(filename@, bytes@, params@) == Ok::<
                Seq<BlockCoordinates>,
                ReadError,
            >(found@),
            Err(error) => file_voxels(filename@, bytes@, params@) == Err::<
                Seq<BlockCoordinates>,
                ReadError,
            >(error),
        },
{
    let (file_x, file_z) = match get_file_coordinates(filename) {
        None => {
            return Err(ReadError::FileName);
        },
        Some(place) => place,
    };
    if !check_file_index(file_x) || !check_file_index(file_z) {
        return Err(ReadError::FileIndex);
    }
    let mut voxels: Vec<BlockCoordinates> = Vec::new();
    let mut index: usize = 0;
    while index < 1024
        invariant
            index <= 1024,
            parse_file_coordinates(filename@) == Some((file_x, file_z)),
            file_index_fits(file_x as int),
            file_index_fits(file_z as int),
            file_scan(bytes@, file_x as int, file_z as int, params@, index as int) == Ok::<
                Seq<BlockCoordinates>,
                ReadError,
            >(voxels@),
        decreases 1024 - index,
    {
        let chunk_x = index % 32;
        let chunk_z = index / 32;
        match read_file_chunk(bytes, file_x, file_z, chunk_x, chunk_z, params) {
            Err(error) => {
                proof {
                    assert(file_scan(bytes@, file_x as int, file_z as int, params@, index + 1)
                        == Err::<Seq<BlockCoordinates>, ReadError>(error));
                    lemma_scan_error_stays(
                        bytes@,
                        file_x as int,
                        file_z as int,
                        params@,
                        index + 1,
                        1024,
                    );
                }
                return Err(error);
            },
            Ok(mut found) => {
                voxels.append(&mut found);
            },
        }
        index += 1;
    }
    Ok(voxels)
}

/// An error in the first chunks of a file is the error of the whole file.
proof fn lemma_scan_error_stays(
    bytes: Seq<u8>,
    file_x: int,
    file_z: int,
    params: ParamsView,
    failed: int,
    count: int,
)
    requires
        0 < failed <= count,
        file_scan(bytes, file_x, file_z, params, failed) is Err,
    ensures
        file_scan(bytes, file_x, file_z, params, count) == file_scan(
            bytes,
            file_x,
            file_z,
            params,
            failed,
        ),
    decreases count - failed,
{
    if failed < count {
        lemma_scan_error_stays(bytes, file_x, file_z, params, failed, count - 1);
    }
}

// ---------------------------------------------------------------------------
// The level
// ---------------------------------------------------------------------------

/// One file of a level directory: its name and what it holds.
#[derive(Clone, Debug)]
pub struct LevelFile {
    pub name: String,
    pub bytes: Vec<u8>,
}

/// A file as plain values.
pub ghost struct LevelFileView {
    pub name: Seq<char>,
    pub bytes: Seq<u8>,
}

impl View for LevelFile {
    type V = LevelFileView;

    open spec fn view(&self) -> LevelFileView {
        LevelFileView { name: self.name@, bytes: self.bytes@ }
    }
}

/// What each file of a list is.
pub open spec fn file_views(files: Seq<LevelFile>) -> Seq<LevelFileView> {
    Seq::new(files.len(), |i: int| files[i]@)
}

/// The place of the first file at or behind `from` with the given name, or
/// the number of files where there is none.
pub open spec fn file_position(files: Seq<LevelFileView>, name: Seq<char>, from: int) -> int
    decreases files.len() - from,
{
    if from < 0 || from >= files.len() {
        files.len() as int
    } else if files[from].name == name {
        from
    } else {
        file_position(files, name, from + 1)
    }
}

/// The solid blocks inside the request of the needed file with the given
/// name: the file must be there and must not be empty.
pub open spec fn needed_file_voxels(files: Seq<LevelFileView>, name: Seq<char>, params: ParamsView) -> Result<
    Seq<BlockCoordinates>,
    ReadError,
> {
    let at = file_position(files, name, 0);
    if at >= files.len() || files[at].bytes.len() == 0 {
        Err(ReadError::MissingFile)
    } else {
        file_voxels(name, files[at].bytes, params)
    }
}

/// The result for the first `count` of the needed files; the first error
/// ends it.
pub open spec fn level_scan(
    files: Seq<LevelFileView>,
    names: Seq<Seq<char>>,
    params: ParamsView,
    count: int,
) -> Result<Seq<BlockCoordinates>, ReadError>
    decreases count,
{
    if count <= 0 {
        Ok(Seq::empty())
    } else {
        match level_scan(files, names, params, count - 1) {
            Err(error) => Err(error),
            Ok(before) => match needed_file_voxels(files, names[count - 1], params) {
                Err(error) => Err(error),
                Ok(found) => Ok(before + found),
            },
        }
    }
}

/// The solid blocks of a level inside the request: those of every file that
/// the request needs, file by file in the order of their names.
pub open spec fn level_voxels(files: Seq<LevelFileView>, params: ParamsView) -> Result<
    Seq<BlockCoordinates>,
    ReadError,
> {
    let names = needed_file_names(
        params.start.x as int,
        params.start.z as int,
        params.end.x as int,
        params.end.z as int,
    );
    level_scan(files, names, params, names.len() as int)
}

/// Whether a file of the level directory has to be opened: it is not empty
/// and its name is one of the needed names.
pub fn is_needed_file(needed_files: &Vec<String>, filename: &str, size: u64) -> (needed: bool)
    ensures
        needed == (size > 0 && string_views(needed_files@).contains(filename@)),
{
    if size == 0 {
        return false;
    }
    let name = String::from_str(filename);
    let mut i: usize = 0;
    while i < needed_files.len()
        invariant
            i <= needed_files.len(),
            size > 0,
            name@ == filename@,
            forall|j: int| 0 <= j < i ==> string_views(needed_files@)[j] != filename@,
        decreases needed_files.len() - i,
    {
        if needed_files[i] == name {
            assert(string_views(needed_files@)[i as int] == filename@);
            return true;
        }
        i += 1;
    }
    false
}

/// Finds the first file with the given name.
fn find_file(files: &Vec<LevelFile>, name: &String) -> (at: usize)
    ensures
        at == file_position(file_views(files@), name@, 0),
        at <= files.len(),
{
    let mut i: usize = 0;
    while i < files.len()
        invariant
            i <= files.len(),
            file_position(file_views(files@), name@, i as int) == file_position(
                file_views(files@),
                name@,
                0,
            ),
        decreases files.len() - i,
    {
        if files[i].name == *name {
            return i;
        }
        i += 1;
    }
    i
}

/// Reads a level from the files of its directory: the solid blocks inside
/// the request, from every file that the request needs. A needed file that
/// is not among `files`, or is empty, is an error, and so is the first file
/// that cannot be read.
pub fn read_level(files: &Vec<LevelFile>, params: &ExportParams) -> (voxels: Result<
    Vec<BlockCoordinates>,
    ReadError,
>)
    ensures
        match voxels {
            Ok(found) => level_voxels(file_views(files@), params@) == Ok::<
                Seq<BlockCoordinates>,
                ReadError,
            >(found@),
            Err(error) => level_voxels(file_views(files@), params@) == Err::<
                Seq<BlockCoordinates>,
                ReadError,
            >(error),
        },
{
    let needed_files = get_needed_filenames(params);
    let ghost names = string_views(needed_files@);
    let ghost listed = file_views(files@);
    let mut all_voxels: Vec<BlockCoordinates> = Vec::new();
    let mut n: usize = 0;
    while n < needed_files.len()
        invariant
            n <= needed_files.len(),
            names == string_views(needed_files@),
            names == needed_file_names(
                params.start.x as int,
                params.start.z as int,
                params.end.x as int,
                params.end.z as int,
            ),
            listed == file_views(files@),
            level_scan(listed, names, params@, n as int) == Ok::<
                Seq<BlockCoordinates>,
                ReadError,
            >(all_voxels@),
        decreases needed_files.len() - n,
    {
        let name = &needed_files[n];
        assert(names[n as int] == name@);
        let at = find_file(files, name);
        let found = if at >= files.len() || files[at].bytes.len() == 0 {
            Err(ReadError::MissingFile)
        } else {
            read_level_file(name.as_str(), &files[at].bytes, params)
        };
        match found {
            Err(error) => {
                proof {
                    assert(level_scan(listed, names, params@, n + 1) == Err::<
                        Seq<BlockCoordinates>,
                        ReadError,
                    >(error));
                    lemma_level_error_stays(listed, names, params@, n + 1, names.len() as int);
                }
                return Err(error);
            },
            Ok(mut voxels) => {
                all_voxels.append(&mut voxels);
            },
        }
        n += 1;
    }
    Ok(all_voxels)
}

/// An error in the first files of a level is the error of the whole level.
proof fn lemma_level_error_stays(
    files: Seq<LevelFileView>,
    names: Seq<Seq<char>>,
    params: ParamsView,
    failed: int,
    count: int,
)
    requires
        0 < failed <= count,
        level_scan(files, names, params, failed) is Err,
    ensures
        level_scan(files, names, params, count) == level_scan(files, names, params, failed),
    decreases count - failed,
{
    if failed < count {
        lemma_level_error_stays(files, names, params, failed, count - 1);
    }
}

/// The lists of `parts`, one behind the other.
pub open spec fn joined(parts: Seq<Seq<BlockCoordinates>>) -> Seq<BlockCoordinates>
    decreases parts.len(),
{
    if parts.len() == 0 {
        Seq::empty()
    } else {
        joined(parts.drop_last()) + parts.last()
    }
}

/// What each list of a list holds.
pub open spec fn part_views(parts: Seq<Vec<BlockCoordinates>>) -> Seq<Seq<BlockCoordinates>> {
    Seq::new(parts.len(), |i: int| parts[i]@)
}

/// Puts the blocks found in several files into one list, in the order in
/// which the lists are handed over.
pub fn collect_voxels(parts: Vec<Vec<BlockCoordinates>>) -> (all_voxels: Vec<BlockCoordinates>)
    ensures
        all_voxels@ == joined(part_views(parts@)),
{
    let mut parts = parts;
    let ghost given = part_views(parts@);
    let mut all_voxels: Vec<BlockCoordinates> = Vec::new();
    let mut i: usize = 0;
    while i < parts.len()
        invariant
            i <= parts.len(),
            parts@.len() == given.len(),
            forall|j: int| i <= j < parts.len() ==> parts@[j]@ == given[j],
            all_voxels@ == joined(given.take(i as int)),
        decreases parts.len() - i,
    {
        let ghost before = parts@;
        all_voxels.append(&mut parts[i]);
        assert(given.take(i + 1).drop_last() == given.take(i as int));
        i += 1;
    }
    assert(given.take(given.len() as int) == given);
    all_voxels
}


/// One entry of a level directory: the name of a file and its size in bytes.
#[derive(Clone, Debug)]
pub struct ListedFile {
    pub name: String,
    pub size: u64,
}

/// An entry as plain values.
pub ghost struct ListedFileView {
    pub name: Seq<char>,
    pub size: u64,
}

impl View for ListedFile {
    type V = ListedFileView;

    open spec fn view(&self) -> ListedFileView {
        ListedFileView { name: self.name@, size: self.size }
    }
}

/// What each entry of a list is.
pub open spec fn listed_views(listed: Seq<ListedFile>) -> Seq<ListedFileView> {
    Seq::new(listed.len(), |i: int| listed[i]@)
}

/// The directory holds a file of that name that is not empty.
pub open spec fn is_there(listed: Seq<ListedFileView>, name: Seq<char>) -> bool {
    exists|k: int| 0 <= k < listed.len() && (#[trigger] listed[k]).name == name && listed[k].size > 0
}

/// Whether the directory holds a file of that name that is not empty.
pub fn is_listed(listed: &Vec<ListedFile>, name: &String) -> (there: bool)
    ensures
        there == is_there(listed_views(listed@), name@),
{
    let mut k: usize = 0;
    while k < listed.len()
        invariant
            k <= listed.len(),
            forall|j: int|
                0 <= j < k ==> !((#[trigger] listed_views(listed@)[j]).name == name@
                    && listed_views(listed@)[j].size > 0),
        decreases listed.len() - k,
    {
        if listed[k].size > 0 && listed[k].name == *name {
            assert(listed_views(listed@)[k as int].name == name@);
            return true;
        }
        k += 1;
    }
    false
}

/// The first of the needed files that the directory lacks: the place, among
/// the needed names, of the first name under which the directory holds no
/// file that is not empty. `None` where every needed file is there.
pub fn find_missing_file(needed_files: &Vec<String>, listed: &Vec<ListedFile>) -> (missing: Option<
    usize,
>)
    ensures
        match missing {
            Some(i) => {
                &&& i < needed_files.len()
                &&& !is_there(listed_views(listed@), string_views(needed_files@)[i as int])
                &&& forall|j: int|
                    0 <= j < i ==> is_there(
                        listed_views(listed@),
                        #[trigger] string_views(needed_files@)[j],
                    )
            },
            None => forall|j: int|
                0 <= j < needed_files.len() ==> is_there(
                    listed_views(listed@),
                    #[trigger] string_views(needed_files@)[j],
                ),
        },
{
    let mut i: usize = 0;
    while i < needed_files.len()
        invariant
            i <= needed_files.len(),
            forall|j: int|
                0 <= j < i ==> is_there(
                    listed_views(listed@),
                    #[trigger] string_views(needed_files@)[j],
                ),
        decreases needed_files.len() - i,
    {
        if !is_listed(listed, &needed_files[i]) {
            return Some(i);
        }
        i += 1;
    }
    None
}

} // verus!
