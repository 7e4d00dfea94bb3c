//! Leaving kinds of block out: the result is the result with nothing left
//! out, without the blocks of those kinds; leaving out the one kind that a
//! request holds gives nothing.

use crate::chunk::{
    air, chunk_voxels, column_voxels, decoded_chunk, layer_broken, layer_readable, layer_voxels,
    skipping_the_only_kind_gives_nothing, world_position, Window,
};
use crate::coordinates::BlockCoordinates;
use crate::file_name::parse_file_coordinates;
use crate::nbt::payload_is_tame;
use crate::params::ParamsView;
use crate::read::{
    chunk_result, chunk_step, file_index_fits, file_position, file_scan, file_voxels, level_scan,
    level_voxels, needed_file_names, needed_file_voxels, overlaps, window_of, LevelFileView,
    ReadError,
};
use crate::region::{has_empty_record, stored_chunk};
use vstd::prelude::*;

verus! {

/// The request with one more kind of block left out.
pub open spec fn with_skip(params: ParamsView, kind: Seq<char>) -> ParamsView {
    ParamsView { start: params.start, end: params.end, skip_blocks: params.skip_blocks.push(kind) }
}

/// Every block that the chunk with these bytes gives inside the request is of
/// the kind `kind`.
pub open spec fn chunk_is_all(data: Seq<u8>, window: Window, params: ParamsView, kind: Seq<char>) -> bool {
    decoded_chunk(data) matches Some(content) ==> forall|x: int, y: int, z: int|
        0 <= x < 16 && 0 <= z < 16 && params.start.y <= y <= params.end.y && window.holds(x, z)
            && content.0.contains_key((x, y, z)) ==> #[trigger] content.0[(x, y, z)] == kind
}

/// Every block that the file with these bytes gives inside the request is of
/// the kind `kind`.
pub open spec fn file_is_all(
    bytes: Seq<u8>,
    file_x: int,
    file_z: int,
    params: ParamsView,
    kind: Seq<char>,
) -> bool {
    forall|chunk_x: int, chunk_z: int|
        0 <= chunk_x < 32 && 0 <= chunk_z < 32 ==> (#[trigger] stored_chunk(bytes, chunk_x, chunk_z)
            matches Some(Some(data)) ==> chunk_is_all(
            data,
            window_of(file_x, file_z, chunk_x, chunk_z, params),
            params,
            kind,
        ))
}

/// Every block that the needed files of the level give inside the request is
/// of the kind `kind`.
pub open spec fn level_is_all(files: Seq<LevelFileView>, params: ParamsView, kind: Seq<char>) -> bool {
    forall|i: int|
        0 <= i < files.len() ==> (parse_file_coordinates((#[trigger] files[i]).name) matches Some(
            place,
        ) ==> file_is_all(files[i].bytes, place.0 as int, place.1 as int, params, kind))
}

/// A chunk of one kind gives nothing once that kind is left out.
proof fn lemma_chunk_empties(data: Seq<u8>, window: Window, params: ParamsView, kind: Seq<char>)
    requires
        chunk_is_all(data, window, params, kind),
        chunk_result(data, window, with_skip(params, kind)) is Ok,
    ensures
        chunk_result(data, window, with_skip(params, kind)) == Ok::<
            Seq<BlockCoordinates>,
            ReadError,
        >(Seq::empty()),
{
    if overlaps(window) {
        let content = decoded_chunk(data).unwrap();
        skipping_the_only_kind_gives_nothing(
            content.0,
            content.1,
            params.skip_blocks,
            kind,
            window,
            params.start.y as int,
            params.end.y - params.start.y + 1,
        );
    }
}

/// The chunks of a file of one kind give nothing once that kind is left out.
proof fn lemma_file_scan_empties(
    bytes: Seq<u8>,
    file_x: int,
    file_z: int,
    params: ParamsView,
    kind: Seq<char>,
    count: int,
)
    requires
        0 <= count <= 1024,
        file_is_all(bytes, file_x, file_z, params, kind),
        file_scan(bytes, file_x, file_z, with_skip(params, kind), count) is Ok,
    ensures
        file_scan(bytes, file_x, file_z, with_skip(params, kind), count) == Ok::<
            Seq<BlockCoordinates>,
            ReadError,
        >(Seq::empty()),
    decreases count,
{
    if count > 0 {
        let chunk_x = (count - 1) % 32;
        let chunk_z = (count - 1) / 32;
        lemma_file_scan_empties(bytes, file_x, file_z, params, kind, count - 1);
        let step = chunk_step(bytes, file_x, file_z, chunk_x, chunk_z, with_skip(params, kind));
        assert(step is Ok);
        match stored_chunk(bytes, chunk_x, chunk_z) {
            Some(Some(data)) => {
                assert(window_of(file_x, file_z, chunk_x, chunk_z, with_skip(params, kind))
                    == window_of(file_x, file_z, chunk_x, chunk_z, params));
                lemma_chunk_empties(
                    data,
                    window_of(file_x, file_z, chunk_x, chunk_z, params),
                    params,
                    kind,
                );
            },
            _ => {},
        }
        assert(step == Ok::<Seq<BlockCoordinates>, ReadError>(Seq::empty()));
        assert(Seq::<BlockCoordinates>::empty() + Seq::<BlockCoordinates>::empty()
            == Seq::<BlockCoordinates>::empty());
    }
}

/// The files of a level of one kind give nothing once that kind is left
/// out.
proof fn lemma_level_scan_empties(
    files: Seq<LevelFileView>,
    names: Seq<Seq<char>>,
    params: ParamsView,
    kind: Seq<char>,
    count: int,
)
    requires
        0 <= count <= names.len(),
        level_is_all(files, params, kind),
        level_scan(files, names, with_skip(params, kind), count) is Ok,
    ensures
        level_scan(files, names, with_skip(params, kind), count) == Ok::<
            Seq<BlockCoordinates>,
            ReadError,
        >(Seq::empty()),
    decreases count,
{
    if count > 0 {
        lemma_level_scan_empties(files, names, params, kind, count - 1);
        let name = names[count - 1];
        let at = file_position(files, name, 0);
        let found = needed_file_voxels(files, name, with_skip(params, kind));
        assert(found is Ok);
        lemma_file_position(files, name, 0);
        let place = parse_file_coordinates(name).unwrap();
        assert(files[at].name == name);
        lemma_file_scan_empties(
            files[at].bytes,
            place.0 as int,
            place.1 as int,
            params,
            kind,
            1024,
        );
        assert(found == Ok::<Seq<BlockCoordinates>, ReadError>(Seq::empty()));
        assert(Seq::<BlockCoordinates>::empty() + Seq::<BlockCoordinates>::empty()
            == Seq::<BlockCoordinates>::empty());
    }
}

/// The file at the position of a name has that name.
proof fn lemma_file_position(files: Seq<LevelFileView>, name: Seq<char>, from: int)
    requires
        0 <= from <= files.len(),
    ensures
        from <= file_position(files, name, from) <= files.len(),
        file_position(files, name, from) < files.len() ==> files[file_position(
            files,
            name,
            from,
        )].name == name,
    decreases files.len() - from,
{
    if from < files.len() && files[from].name != name {
        lemma_file_position(files, name, from + 1);
    }
}

/// Reading one file with a kind of block left out that every block of the
/// file inside the request has gives no block.
pub proof fn skipping_the_only_kind_empties_a_file(
    name: Seq<char>,
    bytes: Seq<u8>,
    params: ParamsView,
    kind: Seq<char>,
)
    requires
        parse_file_coordinates(name) matches Some(place) ==> file_is_all(
            bytes,
            place.0 as int,
            place.1 as int,
            params,
            kind,
        ),
        file_voxels(name, bytes, with_skip(params, kind)) is Ok,
    ensures
        file_voxels(name, bytes, with_skip(params, kind)) == Ok::<
            Seq<BlockCoordinates>,
            ReadError,
        >(Seq::empty()),
{
    let place = parse_file_coordinates(name).unwrap();
    lemma_file_scan_empties(bytes, place.0 as int, place.1 as int, params, kind, 1024);
}

/// Reading a level with a kind of block left out that every block inside the
/// request has gives no block; the request without that kind is the request
/// as it was, and so gives the list as it was.
pub proof fn skipping_the_only_kind_empties_the_level(
    files: Seq<LevelFileView>,
    params: ParamsView,
    kind: Seq<char>,
)
    requires
        level_is_all(files, params, kind),
        level_voxels(files, with_skip(params, kind)) is Ok,
    ensures
        level_voxels(files, with_skip(params, kind)) == Ok::<Seq<BlockCoordinates>, ReadError>(
            Seq::empty(),
        ),
        with_skip(params, kind).skip_blocks.drop_last() == params.skip_blocks,
{
    let names = needed_file_names(
        params.start.x as int,
        params.start.z as int,
        params.end.x as int,
        params.end.z as int,
    );
    lemma_level_scan_empties(files, names, params, kind, names.len() as int);
}

// ---------------------------------------------------------------------------
// Leaving kinds out is a filter
// ---------------------------------------------------------------------------

/// A block of the result with the identifier of its kind.
pub type Named = (BlockCoordinates, Seq<char>);

/// The positions of the named blocks whose kind is not left out, in their
/// order.
pub open spec fn kept(named: Seq<Named>, skip: Seq<Seq<char>>) -> Seq<BlockCoordinates>
    decreases named.len(),
{
    if named.len() == 0 {
        Seq::empty()
    } else {
        let rest = kept(named.drop_last(), skip);
        if skip.contains(named.last().1) {
            rest
        } else {
            rest.push(named.last().0)
        }
    }
}

/// The positions of what was read, without the kinds left out; an error
/// stays the error.
pub open spec fn kept_of(read: Result<Seq<Named>, ReadError>, skip: Seq<Seq<char>>) -> Result<
    Seq<BlockCoordinates>,
    ReadError,
> {
    match read {
        Ok(named) => Ok(kept(named, skip)),
        Err(error) => Err(error),
    }
}

/// The request with nothing left out.
pub open spec fn with_all(params: ParamsView) -> ParamsView {
    ParamsView { start: params.start, end: params.end, skip_blocks: Seq::empty() }
}

/// The block at `(x, y, z)` of the chunk lies inside the request and is not
/// air.
pub open spec fn is_named(
    blocks: Map<(int, int, int), Seq<char>>,
    window: Window,
    x: int,
    y: int,
    z: int,
) -> bool {
    &&& window.holds(x, z)
    &&& blocks.contains_key((x, y, z))
    &&& blocks[(x, y, z)] != air()
}

/// The blocks at `(x, y)` of the chunk inside the request that are not air,
/// with z below `z_count`, each with its kind.
pub open spec fn column_named(
    blocks: Map<(int, int, int), Seq<char>>,
    window: Window,
    x: int,
    y: int,
    z_count: int,
) -> Seq<Named>
    decreases z_count,
{
    if z_count <= 0 {
        Seq::empty()
    } else {
        let before = column_named(blocks, window, x, y, z_count - 1);
        if is_named(blocks, window, x, y, z_count - 1) {
            before.push((world_position(window, x, y, z_count - 1), blocks[(x, y, z_count - 1)]))
        } else {
            before
        }
    }
}

/// The blocks of layer `y` of the chunk inside the request that are not air,
/// with x below `x_count`, each with its kind.
pub open spec fn layer_named(
    blocks: Map<(int, int, int), Seq<char>>,
    window: Window,
    y: int,
    x_count: int,
) -> Seq<Named>
    decreases x_count,
{
    if x_count <= 0 {
        Seq::empty()
    } else {
        layer_named(blocks, window, y, x_count - 1) + column_named(
            blocks,
            window,
            x_count - 1,
            y,
            16,
        )
    }
}

/// The blocks of `y_count` layers of the chunk inside the request that are
/// not air, each with its kind; nothing where a layer is broken.
pub open spec fn chunk_named(
    blocks: Map<(int, int, int), Seq<char>>,
    sections: Map<int, (nat, Option<nat>)>,
    window: Window,
    y_first: int,
    y_count: int,
) -> Option<Seq<Named>>
    decreases y_count,
{
    if y_count <= 0 {
        Some(Seq::empty())
    } else {
        let y = y_first + y_count - 1;
        match chunk_named(blocks, sections, window, y_first, y_count - 1) {
            None => None,
            Some(before) => if layer_broken(sections, y) {
                None
            } else if layer_readable(sections, y) {
                Some(before + layer_named(blocks, window, y, 16))
            } else {
                Some(before)
            },
        }
    }
}

/// What the chunk with the given bytes holds inside the request, each block
/// with its kind.
pub open spec fn chunk_result_named(data: Seq<u8>, window: Window, params: ParamsView) -> Result<
    Seq<Named>,
    ReadError,
> {
    if !overlaps(window) {
        Ok(Seq::empty())
    } else if !payload_is_tame(data) {
        Err(ReadError::Chunk)
    } else {
        match decoded_chunk(data) {
            None => Err(ReadError::Chunk),
            Some(content) => match chunk_named(
                content.0,
                content.1,
                window,
                params.start.y as int,
                params.end.y - params.start.y + 1,
            ) {
                None => Err(ReadError::Chunk),
                Some(found) => Ok(found),
            },
        }
    }
}

/// What chunk `(chunk_x, chunk_z)` of a file holds inside the request, each
/// block with its kind.
pub open spec fn chunk_step_named(
    bytes: Seq<u8>,
    file_x: int,
    file_z: int,
    chunk_x: int,
    chunk_z: int,
    params: ParamsView,
) -> Result<Seq<Named>, ReadError> {
    if has_empty_record(bytes, chunk_x, chunk_z) {
        Err(ReadError::Region)
    } else {
        match stored_chunk(bytes, chunk_x, chunk_z) {
            None => Err(ReadError::Region),
            Some(None) => Ok(Seq::empty()),
            Some(Some(data)) => chunk_result_named(
                data,
                window_of(file_x, file_z, chunk_x, chunk_z, params),
                params,
            ),
        }
    }
}

/// What the first `count` chunks of a file hold inside the request, each
/// block with its kind.
pub open spec fn file_scan_named(
    bytes: Seq<u8>,
    file_x: int,
    file_z: int,
    params: ParamsView,
    count: int,
) -> Result<Seq<Named>, ReadError>
    decreases count,
{
    if count <= 0 {
        Ok(Seq::empty())
    } else {
        match file_scan_named(bytes, file_x, file_z, params, count - 1) {
            Err(error) => Err(error),
            Ok(before) => match chunk_step_named(
                bytes,
                file_x,
                file_z,
                (count - 1) % 32,
                (count - 1) / 32,
                params,
            ) {
                Err(error) => Err(error),
                Ok(found) => Ok(before + found),
            },
        }
    }
}

/// What one region file holds inside the request, each block with its kind.
pub open spec fn file_named(name: Seq<char>, bytes: Seq<u8>, params: ParamsView) -> Result<
    Seq<Named>,
    ReadError,
> {
    match parse_file_coordinates(name) {
        None => Err(ReadError::FileName),
        Some(place) => if !file_index_fits(place.0 as int) || !file_index_fits(place.1 as int) {
            Err(ReadError::FileIndex)
        } else {
            file_scan_named(bytes, place.0 as int, place.1 as int, params, 1024)
        },
    }
}

/// What the needed file with the given name holds inside the request.
pub open spec fn needed_file_named(
    files: Seq<LevelFileView>,
    name: Seq<char>,
    params: ParamsView,
) -> Result<Seq<Named>, ReadError> {
    let at = file_position(files, name, 0);
    if at >= files.len() || files[at].bytes.len() == 0 {
        Err(ReadError::MissingFile)
    } else {
        file_named(name, files[at].bytes, params)
    }
}

/// What the first `count` of the needed files hold inside the request.
pub open spec fn level_scan_named(
    files: Seq<LevelFileView>,
    names: Seq<Seq<char>>,
    params: ParamsView,
    count: int,
) -> Result<Seq<Named>, ReadError>
    decreases count,
{
    if count <= 0 {
        Ok(Seq::empty())
    } else {
        match level_scan_named(files, names, params, count - 1) {
            Err(error) => Err(error),
            Ok(before) => match needed_file_named(files, names[count - 1], params) {
                Err(error) => Err(error),
                Ok(found) => Ok(before + found),
            },
        }
    }
}

/// The blocks of a level inside the request that are not air, each with its
/// kind. The kinds that the request leaves out play no part in it.
pub open spec fn level_named(files: Seq<LevelFileView>, params: ParamsView) -> Result<
    Seq<Named>,
    ReadError,
> {
    let names = needed_file_names(
        params.start.x as int,
        params.start.z as int,
        params.end.x as int,
        params.end.z as int,
    );
    level_scan_named(files, names, with_all(params), names.len() as int)
}

/// Keeping from two lists, one behind the other, is keeping from each.
pub proof fn lemma_kept_joins(a: Seq<Named>, b: Seq<Named>, skip: Seq<Seq<char>>)
    ensures
        kept(a + b, skip) == kept(a, skip) + kept(b, skip),
    decreases b.len(),
{
    if b.len() == 0 {
        assert(a + b == a);
    } else {
        lemma_kept_joins(a, b.drop_last(), skip);
        assert((a + b).drop_last() == a + b.drop_last());
        assert((a + b).last() == b.last());
    }
}

/// With nothing left out, every named block is kept.
pub proof fn nothing_left_out_keeps_every_block(named: Seq<Named>)
    ensures
        kept(named, Seq::empty()) == Seq::new(named.len(), |i: int| named[i].0),
    decreases named.len(),
{
    if named.len() > 0 {
        nothing_left_out_keeps_every_block(named.drop_last());
        assert(!Seq::<Seq<char>>::empty().contains(named.last().1));
    }
}

/// A position is kept if and only if a named block of a kind that is not
/// left out stands there.
pub proof fn kept_are_the_blocks_of_other_kinds(named: Seq<Named>, skip: Seq<Seq<char>>, p: BlockCoordinates)
    ensures
        kept(named, skip).contains(p) <==> exists|i: int|
            0 <= i < named.len() && (#[trigger] named[i]).0 == p && !skip.contains(named[i].1),
    decreases named.len(),
{
    let found = kept(named, skip);
    if named.len() > 0 {
        let head = named.drop_last();
        let rest = kept(head, skip);
        kept_are_the_blocks_of_other_kinds(head, skip, p);
        if found.contains(p) {
            let k = choose|k: int| 0 <= k < found.len() && found[k] == p;
            if k < rest.len() {
                assert(rest[k] == p);
                assert(rest.contains(p));
                let i = choose|i: int|
                    0 <= i < head.len() && (#[trigger] head[i]).0 == p && !skip.contains(head[i].1);
                assert(named[i].0 == p);
            } else {
                assert(named[named.len() - 1].0 == p);
            }
        }
        if exists|i: int|
            0 <= i < named.len() && (#[trigger] named[i]).0 == p && !skip.contains(named[i].1) {
            let i = choose|i: int|
                0 <= i < named.len() && (#[trigger] named[i]).0 == p && !skip.contains(named[i].1);
            if i < head.len() {
                assert(head[i].0 == p);
                assert(rest.contains(p));
                let k = choose|k: int| 0 <= k < rest.len() && rest[k] == p;
                assert(found[k] == p);
            } else {
                assert(found[found.len() - 1] == p);
            }
        }
    }
}

/// A column of the result is what is kept of the column's named blocks.
proof fn lemma_column_kept(
    blocks: Map<(int, int, int), Seq<char>>,
    skip: Seq<Seq<char>>,
    window: Window,
    x: int,
    y: int,
    z_count: int,
)
    ensures
        column_voxels(blocks, skip, window, x, y, z_count) == kept(
            column_named(blocks, window, x, y, z_count),
            skip,
        ),
    decreases z_count,
{
    if z_count > 0 {
        lemma_column_kept(blocks, skip, window, x, y, z_count - 1);
        let before = column_named(blocks, window, x, y, z_count - 1);
        if is_named(blocks, window, x, y, z_count - 1) {
            let entry = (world_position(window, x, y, z_count - 1), blocks[(x, y, z_count - 1)]);
            assert(before.push(entry).drop_last() == before);
            assert(before.push(entry).last() == entry);
        }
    }
}

/// A layer of the result is what is kept of the layer's named blocks.
proof fn lemma_layer_kept(
    blocks: Map<(int, int, int), Seq<char>>,
    skip: Seq<Seq<char>>,
    window: Window,
    y: int,
    x_count: int,
)
    ensures
        layer_voxels(blocks, skip, window, y, x_count) == kept(
            layer_named(blocks, window, y, x_count),
            skip,
        ),
    decreases x_count,
{
    if x_count > 0 {
        lemma_layer_kept(blocks, skip, window, y, x_count - 1);
        lemma_column_kept(blocks, skip, window, x_count - 1, y, 16);
        lemma_kept_joins(
            layer_named(blocks, window, y, x_count - 1),
            column_named(blocks, window, x_count - 1, y, 16),
            skip,
        );
    }
}

/// The result for a chunk is what is kept of the chunk's named blocks, and
/// is there exactly where those are.
pub proof fn lemma_chunk_kept(
    blocks: Map<(int, int, int), Seq<char>>,
    sections: Map<int, (nat, Option<nat>)>,
    skip: Seq<Seq<char>>,
    window: Window,
    y_first: int,
    y_count: int,
)
    ensures
        chunk_voxels(blocks, sections, skip, window, y_first, y_count) == match chunk_named(
            blocks,
            sections,
            window,
            y_first,
            y_count,
        ) {
            Some(named) => Some(kept(named, skip)),
            None => None,
        },
    decreases y_count,
{
    if y_count > 0 {
        let y = y_first + y_count - 1;
        lemma_chunk_kept(blocks, sections, skip, window, y_first, y_count - 1);
        lemma_layer_kept(blocks, skip, window, y, 16);
        match chunk_named(blocks, sections, window, y_first, y_count - 1) {
            Some(before) => {
                lemma_kept_joins(before, layer_named(blocks, window, y, 16), skip);
            },
            None => {},
        }
    }
}

/// The result for the first chunks of a file is what is kept of their named
/// blocks.
proof fn lemma_file_scan_kept(
    bytes: Seq<u8>,
    file_x: int,
    file_z: int,
    params: ParamsView,
    count: int,
)
    ensures
        file_scan(bytes, file_x, file_z, params, count) == kept_of(
            file_scan_named(bytes, file_x, file_z, with_all(params), count),
            params.skip_blocks,
        ),
    decreases count,
{
    if count > 0 {
        let chunk_x = (count - 1) % 32;
        let chunk_z = (count - 1) / 32;
        let bare = with_all(params);
        lemma_file_scan_kept(bytes, file_x, file_z, params, count - 1);
        let window = window_of(file_x, file_z, chunk_x, chunk_z, params);
        assert(window == window_of(file_x, file_z, chunk_x, chunk_z, bare));
        match stored_chunk(bytes, chunk_x, chunk_z) {
            Some(Some(data)) => {
                match decoded_chunk(data) {
                    Some(content) => {
                        lemma_chunk_kept(
                            content.0,
                            content.1,
                            params.skip_blocks,
                            window,
                            params.start.y as int,
                            params.end.y - params.start.y + 1,
                        );
                    },
                    None => {},
                }
                assert(chunk_result(data, window, params) == kept_of(
                    chunk_result_named(data, window, bare),
                    params.skip_blocks,
                ));
            },
            _ => {},
        }
        assert(chunk_step(bytes, file_x, file_z, chunk_x, chunk_z, params) == kept_of(
            chunk_step_named(bytes, file_x, file_z, chunk_x, chunk_z, bare),
            params.skip_blocks,
        ));
        match (
            file_scan_named(bytes, file_x, file_z, bare, count - 1),
            chunk_step_named(bytes, file_x, file_z, chunk_x, chunk_z, bare),
        ) {
            (Ok(before), Ok(found)) => {
                lemma_kept_joins(before, found, params.skip_blocks);
            },
            _ => {},
        }
    }
}

/// The result for the first needed files is what is kept of their named
/// blocks.
proof fn lemma_level_scan_kept(
    files: Seq<LevelFileView>,
    names: Seq<Seq<char>>,
    params: ParamsView,
    count: int,
)
    ensures
        level_scan(files, names, params, count) == kept_of(
            level_scan_named(files, names, with_all(params), count),
            params.skip_blocks,
        ),
    decreases count,
{
    if count > 0 {
        let bare = with_all(params);
        let name = names[count - 1];
        lemma_level_scan_kept(files, names, params, count - 1);
        leaving_kinds_out_filters_a_file(name, files[file_position(files, name, 0)].bytes, params);
        assert(needed_file_voxels(files, name, params) == kept_of(
            needed_file_named(files, name, bare),
            params.skip_blocks,
        ));
        match (
            level_scan_named(files, names, bare, count - 1),
            needed_file_named(files, name, bare),
        ) {
            (Ok(before), Ok(found)) => {
                lemma_kept_joins(before, found, params.skip_blocks);
            },
            _ => {},
        }
    }
}

/// Reading one file with kinds left out gives what reading it with nothing
/// left out holds, without the blocks of those kinds, and fails exactly
/// where that fails.
pub proof fn leaving_kinds_out_filters_a_file(name: Seq<char>, bytes: Seq<u8>, params: ParamsView)
    ensures
        file_voxels(name, bytes, params) == kept_of(
            file_named(name, bytes, with_all(params)),
            params.skip_blocks,
        ),
{
    match parse_file_coordinates(name) {
        Some(place) => {
            lemma_file_scan_kept(bytes, place.0 as int, place.1 as int, params, 1024);
            assert(with_all(with_all(params)) == with_all(params));
        },
        None => {},
    }
}

/// Reading a level with kinds left out gives what the level holds inside the
/// request, without the blocks of those kinds, and fails exactly where
/// reading with nothing left out fails. With nothing left out every block
/// that is not air is given, so leaving a kind in again restores the list,
/// and a kind that no block in the request has changes nothing.
pub proof fn leaving_kinds_out_filters_the_level(files: Seq<LevelFileView>, params: ParamsView)
    ensures
        level_voxels(files, params) == kept_of(level_named(files, params), params.skip_blocks),
        level_voxels(files, with_all(params)) == kept_of(
            level_named(files, params),
            Seq::empty(),
        ),
        level_named(files, with_all(params)) == level_named(files, params),
{
    let names = needed_file_names(
        params.start.x as int,
        params.start.z as int,
        params.end.x as int,
        params.end.z as int,
    );
    lemma_level_scan_kept(files, names, params, names.len() as int);
    lemma_level_scan_kept(files, names, with_all(params), names.len() as int);
    assert(with_all(with_all(params)) == with_all(params));
}

} // verus!
