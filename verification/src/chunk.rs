//! One decoded chunk: which of its blocks are solid and fall inside the
//! request.

use crate::coordinates::BlockCoordinates;
use crate::nbt::payload_is_tame;
use crate::params::string_views;
use fastanvil::CurrentJavaChunk;
use vstd::prelude::*;
use vstd::string::*;

verus! {

/// A decoded chunk of `fastanvil`, taken as it is: what it holds is named
/// by [`chunk_blocks`] and [`chunk_sections`].
#[verifier::external_type_specification]
#[verifier::external_body]
pub struct ExCurrentJavaChunk(CurrentJavaChunk);

/// The error of `fastnbt`, taken as it is.
#[verifier::external_type_specification]
#[verifier::external_body]
pub struct ExNbtError(fastnbt::error::Error);

/// The blocks of a decoded chunk: under `(x, y, z)`, with x and z inside the
/// chunk's footprint and y in world units, the identifier of the block that
/// the chunk gives for that place. Places for which it gives none have no
/// entry.
pub uninterp spec fn chunk_blocks(chunk: CurrentJavaChunk) -> Map<(int, int, int), Seq<char>>;

/// The sections of a decoded chunk: under the number of each section that
/// the chunk has (the y of its layers divided by 16, rounded down), the
/// length of its palette, and the number of block states that its packed
/// data yields, at most 4096, where it has packed data.
pub uninterp spec fn chunk_sections(chunk: CurrentJavaChunk) -> Map<int, (nat, Option<nat>)>;

/// What decoding a chunk's bytes gives: its blocks and its sections, or
/// nothing where the bytes do not decode.
pub uninterp spec fn decoded_chunk(data: Seq<u8>) -> Option<
    (Map<(int, int, int), Seq<char>>, Map<int, (nat, Option<nat>)>),
>;

/// The number of the section that holds layer `y`.
pub open spec fn section_of(y: int) -> int {
    y / 16
}

/// The chunk has the section of layer `y`, with a palette, and packed data,
/// if any, for all of its 4096 blocks: every block of the layer can be
/// looked up.
pub open spec fn layer_readable(sections: Map<int, (nat, Option<nat>)>, y: int) -> bool {
    &&& sections.contains_key(section_of(y))
    &&& sections[section_of(y)].0 >= 1
    &&& (sections[section_of(y)].1 is None || sections[section_of(y)].1 == Some(4096nat))
}

/// The section of layer `y` has a palette, but its packed data stops short.
pub open spec fn layer_broken(sections: Map<int, (nat, Option<nat>)>, y: int) -> bool {
    &&& sections.contains_key(section_of(y))
    &&& sections[section_of(y)].0 >= 1
    &&& sections[section_of(y)].1 is Some
    &&& sections[section_of(y)].1 != Some(4096nat)
}

/// `fastnbt::from_bytes` into a `CurrentJavaChunk`: the chunk that the bytes
/// decode to, or the decoder's error. The bytes must be tame: where the
/// decoder steps over a value that the chunk has no field for, it gives up
/// on a list of the kind `end` that claims elements, and it goes one call
/// deeper for every list and compound inside another.
#[verifier::external_body]
pub(crate) fn decode_chunk(data: &Vec<u8>) -> (decoded: Result<CurrentJavaChunk, fastnbt::error::Error>)
    requires
        payload_is_tame(data@),
    ensures
        match decoded {
            Ok(chunk) => decoded_chunk(data@) == Some((chunk_blocks(chunk), chunk_sections(chunk))),
            Err(_) => decoded_chunk(data@) is None,
        },
{
    fastnbt::from_bytes(data.as_slice())
}

/// `SectionTower::get_section_for_y` and `BlockData::palette`: the length of
/// the palette of the section that holds layer `y`, where the chunk has that
/// section.
#[verifier::external_body]
fn section_palette_len(chunk: &CurrentJavaChunk, y: isize) -> (len: Option<usize>)
    ensures
        match len {
            Some(n) => chunk_sections(*chunk).contains_key(section_of(y as int)) && chunk_sections(
                *chunk,
            )[section_of(y as int)].0 == n,
            None => !chunk_sections(*chunk).contains_key(section_of(y as int)),
        },
{
    let tower = chunk.sections.as_ref();
    let section = tower.and_then(|tower| tower.get_section_for_y(y));
    section.map(|section| section.block_states.palette().len())
}

/// `BlockData::try_iter_indices`, counted: the number of block states that
/// the packed data of the section that holds layer `y` yields, where it has
/// packed data. The section must have a palette: without one the crate
/// computes a bit width from a palette length of zero.
#[verifier::external_body]
fn section_packed_len(chunk: &CurrentJavaChunk, y: isize) -> (len: Option<usize>)
    requires
        chunk_sections(*chunk).contains_key(section_of(y as int)),
        chunk_sections(*chunk)[section_of(y as int)].0 >= 1,
    ensures
        match len {
            Some(n) => chunk_sections(*chunk)[section_of(y as int)].1 == Some(n as nat),
            None => chunk_sections(*chunk)[section_of(y as int)].1 is None,
        },
{
    let tower = chunk.sections.as_ref();
    let section = tower.and_then(|tower| tower.get_section_for_y(y));
    let states = section.and_then(|section| section.block_states.try_iter_indices());
    states.map(|states| states.count())
}

/// `Chunk::block` and `Block::name`: the identifier of the block at
/// `(x, y, z)`, where the chunk gives one. Where the chunk has the section
/// of layer `y`, it must be readable: the crate indexes the packed data
/// without a check.
#[verifier::external_body]
fn block_name_at(chunk: &CurrentJavaChunk, x: usize, y: isize, z: usize) -> (name: Option<String>)
    requires
        x < 16,
        z < 16,
        chunk_sections(*chunk).contains_key(section_of(y as int)) ==> layer_readable(
            chunk_sections(*chunk),
            y as int,
        ),
    ensures
        match name {
            Some(n) => chunk_blocks(*chunk).contains_key((x as int, y as int, z as int))
                && chunk_blocks(*chunk)[(x as int, y as int, z as int)] == n@,
            None => !chunk_blocks(*chunk).contains_key((x as int, y as int, z as int)),
        },
{
    fastanvil::Chunk::block(chunk, x, y, z).map(|block| block.name().to_string())
}

/// `Chunk::y_range`: the layers that the chunk spans, from the first up to
/// but not including the second. The chunk has no section for a layer
/// outside them.
#[verifier::external_body]
fn chunk_height(chunk: &CurrentJavaChunk) -> (height: (isize, isize))
    ensures
        forall|y: int|
            chunk_sections(*chunk).contains_key(#[trigger] section_of(y)) ==> height.0 <= y
                < height.1,
{
    let range = fastanvil::Chunk::y_range(chunk);
    (range.start, range.end)
}

/// The identifier of a block of air.
pub open spec fn air() -> Seq<char> {
    "minecraft:air"@
}

/// A block counts as solid: it is not air and its identifier is not among
/// those to leave out.
pub open spec fn is_solid(name: Seq<char>, skip: Seq<Seq<char>>) -> bool {
    name != air() && !skip.contains(name)
}

/// Whether a block with the identifier `name` counts as solid when the kinds
/// in `skip` are left out.
pub fn is_solid_block(name: &String, skip: &Vec<String>) -> (solid: bool)
    ensures
        solid == is_solid(name@, string_views(skip@)),
{
    let air = String::from_str("minecraft:air");
    if *name == air {
        return false;
    }
    let mut i: usize = 0;
    while i < skip.len()
        invariant
            i <= skip.len(),
            forall|j: int| 0 <= j < i ==> string_views(skip@)[j] != name@,
        decreases skip.len() - i,
    {
        if skip[i] == *name {
            assert(string_views(skip@)[i as int] == name@);
            return false;
        }
        i += 1;
    }
    true
}

/// Where a chunk lies and which blocks of it the request touches: the world
/// coordinates of the chunk's first block, and the inclusive range of world
/// coordinates asked for on each horizontal axis.
#[derive(Clone, Copy, Debug, PartialEq, Eq, Structural)]
pub struct Window {
    pub x_base: isize,
    pub z_base: isize,
    pub x_min: isize,
    pub x_max: isize,
    pub z_min: isize,
    pub z_max: isize,
}

impl Window {
    /// The sixteen coordinates of the chunk on each axis fit the machine's
    /// integers.
    pub open spec fn fits(self) -> bool {
        self.x_base + 16 <= isize::MAX && self.z_base + 16 <= isize::MAX
    }

    /// The block at `(x, z)` of the chunk lies inside the request.
    pub open spec fn holds(self, x: int, z: int) -> bool {
        &&& self.x_min <= self.x_base + x <= self.x_max
        &&& self.z_min <= self.z_base + z <= self.z_max
    }
}

/// The block at `(x, y, z)` of the chunk is part of the result: it lies
/// inside the request and is solid.
pub open spec fn qualifies(
    blocks: Map<(int, int, int), Seq<char>>,
    skip: Seq<Seq<char>>,
    window: Window,
    x: int,
    y: int,
    z: int,
) -> bool {
    &&& window.holds(x, z)
    &&& blocks.contains_key((x, y, z))
    &&& is_solid(blocks[(x, y, z)], skip)
}

/// The world position of the block at `(x, y, z)` of the chunk.
pub open spec fn world_position(window: Window, x: int, y: int, z: int) -> BlockCoordinates {
    BlockCoordinates {
        x: (window.x_base + x) as isize,
        y: y as isize,
        z: (window.z_base + z) as isize,
    }
}

/// The qualifying blocks at `(x, y)` of the chunk with z below `z_count`, by
/// ascending z.
pub open spec fn column_voxels(
    blocks: Map<(int, int, int), Seq<char>>,
    skip: Seq<Seq<char>>,
    window: Window,
    x: int,
    y: int,
    z_count: int,
) -> Seq<BlockCoordinates>
    decreases z_count,
{
    if z_count <= 0 {
        Seq::empty()
    } else {
        let before = column_voxels(blocks, skip, window, x, y, z_count - 1);
        if qualifies(blocks, skip, window, x, y, z_count - 1) {
            before.push(world_position(window, x, y, z_count - 1))
        } else {
            before
        }
    }
}

/// The qualifying blocks of layer `y` of the chunk with x below `x_count`,
/// by ascending x and for each x by ascending z.
pub open spec fn layer_voxels(
    blocks: Map<(int, int, int), Seq<char>>,
    skip: Seq<Seq<char>>,
    window: Window,
    y: int,
    x_count: int,
) -> Seq<BlockCoordinates>
    decreases x_count,
{
    if x_count <= 0 {
        Seq::empty()
    } else {
        layer_voxels(blocks, skip, window, y, x_count - 1) + column_voxels(
            blocks,
            skip,
            window,
            x_count - 1,
            y,
            16,
        )
    }
}

/// The qualifying blocks of `y_count` layers of the chunk from `y_first`
/// upwards, layer by layer. A layer whose section the chunk lacks, or whose
/// section has no palette, holds only air. Nothing is given where a layer is
/// broken.
pub open spec fn chunk_voxels(
    blocks: Map<(int, int, int), Seq<char>>,
    sections: Map<int, (nat, Option<nat>)>,
    skip: Seq<Seq<char>>,
    window: Window,
    y_first: int,
    y_count: int,
) -> Option<Seq<BlockCoordinates>>
    decreases y_count,
{
    if y_count <= 0 {
        Some(Seq::empty())
    } else {
        let y = y_first + y_count - 1;
        match chunk_voxels(blocks, sections, skip, window, y_first, y_count - 1) {
            None => None,
            Some(before) => if layer_broken(sections, y) {
                None
            } else if layer_readable(sections, y) {
                Some(before + layer_voxels(blocks, skip, window, y, 16))
            } else {
                Some(before)
            },
        }
    }
}

/// How far the section of a layer can be read.
#[derive(Clone, Copy, Debug, PartialEq, Eq, Structural)]
pub enum SectionState {
    /// The chunk lacks the section, or the section has no palette: air.
    Air,
    /// Every block of the section can be looked up.
    Readable,
    /// The packed data of the section stops short.
    Broken,
}

/// The state of the section that holds layer `y`.
pub open spec fn section_state(sections: Map<int, (nat, Option<nat>)>, y: int) -> SectionState {
    if layer_broken(sections, y) {
        SectionState::Broken
    } else if layer_readable(sections, y) {
        SectionState::Readable
    } else {
        SectionState::Air
    }
}

/// Finds out how far the section that holds layer `y` can be read.
pub fn check_section(chunk: &CurrentJavaChunk, y: isize) -> (state: SectionState)
    ensures
        state == section_state(chunk_sections(*chunk), y as int),
{
    match section_palette_len(chunk, y) {
        None => SectionState::Air,
        Some(palette) => {
            if palette == 0 {
                SectionState::Air
            } else {
                match section_packed_len(chunk, y) {
                    None => SectionState::Readable,
                    Some(states) => if states == 4096 {
                        SectionState::Readable
                    } else {
                        SectionState::Broken
                    },
                }
            }
        },
    }
}

/// The qualifying blocks of one readable layer of the chunk.
fn collect_layer(
    chunk: &CurrentJavaChunk,
    window: &Window,
    y: isize,
    skip: &Vec<String>,
    voxels: &mut Vec<BlockCoordinates>,
)
    requires
        window.fits(),
        layer_readable(chunk_sections(*chunk), y as int),
    ensures
        final(voxels)@ == old(voxels)@ + layer_voxels(
            chunk_blocks(*chunk),
            string_views(skip@),
            *window,
            y as int,
            16,
        ),
{
    let ghost blocks = chunk_blocks(*chunk);
    let ghost left_out = string_views(skip@);
    let ghost before = voxels@;
    let mut x: usize = 0;
    while x < 16
        invariant
            x <= 16,
            window.fits(),
            layer_readable(chunk_sections(*chunk), y as int),
            blocks == chunk_blocks(*chunk),
            left_out == string_views(skip@),
            voxels@ == before + layer_voxels(blocks, left_out, *window, y as int, x as int),
        decreases 16 - x,
    {
        let ghost row_start = voxels@;
        let mut z: usize = 0;
        while z < 16
            invariant
                z <= 16,
                x < 16,
                window.fits(),
                layer_readable(chunk_sections(*chunk), y as int),
                blocks == chunk_blocks(*chunk),
                left_out == string_views(skip@),
                voxels@ == row_start + column_voxels(
                    blocks,
                    left_out,
                    *window,
                    x as int,
                    y as int,
                    z as int,
                ),
            decreases 16 - z,
        {
            let voxel_x = window.x_base + x as isize;
            let voxel_z = window.z_base + z as isize;
            if window.x_min <= voxel_x && voxel_x <= window.x_max && window.z_min <= voxel_z
                && voxel_z <= window.z_max {
                match block_name_at(chunk, x, y, z) {
                    Some(name) => {
                        if is_solid_block(&name, skip) {
                            voxels.push(BlockCoordinates::new(voxel_x, y, voxel_z));
                        }
                    },
                    None => {},
                }
            }
            z += 1;
        }
        x += 1;
    }
}

/// The solid blocks of the layers from `y_first` to `y_last`, one layer
/// after the other.
fn collect_layers(
    chunk: &CurrentJavaChunk,
    window: &Window,
    y_first: isize,
    y_last: isize,
    skip: &Vec<String>,
) -> (voxels: Option<Vec<BlockCoordinates>>)
    requires
        window.fits(),
    ensures
        match voxels {
            Some(found) => chunk_voxels(
                chunk_blocks(*chunk),
                chunk_sections(*chunk),
                string_views(skip@),
                *window,
                y_first as int,
                y_last - y_first + 1,
            ) == Some(found@),
            None => chunk_voxels(
                chunk_blocks(*chunk),
                chunk_sections(*chunk),
                string_views(skip@),
                *window,
                y_first as int,
                y_last - y_first + 1,
            ) is None,
        },
{
    let ghost blocks = chunk_blocks(*chunk);
    let ghost sections = chunk_sections(*chunk);
    let ghost left_out = string_views(skip@);
    let mut voxels: Vec<BlockCoordinates> = Vec::new();
    let mut y = y_first;
    let mut more = y_first <= y_last;
    let mut checked: Option<(isize, SectionState)> = None;
    while more
        invariant
            window.fits(),
            blocks == chunk_blocks(*chunk),
            sections == chunk_sections(*chunk),
            left_out == string_views(skip@),
            more ==> y_first <= y <= y_last,
            !more ==> chunk_voxels(
                blocks,
                sections,
                left_out,
                *window,
                y_first as int,
                y_last - y_first + 1,
            ) == Some(voxels@),
            more ==> chunk_voxels(blocks, sections, left_out, *window, y_first as int, y - y_first)
                == Some(voxels@),
            match checked {
                Some((section, state)) => forall|l: int|
                    section_of(l) == section ==> #[trigger] section_state(sections, l) == state,
                None => true,
            },
        decreases
                (y_last - y) + (if more {
                    1int
                } else {
                    0int
                }),
    {
        let section = section_number(y);
        let state = match checked {
            Some((known, state)) => if known == section {
                state
            } else {
                check_section(chunk, y)
            },
            None => check_section(chunk, y),
        };
        assert(state == section_state(sections, y as int));
        checked = Some((section, state));
        match state {
            SectionState::Broken => {
                proof {
                    lemma_broken_layer_breaks(
                        blocks,
                        sections,
                        left_out,
                        *window,
                        y_first as int,
                        y - y_first + 1,
                        y_last - y_first + 1,
                    );
                }
                return None;
            },
            SectionState::Readable => {
                collect_layer(chunk, window, y, skip, &mut voxels);
            },
            SectionState::Air => {},
        }
        if y == y_last {
            more = false;
        } else {
            y += 1;
        }
    }
    Some(voxels)
}

/// The solid blocks of a decoded chunk inside the request, for the layers
/// from `y_first` to `y_last`: layer by layer, in each layer by x, for each x
/// by z. Only the layers that the chunk spans are looked at. Nothing is
/// returned where the packed data of a section that the request touches
/// stops short.
pub fn collect_chunk_voxels(
    chunk: &CurrentJavaChunk,
    window: &Window,
    y_first: isize,
    y_last: isize,
    skip: &Vec<String>,
) -> (voxels: Option<Vec<BlockCoordinates>>)
    requires
        window.fits(),
    ensures
        match voxels {
            Some(found) => chunk_voxels(
                chunk_blocks(*chunk),
                chunk_sections(*chunk),
                string_views(skip@),
                *window,
                y_first as int,
                y_last - y_first + 1,
            ) == Some(found@),
            None => chunk_voxels(
                chunk_blocks(*chunk),
                chunk_sections(*chunk),
                string_views(skip@),
                *window,
                y_first as int,
                y_last - y_first + 1,
            ) is None,
        },
{
    let ghost blocks = chunk_blocks(*chunk);
    let ghost sections = chunk_sections(*chunk);
    let ghost left_out = string_views(skip@);
    let height = chunk_height(chunk);
    let from = if height.0 > y_first {
        height.0
    } else {
        y_first
    };
    if height.1 == isize::MIN || from > y_last || from > height.1 - 1 {
        proof {
            assert forall|y: int| y_first <= y <= y_last implies !sections.contains_key(
                #[trigger] section_of(y),
            ) by {}
            lemma_air_above(
                blocks,
                sections,
                left_out,
                *window,
                y_first as int,
                0,
                y_last - y_first + 1,
            );
        }
        return Some(Vec::new());
    }
    let to = if height.1 - 1 < y_last {
        height.1 - 1
    } else {
        y_last
    };
    let voxels = collect_layers(chunk, window, from, to, skip);
    proof {
        assert forall|y: int| y_first <= y < from || to < y <= y_last implies !sections.contains_key(
            #[trigger] section_of(y),
        ) by {}
        lemma_air_above(
            blocks,
            sections,
            left_out,
            *window,
            y_first as int,
            to - y_first + 1,
            y_last - y_first + 1,
        );
        lemma_air_below(
            blocks,
            sections,
            left_out,
            *window,
            y_first as int,
            from - y_first,
            to - y_first + 1,
        );
    }
    voxels
}

/// Layers without a section on top of a range add nothing to it.
proof fn lemma_air_above(
    blocks: Map<(int, int, int), Seq<char>>,
    sections: Map<int, (nat, Option<nat>)>,
    skip: Seq<Seq<char>>,
    window: Window,
    y_first: int,
    y_count: int,
    more: int,
)
    requires
        0 <= y_count,
        forall|y: int|
            y_first + y_count <= y < y_first + more ==> !sections.contains_key(
                #[trigger] section_of(y),
            ),
    ensures
        y_count <= more ==> chunk_voxels(blocks, sections, skip, window, y_first, more)
            == chunk_voxels(blocks, sections, skip, window, y_first, y_count),
        more <= 0 ==> chunk_voxels(blocks, sections, skip, window, y_first, more) == Some(
            Seq::<BlockCoordinates>::empty(),
        ),
    decreases more,
{
    if y_count < more {
        lemma_air_above(blocks, sections, skip, window, y_first, y_count, more - 1);
        assert(!sections.contains_key(section_of(y_first + more - 1)));
    }
}

/// Layers without a section at the bottom of a range add nothing to it.
proof fn lemma_air_below(
    blocks: Map<(int, int, int), Seq<char>>,
    sections: Map<int, (nat, Option<nat>)>,
    skip: Seq<Seq<char>>,
    window: Window,
    y_first: int,
    fewer: int,
    y_count: int,
)
    requires
        0 <= fewer <= y_count,
        forall|y: int| y_first <= y < y_first + fewer ==> !sections.contains_key(
            #[trigger] section_of(y),
        ),
    ensures
        chunk_voxels(blocks, sections, skip, window, y_first, y_count) == chunk_voxels(
            blocks,
            sections,
            skip,
            window,
            y_first + fewer,
            y_count - fewer,
        ),
    decreases y_count,
{
    if fewer == y_count {
        lemma_air_above(blocks, sections, skip, window, y_first, 0, y_count);
    } else {
        lemma_air_below(blocks, sections, skip, window, y_first, fewer, y_count - 1);
    }
}

/// The number of the section that holds layer `y`.
pub fn section_number(y: isize) -> (section: isize)
    ensures
        section == section_of(y as int),
{
    if y >= 0 {
        y / 16
    } else {
        -((-(y + 1)) / 16) - 1
    }
}

/// Once a layer is broken, nothing is given for any range that holds it.
proof fn lemma_broken_layer_breaks(
    blocks: Map<(int, int, int), Seq<char>>,
    sections: Map<int, (nat, Option<nat>)>,
    skip: Seq<Seq<char>>,
    window: Window,
    y_first: int,
    broken_count: int,
    y_count: int,
)
    requires
        0 < broken_count <= y_count,
        chunk_voxels(blocks, sections, skip, window, y_first, broken_count) is None,
    ensures
        chunk_voxels(blocks, sections, skip, window, y_first, y_count) is None,
    decreases y_count - broken_count,
{
    if broken_count < y_count {
        lemma_broken_layer_breaks(blocks, sections, skip, window, y_first, broken_count, y_count - 1);
    }
}

// ---------------------------------------------------------------------------
// What the result holds
// ---------------------------------------------------------------------------

/// `p` is the world position of a qualifying block at `(x, y)` with z below
/// `z_count`.
pub open spec fn column_holds(
    blocks: Map<(int, int, int), Seq<char>>,
    skip: Seq<Seq<char>>,
    window: Window,
    x: int,
    y: int,
    z_count: int,
    p: BlockCoordinates,
) -> bool {
    exists|z: int|
        0 <= z < z_count && qualifies(blocks, skip, window, x, y, z) && p == #[trigger] world_position(
            window,
            x,
            y,
            z,
        )
}

/// `p` is the world position of a qualifying block of layer `y` with x below
/// `x_count`.
pub open spec fn layer_holds(
    blocks: Map<(int, int, int), Seq<char>>,
    skip: Seq<Seq<char>>,
    window: Window,
    y: int,
    x_count: int,
    p: BlockCoordinates,
) -> bool {
    exists|x: int, z: int|
        0 <= x < x_count && 0 <= z < 16 && qualifies(blocks, skip, window, x, y, z) && p
            == #[trigger] world_position(window, x, y, z)
}

/// `p` is the world position of a qualifying block of a readable layer among
/// the `y_count` layers from `y_first` upwards.
pub open spec fn chunk_holds(
    blocks: Map<(int, int, int), Seq<char>>,
    sections: Map<int, (nat, Option<nat>)>,
    skip: Seq<Seq<char>>,
    window: Window,
    y_first: int,
    y_count: int,
    p: BlockCoordinates,
) -> bool {
    exists|x: int, y: int, z: int|
        0 <= x < 16 && 0 <= z < 16 && y_first <= y < y_first + y_count && layer_readable(
            sections,
            y,
        ) && qualifies(blocks, skip, window, x, y, z) && p == #[trigger] world_position(
            window,
            x,
            y,
            z,
        )
}

/// A column of the result holds the qualifying blocks of that column.
proof fn lemma_column_holds(
    blocks: Map<(int, int, int), Seq<char>>,
    skip: Seq<Seq<char>>,
    window: Window,
    x: int,
    y: int,
    z_count: int,
    p: BlockCoordinates,
)
    ensures
        column_voxels(blocks, skip, window, x, y, z_count).contains(p) <==> column_holds(
            blocks,
            skip,
            window,
            x,
            y,
            z_count,
            p,
        ),
    decreases z_count,
{
    let found = column_voxels(blocks, skip, window, x, y, z_count);
    if z_count > 0 {
        let before = column_voxels(blocks, skip, window, x, y, z_count - 1);
        lemma_column_holds(blocks, skip, window, x, y, z_count - 1, p);
        let top = world_position(window, x, y, z_count - 1);
        if found.contains(p) {
            let i = choose|i: int| 0 <= i < found.len() && found[i] == p;
            if i < before.len() {
                assert(before[i] == p);
                assert(before.contains(p));
                let z = choose|z: int|
                    0 <= z < z_count - 1 && qualifies(blocks, skip, window, x, y, z) && p
                        == #[trigger] world_position(window, x, y, z);
                assert(column_holds(blocks, skip, window, x, y, z_count, p));
            } else {
                assert(p == top);
                assert(column_holds(blocks, skip, window, x, y, z_count, p));
            }
        }
        if column_holds(blocks, skip, window, x, y, z_count, p) {
            let z = choose|z: int|
                0 <= z < z_count && qualifies(blocks, skip, window, x, y, z) && p
                    == #[trigger] world_position(window, x, y, z);
            if z < z_count - 1 {
                assert(column_holds(blocks, skip, window, x, y, z_count - 1, p));
                assert(before.contains(p));
                let i = choose|i: int| 0 <= i < before.len() && before[i] == p;
                assert(found[i] == p);
            } else {
                assert(found[found.len() - 1] == p);
            }
        }
    }
}

/// A layer of the result holds the qualifying blocks of that layer.
proof fn lemma_layer_holds(
    blocks: Map<(int, int, int), Seq<char>>,
    skip: Seq<Seq<char>>,
    window: Window,
    y: int,
    x_count: int,
    p: BlockCoordinates,
)
    ensures
        layer_voxels(blocks, skip, window, y, x_count).contains(p) <==> layer_holds(
            blocks,
            skip,
            window,
            y,
            x_count,
            p,
        ),
    decreases x_count,
{
    let found = layer_voxels(blocks, skip, window, y, x_count);
    if x_count > 0 {
        let before = layer_voxels(blocks, skip, window, y, x_count - 1);
        let column = column_voxels(blocks, skip, window, x_count - 1, y, 16);
        lemma_layer_holds(blocks, skip, window, y, x_count - 1, p);
        lemma_column_holds(blocks, skip, window, x_count - 1, y, 16, p);
        if found.contains(p) {
            let i = choose|i: int| 0 <= i < found.len() && found[i] == p;
            if i < before.len() {
                assert(before[i] == p);
                assert(before.contains(p));
                let (x, z) = choose|x: int, z: int|
                    0 <= x < x_count - 1 && 0 <= z < 16 && qualifies(blocks, skip, window, x, y, z)
                        && p == #[trigger] world_position(window, x, y, z);
                assert(layer_holds(blocks, skip, window, y, x_count, p));
            } else {
                assert(column[i - before.len()] == p);
                assert(column.contains(p));
                let z = choose|z: int|
                    0 <= z < 16 && qualifies(blocks, skip, window, x_count - 1, y, z) && p
                        == #[trigger] world_position(window, x_count - 1, y, z);
                assert(layer_holds(blocks, skip, window, y, x_count, p));
            }
        }
        if layer_holds(blocks, skip, window, y, x_count, p) {
            let (x, z) = choose|x: int, z: int|
                0 <= x < x_count && 0 <= z < 16 && qualifies(blocks, skip, window, x, y, z) && p
                    == #[trigger] world_position(window, x, y, z);
            if x < x_count - 1 {
                assert(layer_holds(blocks, skip, window, y, x_count - 1, p));
                assert(before.contains(p));
                let i = choose|i: int| 0 <= i < before.len() && before[i] == p;
                assert(found[i] == p);
            } else {
                assert(column_holds(blocks, skip, window, x_count - 1, y, 16, p));
                assert(column.contains(p));
                let i = choose|i: int| 0 <= i < column.len() && column[i] == p;
                assert(found[before.len() + i] == p);
            }
        }
    }
}

/// A block is in the result for a chunk if and only if it lies in one of the
/// layers asked for, inside the request on both horizontal axes, and the
/// chunk gives for it an identifier that is neither air nor left out.
pub proof fn chunk_voxels_are_the_solid_blocks(
    blocks: Map<(int, int, int), Seq<char>>,
    sections: Map<int, (nat, Option<nat>)>,
    skip: Seq<Seq<char>>,
    window: Window,
    y_first: int,
    y_count: int,
    p: BlockCoordinates,
)
    requires
        chunk_voxels(blocks, sections, skip, window, y_first, y_count) is Some,
    ensures
        chunk_voxels(blocks, sections, skip, window, y_first, y_count).unwrap().contains(p)
            <==> chunk_holds(blocks, sections, skip, window, y_first, y_count, p),
    decreases y_count,
{
    let found = chunk_voxels(blocks, sections, skip, window, y_first, y_count).unwrap();
    if y_count > 0 {
        let top = y_first + y_count - 1;
        let before = chunk_voxels(blocks, sections, skip, window, y_first, y_count - 1).unwrap();
        let layer = layer_voxels(blocks, skip, window, top, 16);
        chunk_voxels_are_the_solid_blocks(blocks, sections, skip, window, y_first, y_count - 1, p);
        lemma_layer_holds(blocks, skip, window, top, 16, p);
        if found.contains(p) {
            let i = choose|i: int| 0 <= i < found.len() && found[i] == p;
            if i < before.len() {
                assert(before[i] == p);
                assert(before.contains(p));
                let (x, y, z) = choose|x: int, y: int, z: int|
                    0 <= x < 16 && 0 <= z < 16 && y_first <= y < y_first + y_count - 1
                        && layer_readable(sections, y) && qualifies(blocks, skip, window, x, y, z)
                        && p == #[trigger] world_position(window, x, y, z);
                assert(chunk_holds(blocks, sections, skip, window, y_first, y_count, p));
            } else {
                assert(layer[i - before.len()] == p);
                assert(layer.contains(p));
                let (x, z) = choose|x: int, z: int|
                    0 <= x < 16 && 0 <= z < 16 && qualifies(blocks, skip, window, x, top, z) && p
                        == #[trigger] world_position(window, x, top, z);
                assert(chunk_holds(blocks, sections, skip, window, y_first, y_count, p));
            }
        }
        if chunk_holds(blocks, sections, skip, window, y_first, y_count, p) {
            let (x, y, z) = choose|x: int, y: int, z: int|
                0 <= x < 16 && 0 <= z < 16 && y_first <= y < y_first + y_count && layer_readable(
                    sections,
                    y,
                ) && qualifies(blocks, skip, window, x, y, z) && p == #[trigger] world_position(
                    window,
                    x,
                    y,
                    z,
                );
            if y < top {
                assert(chunk_holds(blocks, sections, skip, window, y_first, y_count - 1, p));
                assert(before.contains(p));
                let i = choose|i: int| 0 <= i < before.len() && before[i] == p;
                assert(found[i] == p);
            } else {
                assert(layer_holds(blocks, skip, window, top, 16, p));
                assert(layer.contains(p));
                let i = choose|i: int| 0 <= i < layer.len() && layer[i] == p;
                assert(found[before.len() + i] == p);
            }
        }
    }
}

/// Leaving out a kind of block that every block of the chunk inside the
/// request has gives an empty result; the list without that kind is the list
/// as it was, so leaving the kind in again gives the result as it was.
pub proof fn skipping_the_only_kind_gives_nothing(
    blocks: Map<(int, int, int), Seq<char>>,
    sections: Map<int, (nat, Option<nat>)>,
    skip: Seq<Seq<char>>,
    kind: Seq<char>,
    window: Window,
    y_first: int,
    y_count: int,
)
    requires
        forall|x: int, y: int, z: int|
            0 <= x < 16 && 0 <= z < 16 && y_first <= y < y_first + y_count && window.holds(x, z)
                && blocks.contains_key((x, y, z)) ==> #[trigger] blocks[(x, y, z)] == kind,
        chunk_voxels(blocks, sections, skip.push(kind), window, y_first, y_count) is Some,
    ensures
        chunk_voxels(blocks, sections, skip.push(kind), window, y_first, y_count) == Some(
            Seq::<BlockCoordinates>::empty(),
        ),
        skip.push(kind).drop_last() == skip,
{
    let longer = skip.push(kind);
    let found = chunk_voxels(blocks, sections, longer, window, y_first, y_count).unwrap();
    if found.len() > 0 {
        let p = found[0];
        assert(found.contains(p));
        chunk_voxels_are_the_solid_blocks(blocks, sections, longer, window, y_first, y_count, p);
        let (x, y, z) = choose|x: int, y: int, z: int|
            0 <= x < 16 && 0 <= z < 16 && y_first <= y < y_first + y_count && layer_readable(
                sections,
                y,
            ) && qualifies(blocks, longer, window, x, y, z) && p == #[trigger] world_position(
                window,
                x,
                y,
                z,
            );
        assert(blocks[(x, y, z)] == kind);
        assert(longer[longer.len() - 1] == kind);
        assert(longer.contains(kind));
    }
    assert(found == Seq::<BlockCoordinates>::empty());
}

} // verus!
