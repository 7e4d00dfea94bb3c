//! The merge engine: three greedy passes that compress indexed blocks into
//! boxes, along x within a row, along z within a plate, along y across plates.

use crate::block_sequence::BlockSequence;
use crate::block_stack::{plates_view, rows_view, BlockPlate, BlockStack, PlateView, RowView};
use crate::coordinates::BlockCoordinates;
use crate::sort::{sort_by_x, sort_row_by_x};
use rustc_hash::{FxHashMap, FxHasher};
use std::hash::BuildHasherDefault;
use vstd::prelude::*;

verus! {

// ---------------------------------------------------------------------------
// Pass 1: runs along x
// ---------------------------------------------------------------------------

/// The runs of a row that is sorted by x: a run ends wherever the next block
/// is not exactly one step further along x. Each run becomes the sequence
/// from its first block to its last.
pub open spec fn x_runs(row: Seq<BlockCoordinates>) -> Seq<BlockSequence>
    decreases row.len(),
{
    if row.len() == 0 {
        Seq::empty()
    } else if row.len() == 1 {
        seq![BlockSequence { start: row[0], end: row[0] }]
    } else {
        let runs = x_runs(row.drop_last());
        let block = row.last();
        if block.x == row[row.len() - 2].x + 1 {
            runs.update(runs.len() - 1, BlockSequence { start: runs.last().start, end: block })
        } else {
            runs.push(BlockSequence { start: block, end: block })
        }
    }
}

/// Pass 1 on a borrowed row.
fn x_row_sequences(row: &Vec<BlockCoordinates>) -> (sequences: Vec<BlockSequence>)
    ensures
        sequences@ == x_runs(sort_by_x(row@)),
{
    let row = sort_row_by_x(row);
    let mut x_sequences: Vec<BlockSequence> = Vec::new();
    if row.len() == 0 {
        return x_sequences;
    }
    let mut start_block_index: usize = 0;
    let mut index: usize = 1;
    assert(row@.take(1).len() == 1);
    while index < row.len()
        invariant
            1 <= index <= row.len(),
            start_block_index < index,
            x_runs(row@.take(index as int)) == x_sequences@.push(
                BlockSequence { start: row[start_block_index as int], end: row[index - 1] },
            ),
        decreases row.len() - index,
    {
        let prev_block = row[index - 1];
        let block = row[index];
        let stop_concatenation = prev_block.x == isize::MAX || block.x != prev_block.x + 1;
        proof {
            let head = row@.take(index + 1);
            assert(head.drop_last() == row@.take(index as int));
            assert(head.last() == row[index as int]);
            assert(head[head.len() - 2] == row[index - 1]);
        }
        if stop_concatenation {
            x_sequences.push(BlockSequence::new(row[start_block_index], row[index - 1]));
            start_block_index = index;
        }
        index += 1;
    }
    assert(row@.take(row.len() as int) == row@);
    x_sequences.push(BlockSequence::new(row[start_block_index], row[row.len() - 1]));
    x_sequences
}

/// Pass 1. Sorts the row by x and returns its maximal runs of blocks that
/// follow each other along x, each as one sequence. An empty row has no runs.
pub fn merge_blocks_x_row(row: Vec<BlockCoordinates>) -> (sequences: Vec<BlockSequence>)
    ensures
        sequences@ == x_runs(sort_by_x(row@)),
{
    x_row_sequences(&row)
}

// ---------------------------------------------------------------------------
// First match in list order
// ---------------------------------------------------------------------------

/// The index of the first sequence at or behind `from` that is `wanted`, or
/// the length of `sequences` where there is none.
pub open spec fn first_match(
    sequences: Seq<BlockSequence>,
    wanted: spec_fn(BlockSequence) -> bool,
    from: int,
) -> int
    decreases sequences.len() - from,
{
    if from < 0 || from >= sequences.len() {
        sequences.len() as int
    } else if wanted(sequences[from]) {
        from
    } else {
        first_match(sequences, wanted, from + 1)
    }
}

// ---------------------------------------------------------------------------
// Pass 2: stretching along z
// ---------------------------------------------------------------------------

/// An open sequence can take in `s` of row `z`: it is as long along x as `s`
/// and stops at the row before.
pub open spec fn z_candidate(s: BlockSequence, z: int) -> spec_fn(BlockSequence) -> bool {
    |t: BlockSequence| t.x_size() == s.x_size() && t.end.z == z - 1
}

/// `t` grown along z to where `s` ends.
pub open spec fn stretched_to_z(t: BlockSequence, s: BlockSequence) -> BlockSequence {
    BlockSequence {
        start: t.start,
        end: BlockCoordinates { x: t.end.x, y: t.end.y, z: s.end.z },
    }
}

/// One step of pass 2: the first candidate among `open` takes in `s`; where
/// there is none, `s` joins the open sequences.
pub open spec fn stretch_z_step(open: Seq<BlockSequence>, s: BlockSequence, z: int) -> Seq<
    BlockSequence,
> {
    let i = first_match(open, z_candidate(s, z), 0);
    if i < open.len() {
        open.update(i, stretched_to_z(open[i], s))
    } else {
        open.push(s)
    }
}

/// Pass 2 for one row: the steps for its sequences, in their order.
pub open spec fn stretch_z(open: Seq<BlockSequence>, row_sequences: Seq<BlockSequence>, z: int) -> Seq<
    BlockSequence,
>
    decreases row_sequences.len(),
{
    if row_sequences.len() == 0 {
        open
    } else {
        stretch_z_step(stretch_z(open, row_sequences.drop_last(), z), row_sequences.last(), z)
    }
}

/// Finds the first open sequence that can take in `s` of row `z`.
fn find_z_candidate(open: &Vec<BlockSequence>, s: &BlockSequence, z: isize) -> (i: usize)
    ensures
        i == first_match(open@, z_candidate(*s, z as int), 0),
{
    let mut i: usize = 0;
    while i < open.len()
        invariant
            i <= open.len(),
            first_match(open@, z_candidate(*s, z as int), i as int) == first_match(
                open@,
                z_candidate(*s, z as int),
                0,
            ),
        decreases open.len() - i,
    {
        if open[i].same_x_size(s) && z > isize::MIN && open[i].has_z_end_on(z - 1) {
            return i;
        }
        i += 1;
    }
    i
}

/// Pass 2 for one row. Each sequence of `row_sequences`, in order, is taken
/// in by the first sequence of `plane_sequences` that has its x-size and
/// stops at row `z - 1`, which then ends where the new one ends; a sequence
/// that finds none is added at the back.
pub fn stretch_sequences_by_z(
    row_sequences: Vec<BlockSequence>,
    plane_sequences: &mut Vec<BlockSequence>,
    z: isize,
)
    ensures
        final(plane_sequences)@ == stretch_z(old(plane_sequences)@, row_sequences@, z as int),
{
    let ghost open = plane_sequences@;
    let mut k: usize = 0;
    while k < row_sequences.len()
        invariant
            k <= row_sequences.len(),
            plane_sequences@ == stretch_z(open, row_sequences@.take(k as int), z as int),
        decreases row_sequences.len() - k,
    {
        let sequence = row_sequences[k];
        let i = find_z_candidate(plane_sequences, &sequence, z);
        if i < plane_sequences.len() {
            let mut same = plane_sequences[i];
            same.expand_z_end(sequence);
            plane_sequences.set(i, same);
        } else {
            plane_sequences.push(sequence);
        }
        assert(row_sequences@.take(k + 1).drop_last() == row_sequences@.take(k as int));
        k += 1;
    }
    assert(row_sequences@.take(row_sequences.len() as int) == row_sequences@);
}

// ---------------------------------------------------------------------------
// Pass 3: stretching along y
// ---------------------------------------------------------------------------

/// A sequence of the current plate can take in `s` of the plate below: both
/// have the same footprint size.
pub open spec fn y_candidate(s: BlockSequence) -> spec_fn(BlockSequence) -> bool {
    |t: BlockSequence| t.x_size() == s.x_size() && t.z_size() == s.z_size()
}

/// The sequences of the plate below that were not taken in, and the
/// sequences of the current plate after pass 3.
pub ghost struct Stretched {
    pub kept: Seq<BlockSequence>,
    pub current: Seq<BlockSequence>,
}

/// One step of pass 3: the first candidate among `current` takes in `s` by
/// moving its start to the start of `s`; where there is none, `s` is kept.
pub open spec fn stretch_y_step(state: Stretched, s: BlockSequence) -> Stretched {
    let i = first_match(state.current, y_candidate(s), 0);
    if i < state.current.len() {
        Stretched {
            kept: state.kept,
            current: state.current.update(
                i,
                BlockSequence { start: s.start, end: state.current[i].end },
            ),
        }
    } else {
        Stretched { kept: state.kept.push(s), current: state.current }
    }
}

/// Pass 3 between two plates: the steps for the sequences of the plate
/// below, in their order.
pub open spec fn stretch_y(previous: Seq<BlockSequence>, current: Seq<BlockSequence>) -> Stretched
    decreases previous.len(),
{
    if previous.len() == 0 {
        Stretched { kept: Seq::empty(), current }
    } else {
        stretch_y_step(stretch_y(previous.drop_last(), current), previous.last())
    }
}

/// Pass 3 on the layers: the sequences that ended at `y - 1` meet the
/// sequences of plate `y`, which then become layer `y`.
pub open spec fn stretch_y_layers(
    layers: Map<isize, Seq<BlockSequence>>,
    current: Seq<BlockSequence>,
    y: isize,
) -> Map<isize, Seq<BlockSequence>> {
    if y > isize::MIN && layers.contains_key((y - 1) as isize) {
        let stretched = stretch_y(layers[(y - 1) as isize], current);
        layers.insert((y - 1) as isize, stretched.kept).insert(y, stretched.current)
    } else {
        layers.insert(y, current)
    }
}

/// The sequences held for each layer.
pub open spec fn layer_views(layers: Map<isize, Vec<BlockSequence>>) -> Map<
    isize,
    Seq<BlockSequence>,
> {
    layers.map_values(|sequences: Vec<BlockSequence>| sequences@)
}

/// The hasher of `rustc_hash`, taken as it is: nothing is said of what is
/// inside it.
#[verifier::external_type_specification]
#[verifier::external_body]
pub struct ExFxHasher(FxHasher);

/// `std::hash::BuildHasherDefault`, which makes the hashers of a map, taken
/// as it is.
#[verifier::external_type_specification]
#[verifier::external_body]
#[verifier::reject_recursive_types(H)]
pub struct ExBuildHasherDefault<H>(BuildHasherDefault<H>);

/// `FxHashMap::default` of `rustc_hash`: a new map, hashed by `FxHasher`,
/// holds nothing.
#[verifier::external_body]
fn new_layers() -> (layers: FxHashMap<isize, Vec<BlockSequence>>)
    ensures
        layers@ == (Map::<isize, Vec<BlockSequence>>::empty()),
{
    FxHashMap::default()
}

/// `HashMap::get_mut` on a map hashed by `FxHasher`: the entry under `y`
/// where there is one; what is written through it is what the map holds
/// under `y` afterwards, and nothing else changes.
#[verifier::external_body]
fn layer_mut(layers: &mut FxHashMap<isize, Vec<BlockSequence>>, y: isize) -> (layer: Option<
    &mut Vec<BlockSequence>,
>)
    ensures
        match layer {
            Some(sequences) => old(layers)@.contains_key(y) && *sequences == old(layers)@[y]
                && final(layers)@ == old(layers)@.insert(y, *final(sequences)),
            None => !old(layers)@.contains_key(y) && final(layers)@ == old(layers)@,
        },
{
    layers.get_mut(&y)
}

/// `HashMap::insert` on a map hashed by `FxHasher`: afterwards the map holds
/// `sequences` under `y`, and under every other key what it held before.
#[verifier::external_body]
fn put_layer(
    layers: &mut FxHashMap<isize, Vec<BlockSequence>>,
    y: isize,
    sequences: Vec<BlockSequence>,
)
    ensures
        final(layers)@ == old(layers)@.insert(y, sequences),
{
    layers.insert(y, sequences);
}

/// Pass 3 for one plate. Each sequence held under `y - 1`, in order, is taken
/// in by the first sequence of `current` with its x-size and z-size, whose
/// start then moves to the start of the one taken in; the others stay under
/// `y - 1`. `current` is then held under `y`.
fn stretch_sequences_by_y(
    all_sequences_by_end_y: &mut FxHashMap<isize, Vec<BlockSequence>>,
    current: Vec<BlockSequence>,
    y: isize,
)
    ensures
        layer_views(final(all_sequences_by_end_y)@) == stretch_y_layers(
            layer_views(old(all_sequences_by_end_y)@),
            current@,
            y,
        ),
{
    let ghost before = all_sequences_by_end_y@;
    let ghost arriving = current@;
    let mut current = current;
    if y > isize::MIN {
        match layer_mut(all_sequences_by_end_y, y - 1) {
            Some(prev_sequences) => {
                let ghost previous = prev_sequences@;
                let mut kept: Vec<BlockSequence> = Vec::new();
                let mut k: usize = 0;
                while k < prev_sequences.len()
                    invariant
                        k <= prev_sequences.len(),
                        prev_sequences@ == previous,
                        stretch_y(previous.take(k as int), arriving) == (Stretched {
                            kept: kept@,
                            current: current@,
                        }),
                    decreases prev_sequences.len() - k,
                {
                    let seq = prev_sequences[k];
                    let i = find_y_candidate(&current, &seq);
                    if i < current.len() {
                        let mut current_seq = current[i];
                        current_seq.expand_start(seq.start);
                        current.set(i, current_seq);
                    } else {
                        kept.push(seq);
                    }
                    assert(previous.take(k + 1).drop_last() == previous.take(k as int));
                    k += 1;
                }
                assert(previous.take(previous.len() as int) == previous);
                *prev_sequences = kept;
            },
            None => {},
        }
    }
    put_layer(all_sequences_by_end_y, y, current);
    assert(layer_views(all_sequences_by_end_y@) == stretch_y_layers(
        layer_views(before),
        arriving,
        y,
    ));
}

/// Finds the first sequence of the current plate that can take in `s`.
fn find_y_candidate(current: &Vec<BlockSequence>, s: &BlockSequence) -> (i: usize)
    ensures
        i == first_match(current@, y_candidate(*s), 0),
{
    let mut i: usize = 0;
    while i < current.len()
        invariant
            i <= current.len(),
            first_match(current@, y_candidate(*s), i as int) == first_match(
                current@,
                y_candidate(*s),
                0,
            ),
        decreases current.len() - i,
    {
        if current[i].same_x_size(s) && current[i].same_z_size(s) {
            return i;
        }
        i += 1;
    }
    i
}

// ---------------------------------------------------------------------------
// The whole merge
// ---------------------------------------------------------------------------

/// The sequences of one plate after passes 1 and 2 over its rows, in order.
pub open spec fn plate_sequences(rows: Seq<RowView>) -> Seq<BlockSequence>
    decreases rows.len(),
{
    if rows.len() == 0 {
        Seq::empty()
    } else {
        stretch_z(
            plate_sequences(rows.drop_last()),
            x_runs(sort_by_x(rows.last().blocks)),
            rows.last().z as int,
        )
    }
}

/// The layers after all three passes over the plates, in order: under each
/// y the sequences that end there.
pub open spec fn merge_layers(plates: Seq<PlateView>) -> Map<isize, Seq<BlockSequence>>
    decreases plates.len(),
{
    if plates.len() == 0 {
        Map::empty()
    } else {
        stretch_y_layers(
            merge_layers(plates.drop_last()),
            plate_sequences(plates.last().rows),
            plates.last().y,
        )
    }
}

/// The layers named by `order`, one behind the other.
pub open spec fn concat_layers(layers: Map<isize, Seq<BlockSequence>>, order: Seq<isize>) -> Seq<
    BlockSequence,
>
    decreases order.len(),
{
    if order.len() == 0 {
        Seq::empty()
    } else {
        concat_layers(layers, order.drop_last()) + layers[order.last()]
    }
}

/// `order` names every layer exactly once.
pub open spec fn is_layer_order(layers: Map<isize, Seq<BlockSequence>>, order: Seq<isize>) -> bool {
    &&& order.no_duplicates()
    &&& forall|y: isize| layers.contains_key(y) <==> order.contains(y)
}

/// `out` is what the merge of `plates` may return: the merged layers one
/// behind the other, in some order of the layers.
pub open spec fn is_merge_output(out: Seq<BlockSequence>, plates: Seq<PlateView>) -> bool {
    exists|order: Seq<isize>|
        is_layer_order(merge_layers(plates), order) && out == concat_layers(
            merge_layers(plates),
            order,
        )
}

/// The keys of a list of entries.
pub open spec fn entry_keys(entries: Seq<(isize, Vec<BlockSequence>)>) -> Seq<isize> {
    Seq::new(entries.len(), |i: int| entries[i].0)
}

/// `HashMap::into_iter`, collected: every entry of the map exactly once. The
/// order of the entries is left open.
#[verifier::external_body]
fn into_layer_entries(layers: FxHashMap<isize, Vec<BlockSequence>>) -> (entries: Vec<
    (isize, Vec<BlockSequence>),
>)
    ensures
        entry_keys(entries@).no_duplicates(),
        forall|y: isize| layers@.contains_key(y) <==> entry_keys(entries@).contains(y),
        forall|i: int|
            0 <= i < entries@.len() ==> layers@.contains_key(entries@[i].0) && layers@[entries@[i].0]
                == entries@[i].1,
{
    layers.into_iter().collect()
}

/// Passes 1 and 2 over the rows of one plate.
fn plane_sequences_of(plate: &BlockPlate) -> (plane_sequences: Vec<BlockSequence>)
    ensures
        plane_sequences@ == plate_sequences(plate@.rows),
{
    let mut plane_sequences: Vec<BlockSequence> = Vec::new();
    let ghost rows = plate@.rows;
    let mut r: usize = 0;
    while r < plate.rows.len()
        invariant
            r <= plate.rows.len(),
            rows == rows_view(plate.rows@),
            plane_sequences@ == plate_sequences(rows.take(r as int)),
        decreases plate.rows.len() - r,
    {
        let row = &plate.rows[r];
        let row_sequences = x_row_sequences(&row.blocks);
        stretch_sequences_by_z(row_sequences, &mut plane_sequences, row.z);
        assert(rows.take(r + 1).drop_last() == rows.take(r as int));
        r += 1;
    }
    assert(rows.take(rows.len() as int) == rows);
    plane_sequences
}

/// Merges the indexed blocks into boxes: pass 1 and pass 2 over the rows of
/// each plate, pass 3 between each plate and the layer just below it. The
/// result holds every merged layer once; the order of the layers is left
/// open.
pub fn merge_blocks(block_stack: BlockStack) -> (all_sequences: Vec<BlockSequence>)
    ensures
        is_merge_output(all_sequences@, block_stack@),
{
    let mut all_sequences_by_end_y = new_layers();
    let plates = block_stack.plates();
    let ghost stack = block_stack@;
    assert(layer_views(all_sequences_by_end_y@) == merge_layers(stack.take(0)));
    let mut p: usize = 0;
    while p < plates.len()
        invariant
            p <= plates.len(),
            stack == plates_view(plates@),
            layer_views(all_sequences_by_end_y@) == merge_layers(stack.take(p as int)),
        decreases plates.len() - p,
    {
        let plate = &plates[p];
        let plane_sequences = plane_sequences_of(plate);
        stretch_sequences_by_y(&mut all_sequences_by_end_y, plane_sequences, plate.y);
        assert(stack.take(p + 1).drop_last() == stack.take(p as int));
        p += 1;
    }
    assert(stack.take(stack.len() as int) == stack);
    let ghost layers = layer_views(all_sequences_by_end_y@);
    let entries = into_layer_entries(all_sequences_by_end_y);
    let ghost order = entry_keys(entries@);
    let mut all_sequences: Vec<BlockSequence> = Vec::new();
    let mut e: usize = 0;
    while e < entries.len()
        invariant
            e <= entries.len(),
            order == entry_keys(entries@),
            forall|i: int| 0 <= i < entries@.len() ==> layers.contains_key(order[i]) && layers[order[i]] == (#[trigger] entries@[i]).1@,
            all_sequences@ == concat_layers(layers, order.take(e as int)),
        decreases entries.len() - e,
    {
        let seq = &entries[e].1;
        let ghost done = all_sequences@;
        let mut n: usize = 0;
        while n < seq.len()
            invariant
                n <= seq.len(),
                all_sequences@ == done + seq@.take(n as int),
            decreases seq.len() - n,
        {
            all_sequences.push(seq[n]);
            n += 1;
        }
        assert(seq@.take(seq.len() as int) == seq@);
        assert(order.take(e + 1).drop_last() == order.take(e as int));
        e += 1;
    }
    assert(order.take(order.len() as int) == order);
    assert(is_layer_order(layers, order));
    all_sequences
}

} // verus!
