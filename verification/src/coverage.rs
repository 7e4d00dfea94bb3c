//! What the merge engine's boxes cover: the vocabulary of covering and
//! overlap, and the steps by which a list of boxes keeps tiling the blocks it
//! stands for.

use crate::block_sequence::BlockSequence;
use crate::block_stack::{
    in_row, lemma_index_holds_the_blocks, rows_contain, rows_distinct, rows_ordered,
    stack_contains, stack_distinct, stack_of, stack_ordered, PlateView, RowView,
};
use crate::coordinates::BlockCoordinates;
use crate::merge::{
    concat_layers, first_match, is_layer_order, is_merge_output, merge_layers, plate_sequences,
    stretch_y, stretch_y_layers, stretch_z, stretched_to_z, x_runs, y_candidate, z_candidate,
};
use crate::sort::{lemma_sort_by_x, sort_by_x};
use vstd::prelude::*;

verus! {

/// Some sequence of `boxes` contains `p`.
pub open spec fn covers(boxes: Seq<BlockSequence>, p: BlockCoordinates) -> bool {
    exists|i: int| 0 <= i < boxes.len() && #[trigger] boxes[i].contains(p)
}

/// Every sequence of `boxes` has its start before or at its end.
pub open spec fn all_boxes(boxes: Seq<BlockSequence>) -> bool {
    forall|i: int| 0 <= i < boxes.len() ==> (#[trigger] boxes[i]).is_box()
}

/// No block lies in two sequences of `boxes`.
pub open spec fn pairwise_disjoint(boxes: Seq<BlockSequence>) -> bool {
    forall|i: int, j: int, p: BlockCoordinates|
        0 <= i < boxes.len() && 0 <= j < boxes.len() && i != j && #[trigger] boxes[i].contains(p)
            ==> !#[trigger] boxes[j].contains(p)
}

/// No block lies in a sequence of `a` and in a sequence of `b`.
pub open spec fn apart(a: Seq<BlockSequence>, b: Seq<BlockSequence>) -> bool {
    forall|i: int, j: int, p: BlockCoordinates|
        0 <= i < a.len() && 0 <= j < b.len() && #[trigger] a[i].contains(p) ==> !#[trigger] b[j].contains(
            p,
        )
}

/// No sequence of `boxes` contains a block of `s`.
pub open spec fn clear_of(boxes: Seq<BlockSequence>, s: BlockSequence) -> bool {
    forall|j: int, p: BlockCoordinates|
        0 <= j < boxes.len() && s.contains(p) ==> !#[trigger] boxes[j].contains(p)
}

/// `grown` holds exactly the blocks of `t` and of `s`.
pub open spec fn joins(grown: BlockSequence, t: BlockSequence, s: BlockSequence) -> bool {
    forall|p: BlockCoordinates| #[trigger] grown.contains(p) <==> t.contains(p) || s.contains(p)
}

/// Replacing a sequence by one that also holds the blocks of `s` adds the
/// blocks of `s` to what the list covers and keeps it free of overlap.
pub proof fn lemma_absorb(boxes: Seq<BlockSequence>, i: int, s: BlockSequence, grown: BlockSequence)
    requires
        0 <= i < boxes.len(),
        all_boxes(boxes),
        pairwise_disjoint(boxes),
        grown.is_box(),
        joins(grown, boxes[i], s),
        clear_of(boxes, s),
    ensures
        all_boxes(boxes.update(i, grown)),
        pairwise_disjoint(boxes.update(i, grown)),
        forall|p: BlockCoordinates|
            covers(boxes.update(i, grown), p) <==> covers(boxes, p) || s.contains(p),
{
    let after = boxes.update(i, grown);
    assert forall|a: int, b: int, p: BlockCoordinates|
        0 <= a < after.len() && 0 <= b < after.len() && a != b && #[trigger] after[a].contains(p)
        implies !#[trigger] after[b].contains(p) by {
        if a == i {
            assert(boxes[b].contains(p) == after[b].contains(p));
            if boxes[i].contains(p) {
            }
        } else if b == i {
            assert(boxes[a].contains(p));
            if grown.contains(p) {
                if boxes[i].contains(p) {
                }
            }
        } else {
            assert(boxes[a].contains(p));
            if boxes[b].contains(p) {
            }
        }
    }
    assert forall|p: BlockCoordinates| covers(after, p) <==> covers(boxes, p) || s.contains(
        p,
    ) by {
        if covers(after, p) {
            let a = choose|a: int| 0 <= a < after.len() && #[trigger] after[a].contains(p);
            if a == i {
                if boxes[i].contains(p) {
                }
            } else {
                assert(boxes[a].contains(p));
            }
        }
        if covers(boxes, p) {
            let a = choose|a: int| 0 <= a < boxes.len() && #[trigger] boxes[a].contains(p);
            if a == i {
                assert(after[i].contains(p));
            } else {
                assert(after[a].contains(p));
            }
        }
        if s.contains(p) {
            assert(after[i].contains(p));
        }
    }
}

/// Adding a sequence that is clear of the list adds its blocks to what the
/// list covers and keeps it free of overlap.
pub proof fn lemma_append(boxes: Seq<BlockSequence>, s: BlockSequence)
    requires
        all_boxes(boxes),
        pairwise_disjoint(boxes),
        s.is_box(),
        clear_of(boxes, s),
    ensures
        all_boxes(boxes.push(s)),
        pairwise_disjoint(boxes.push(s)),
        forall|p: BlockCoordinates| covers(boxes.push(s), p) <==> covers(boxes, p) || s.contains(p),
{
    let after = boxes.push(s);
    assert forall|a: int, b: int, p: BlockCoordinates|
        0 <= a < after.len() && 0 <= b < after.len() && a != b && #[trigger] after[a].contains(p)
        implies !#[trigger] after[b].contains(p) by {
        if a == boxes.len() {
            assert(after[b] == boxes[b]);
            if boxes[b].contains(p) {
            }
        } else if b == boxes.len() {
            assert(boxes[a].contains(p));
        } else {
            assert(boxes[a].contains(p));
            if boxes[b].contains(p) {
            }
        }
    }
    assert forall|p: BlockCoordinates| covers(after, p) <==> covers(boxes, p) || s.contains(
        p,
    ) by {
        if covers(after, p) {
            let a = choose|a: int| 0 <= a < after.len() && #[trigger] after[a].contains(p);
            if a < boxes.len() {
                assert(boxes[a].contains(p));
            }
        }
        if covers(boxes, p) {
            let a = choose|a: int| 0 <= a < boxes.len() && #[trigger] boxes[a].contains(p);
            assert(after[a].contains(p));
        }
        if s.contains(p) {
            assert(after[boxes.len() as int].contains(p));
        }
    }
}

// ---------------------------------------------------------------------------
// Rows
// ---------------------------------------------------------------------------

/// The blocks of `row` stand in strictly ascending order of x.
pub open spec fn ascending_x(row: Seq<BlockCoordinates>) -> bool {
    forall|i: int, j: int| 0 <= i < j < row.len() ==> row[i].x < row[j].x
}

/// Every sequence of `boxes` lies in the row `(y, z)`.
pub open spec fn boxes_in_row(boxes: Seq<BlockSequence>, y: isize, z: isize) -> bool {
    forall|i: int|
        0 <= i < boxes.len() ==> {
            &&& (#[trigger] boxes[i]).start.y == y
            &&& boxes[i].end.y == y
            &&& boxes[i].start.z == z
            &&& boxes[i].end.z == z
        }
}

/// The runs of a strictly ascending row tile it: they are boxes of that row,
/// no two overlap, and together they hold exactly the blocks of the row.
pub proof fn lemma_x_runs_tile(row: Seq<BlockCoordinates>, y: isize, z: isize)
    requires
        ascending_x(row),
        in_row(row, y, z),
    ensures
        all_boxes(x_runs(row)),
        pairwise_disjoint(x_runs(row)),
        boxes_in_row(x_runs(row), y, z),
        forall|p: BlockCoordinates| covers(x_runs(row), p) <==> row.contains(p),
        row.len() > 0 ==> x_runs(row).len() > 0 && x_runs(row).last().end == row.last(),
        forall|i: int|
            0 <= i < x_runs(row).len() ==> (#[trigger] x_runs(row)[i]).end.x <= row.last().x,
    decreases row.len(),
{
    let runs = x_runs(row);
    if row.len() == 0 {
        assert forall|p: BlockCoordinates| covers(runs, p) <==> row.contains(p) by {}
    } else if row.len() == 1 {
        assert forall|p: BlockCoordinates| covers(runs, p) <==> row.contains(p) by {
            if covers(runs, p) {
                assert(p == row[0]);
            }
            if row.contains(p) {
                assert(runs[0].contains(p));
            }
        }
    } else {
        let head = row.drop_last();
        let before = x_runs(head);
        let block = row.last();
        let single = BlockSequence { start: block, end: block };
        lemma_x_runs_tile(head, y, z);
        assert(head.last() == row[row.len() - 2]);
        assert(row[row.len() - 2].x < block.x);
        assert(clear_of(before, single)) by {
            assert forall|j: int, p: BlockCoordinates|
                0 <= j < before.len() && single.contains(p) implies !#[trigger] before[j].contains(
                p,
            ) by {
                assert(before[j].end.x <= head.last().x);
            }
        }
        if block.x == row[row.len() - 2].x + 1 {
            let last = before.len() - 1;
            let grown = BlockSequence { start: before.last().start, end: block };
            assert(before[last].is_box());
            assert(joins(grown, before[last], single));
            lemma_absorb(before, last, single, grown);
        } else {
            lemma_append(before, single);
        }
        assert forall|p: BlockCoordinates| covers(runs, p) <==> row.contains(p) by {
            assert(single.contains(p) <==> p == block);
            if head.contains(p) {
                let i = choose|i: int| 0 <= i < head.len() && head[i] == p;
                assert(row[i] == p);
            }
            if row.contains(p) {
                let i = choose|i: int| 0 <= i < row.len() && row[i] == p;
                if i < head.len() {
                    assert(head[i] == p);
                }
            }
        }
    }
}

/// The runs of a strictly ascending row are maximal: between the end of one
/// and the start of the next lies at least one place without a block.
pub proof fn x_runs_are_maximal(row: Seq<BlockCoordinates>)
    requires
        ascending_x(row),
    ensures
        forall|i: int|
            0 <= i < x_runs(row).len() - 1 ==> (#[trigger] x_runs(row)[i]).end.x + 1 < x_runs(
                row,
            )[i + 1].start.x,
        row.len() > 0 ==> x_runs(row).len() > 0 && x_runs(row).last().end == row.last(),
    decreases row.len(),
{
    let runs = x_runs(row);
    if row.len() > 1 {
        let head = row.drop_last();
        let before = x_runs(head);
        let block = row.last();
        x_runs_are_maximal(head);
        assert(head.last() == row[row.len() - 2]);
        assert(row[row.len() - 2].x < block.x);
        assert forall|i: int| 0 <= i < runs.len() - 1 implies (#[trigger] runs[i]).end.x + 1
            < runs[i + 1].start.x by {
            if i < before.len() - 1 {
                assert(before[i].end.x + 1 < before[i + 1].start.x);
            }
        }
    }
}

/// A row without repeated blocks, all in one `(y, z)`, is strictly
/// ascending in x once sorted.
pub proof fn lemma_sorted_row(row: Seq<BlockCoordinates>, y: isize, z: isize)
    requires
        in_row(row, y, z),
        row.no_duplicates(),
    ensures
        ascending_x(sort_by_x(row)),
        in_row(sort_by_x(row), y, z),
        forall|p: BlockCoordinates|
            #![trigger sort_by_x(row).contains(p)]
            #![trigger row.contains(p)]
            sort_by_x(row).contains(p) <==> row.contains(p),
{
    let sorted = sort_by_x(row);
    lemma_sort_by_x(row);
    assert forall|i: int| 0 <= i < sorted.len() implies (#[trigger] sorted[i]).y == y && sorted[i].z
        == z by {
        assert(sorted.contains(sorted[i]));
        assert(row.contains(sorted[i]));
        let h = choose|h: int| 0 <= h < row.len() && row[h] == sorted[i];
    }
    assert forall|i: int, j: int| 0 <= i < j < sorted.len() implies sorted[i].x < sorted[j].x by {
        assert(sorted[i] != sorted[j]);
        assert(sorted[i].y == sorted[j].y);
        assert(sorted[i].z == sorted[j].z);
    }
}

// ---------------------------------------------------------------------------
// Pass 2
// ---------------------------------------------------------------------------

/// The step of pass 2 for `s` joins boxes that lie over each other: the
/// sequence that takes `s` in starts at the same x.
pub open spec fn z_step_aligned(open: Seq<BlockSequence>, s: BlockSequence, z: int) -> bool {
    let i = first_match(open, z_candidate(s, z), 0);
    i < open.len() ==> open[i].start.x == s.start.x
}

/// Every step of pass 2 for one row joins boxes that lie over each other.
pub open spec fn z_aligned(open: Seq<BlockSequence>, row_sequences: Seq<BlockSequence>, z: int) -> bool
    decreases row_sequences.len(),
{
    row_sequences.len() > 0 ==> {
        &&& z_aligned(open, row_sequences.drop_last(), z)
        &&& z_step_aligned(
            stretch_z(open, row_sequences.drop_last(), z),
            row_sequences.last(),
            z,
        )
    }
}

/// Every sequence of `boxes` lies in plate `y` and ends before row `z`.
pub open spec fn boxes_in_plate_before(boxes: Seq<BlockSequence>, y: isize, z: int) -> bool {
    forall|i: int|
        0 <= i < boxes.len() ==> {
            &&& (#[trigger] boxes[i]).start.y == y
            &&& boxes[i].end.y == y
            &&& boxes[i].end.z < z
        }
}

/// Where `from` is a valid start, the first match is a match and nothing
/// before it is.
pub proof fn lemma_first_match(
    sequences: Seq<BlockSequence>,
    wanted: spec_fn(BlockSequence) -> bool,
    from: int,
)
    requires
        0 <= from <= sequences.len(),
    ensures
        from <= first_match(sequences, wanted, from) <= sequences.len(),
        first_match(sequences, wanted, from) < sequences.len() ==> wanted(
            sequences[first_match(sequences, wanted, from)],
        ),
        forall|j: int| from <= j < first_match(sequences, wanted, from) ==> !wanted(sequences[j]),
    decreases sequences.len() - from,
{
    if from < sequences.len() && !wanted(sequences[from]) {
        lemma_first_match(sequences, wanted, from + 1);
    }
}

/// Pass 2 for one row keeps the open sequences a tiling: where they tiled
/// the rows before `z` and `row_sequences` tile row `z`, the result tiles
/// both.
pub proof fn lemma_stretch_z_tiles(
    open: Seq<BlockSequence>,
    row_sequences: Seq<BlockSequence>,
    y: isize,
    z: isize,
)
    requires
        all_boxes(open),
        pairwise_disjoint(open),
        boxes_in_plate_before(open, y, z as int),
        all_boxes(row_sequences),
        pairwise_disjoint(row_sequences),
        boxes_in_row(row_sequences, y, z),
        z_aligned(open, row_sequences, z as int),
    ensures
        all_boxes(stretch_z(open, row_sequences, z as int)),
        pairwise_disjoint(stretch_z(open, row_sequences, z as int)),
        boxes_in_plate_before(stretch_z(open, row_sequences, z as int), y, z + 1),
        forall|p: BlockCoordinates|
            covers(stretch_z(open, row_sequences, z as int), p) <==> covers(open, p) || covers(
                row_sequences,
                p,
            ),
    decreases row_sequences.len(),
{
    let after = stretch_z(open, row_sequences, z as int);
    if row_sequences.len() == 0 {
        assert forall|p: BlockCoordinates| covers(after, p) <==> covers(open, p) || covers(
            row_sequences,
            p,
        ) by {}
    } else {
        let head = row_sequences.drop_last();
        let s = row_sequences.last();
        let before = stretch_z(open, head, z as int);
        assert(forall|i: int| 0 <= i < head.len() ==> head[i] == row_sequences[i]);
        lemma_stretch_z_tiles(open, head, y, z);
        assert(s == row_sequences[row_sequences.len() - 1]);
        assert(clear_of(before, s)) by {
            assert forall|j: int, p: BlockCoordinates|
                0 <= j < before.len() && s.contains(p) implies !#[trigger] before[j].contains(
                p,
            ) by {
                if before[j].contains(p) {
                    assert(covers(before, p));
                    if covers(open, p) {
                        let a = choose|a: int| 0 <= a < open.len() && #[trigger] open[a].contains(p);
                    } else {
                        let a = choose|a: int| 0 <= a < head.len() && #[trigger] head[a].contains(p);
                        assert(row_sequences[a].contains(p));
                    }
                }
            }
        }
        let i = first_match(before, z_candidate(s, z as int), 0);
        lemma_first_match(before, z_candidate(s, z as int), 0);
        if i < before.len() {
            let grown = stretched_to_z(before[i], s);
            assert(before[i].is_box());
            assert(joins(grown, before[i], s));
            lemma_absorb(before, i, s, grown);
        } else {
            lemma_append(before, s);
        }
        assert forall|p: BlockCoordinates| covers(after, p) <==> covers(open, p) || covers(
            row_sequences,
            p,
        ) by {
            if covers(head, p) {
                let a = choose|a: int| 0 <= a < head.len() && #[trigger] head[a].contains(p);
                assert(row_sequences[a].contains(p));
            }
            if covers(row_sequences, p) {
                let a = choose|a: int|
                    0 <= a < row_sequences.len() && #[trigger] row_sequences[a].contains(p);
                if a < head.len() {
                    assert(head[a].contains(p));
                }
            }
        }
    }
}

/// Every sequence of `boxes` ends in layer `y`.
pub open spec fn ends_at(boxes: Seq<BlockSequence>, y: int) -> bool {
    forall|i: int| 0 <= i < boxes.len() ==> (#[trigger] boxes[i]).end.y == y
}

/// Two lists that tile apart from each other tile together.
pub proof fn lemma_join(a: Seq<BlockSequence>, b: Seq<BlockSequence>)
    ensures
        all_boxes(a) && all_boxes(b) ==> all_boxes(a + b),
        pairwise_disjoint(a) && pairwise_disjoint(b) && apart(a, b) ==> pairwise_disjoint(a + b),
        forall|p: BlockCoordinates|
            #![trigger covers(a + b, p)]
            covers(a + b, p) <==> covers(a, p) || covers(b, p),
{
    let both = a + b;
    if pairwise_disjoint(a) && pairwise_disjoint(b) && apart(a, b) {
        assert forall|i: int, j: int, p: BlockCoordinates|
            0 <= i < both.len() && 0 <= j < both.len() && i != j && #[trigger] both[i].contains(p)
            implies !#[trigger] both[j].contains(p) by {
            if i < a.len() {
                assert(a[i].contains(p));
                if j < a.len() {
                    if a[j].contains(p) {
                    }
                } else {
                    if b[j - a.len()].contains(p) {
                    }
                }
            } else {
                assert(b[i - a.len()].contains(p));
                if j < a.len() {
                    if a[j].contains(p) {
                    }
                } else {
                    if b[j - a.len()].contains(p) {
                    }
                }
            }
        }
    }
    assert forall|p: BlockCoordinates| #![trigger covers(both, p)] covers(both, p) <==> covers(a, p) || covers(b, p) by {
        if covers(both, p) {
            let i = choose|i: int| 0 <= i < both.len() && #[trigger] both[i].contains(p);
            if i < a.len() {
                assert(a[i].contains(p));
            } else {
                assert(b[i - a.len()].contains(p));
            }
        }
        if covers(a, p) {
            let i = choose|i: int| 0 <= i < a.len() && #[trigger] a[i].contains(p);
            assert(both[i].contains(p));
        }
        if covers(b, p) {
            let i = choose|i: int| 0 <= i < b.len() && #[trigger] b[i].contains(p);
            assert(both[i + a.len()].contains(p));
        }
    }
}

/// The parts of a list that tiles tile, apart from each other.
pub proof fn lemma_split(a: Seq<BlockSequence>, b: Seq<BlockSequence>)
    ensures
        all_boxes(a + b) ==> all_boxes(a) && all_boxes(b),
        pairwise_disjoint(a + b) ==> pairwise_disjoint(a) && pairwise_disjoint(b) && apart(a, b),
{
    let both = a + b;
    if all_boxes(both) {
        assert forall|i: int| 0 <= i < a.len() implies (#[trigger] a[i]).is_box() by {
            assert(both[i] == a[i]);
        }
        assert forall|i: int| 0 <= i < b.len() implies (#[trigger] b[i]).is_box() by {
            assert(both[i + a.len()] == b[i]);
        }
    }
    if pairwise_disjoint(both) {
        assert forall|i: int, j: int, p: BlockCoordinates|
            0 <= i < a.len() && 0 <= j < a.len() && i != j && #[trigger] a[i].contains(p)
            implies !#[trigger] a[j].contains(p) by {
            assert(both[i].contains(p));
            if both[j].contains(p) {
            }
        }
        assert forall|i: int, j: int, p: BlockCoordinates|
            0 <= i < b.len() && 0 <= j < b.len() && i != j && #[trigger] b[i].contains(p)
            implies !#[trigger] b[j].contains(p) by {
            assert(both[i + a.len()].contains(p));
            if both[j + a.len()].contains(p) {
            }
        }
        assert forall|i: int, j: int, p: BlockCoordinates|
            0 <= i < a.len() && 0 <= j < b.len() && #[trigger] a[i].contains(p)
            implies !#[trigger] b[j].contains(p) by {
            assert(both[i].contains(p));
            if both[j + a.len()].contains(p) {
            }
        }
    }
}

// ---------------------------------------------------------------------------
// Pass 3
// ---------------------------------------------------------------------------

/// The step of pass 3 for `s` joins boxes that lie on each other: the
/// sequence that takes `s` in has the footprint of `s` and starts in the
/// layer above its end.
pub open spec fn y_step_aligned(current: Seq<BlockSequence>, s: BlockSequence) -> bool {
    let i = first_match(current, y_candidate(s), 0);
    i < current.len() ==> {
        &&& current[i].start.x == s.start.x
        &&& current[i].start.z == s.start.z
        &&& current[i].start.y == s.end.y + 1
    }
}

/// Every step of pass 3 between two plates joins boxes that lie on each
/// other.
pub open spec fn y_aligned(previous: Seq<BlockSequence>, current: Seq<BlockSequence>) -> bool
    decreases previous.len(),
{
    previous.len() > 0 ==> {
        &&& y_aligned(previous.drop_last(), current)
        &&& y_step_aligned(stretch_y(previous.drop_last(), current).current, previous.last())
    }
}

/// Pass 3 between two plates keeps a tiling: what is kept of the plate below
/// and what the current plate becomes tile what both tiled before.
pub proof fn lemma_stretch_y_tiles(
    previous: Seq<BlockSequence>,
    current: Seq<BlockSequence>,
    y: int,
)
    requires
        all_boxes(previous),
        pairwise_disjoint(previous),
        ends_at(previous, y - 1),
        all_boxes(current),
        pairwise_disjoint(current),
        ends_at(current, y),
        apart(previous, current),
        y_aligned(previous, current),
    ensures
        all_boxes(stretch_y(previous, current).current + stretch_y(previous, current).kept),
        pairwise_disjoint(stretch_y(previous, current).current + stretch_y(previous, current).kept),
        ends_at(stretch_y(previous, current).kept, y - 1),
        ends_at(stretch_y(previous, current).current, y),
        forall|p: BlockCoordinates|
            #![trigger covers(stretch_y(previous, current).current + stretch_y(previous, current).kept, p)]
            covers(stretch_y(previous, current).current + stretch_y(previous, current).kept, p)
                <==> covers(previous, p) || covers(current, p),
    decreases previous.len(),
{
    let after = stretch_y(previous, current);
    let all_after = after.current + after.kept;
    if previous.len() == 0 {
        assert(all_after == current);
        assert forall|p: BlockCoordinates| covers(all_after, p) <==> covers(previous, p) || covers(
            current,
            p,
        ) by {}
    } else {
        let head = previous.drop_last();
        let s = previous.last();
        let before = stretch_y(head, current);
        let all_before = before.current + before.kept;
        assert(forall|i: int| 0 <= i < head.len() ==> head[i] == previous[i]);
        lemma_stretch_y_tiles(head, current, y);
        assert(s == previous[previous.len() - 1]);
        assert(clear_of(all_before, s)) by {
            assert forall|j: int, p: BlockCoordinates|
                0 <= j < all_before.len() && s.contains(p) implies !#[trigger] all_before[j].contains(
                p,
            ) by {
                if all_before[j].contains(p) {
                    assert(covers(all_before, p));
                    if covers(current, p) {
                        let a = choose|a: int|
                            0 <= a < current.len() && #[trigger] current[a].contains(p);
                    } else {
                        let a = choose|a: int| 0 <= a < head.len() && #[trigger] head[a].contains(p);
                        assert(previous[a].contains(p));
                    }
                }
            }
        }
        let i = first_match(before.current, y_candidate(s), 0);
        lemma_first_match(before.current, y_candidate(s), 0);
        if i < before.current.len() {
            let t = before.current[i];
            let grown = BlockSequence { start: s.start, end: t.end };
            assert(all_before[i] == t);
            assert(t.is_box());
            assert(t.end.y == y);
            assert(joins(grown, t, s));
            lemma_absorb(all_before, i, s, grown);
            assert(all_after == all_before.update(i, grown));
        } else {
            lemma_append(all_before, s);
            assert(all_after == all_before.push(s));
        }
        assert forall|p: BlockCoordinates| covers(all_after, p) <==> covers(previous, p) || covers(
            current,
            p,
        ) by {
            assert(covers(all_after, p) <==> covers(all_before, p) || s.contains(p));
            if covers(head, p) {
                let a = choose|a: int| 0 <= a < head.len() && #[trigger] head[a].contains(p);
                assert(previous[a].contains(p));
            }
            if covers(previous, p) {
                let a = choose|a: int| 0 <= a < previous.len() && #[trigger] previous[a].contains(p);
                if a < head.len() {
                    assert(head[a].contains(p));
                }
            }
        }
    }
}

// ---------------------------------------------------------------------------
// Plates
// ---------------------------------------------------------------------------

/// Every step of pass 2 over the rows of a plate joins boxes that lie over
/// each other.
pub open spec fn plate_aligned(rows: Seq<RowView>) -> bool
    decreases rows.len(),
{
    rows.len() > 0 ==> {
        &&& plate_aligned(rows.drop_last())
        &&& z_aligned(
            plate_sequences(rows.drop_last()),
            x_runs(sort_by_x(rows.last().blocks)),
            rows.last().z as int,
        )
    }
}

/// Passes 1 and 2 over the rows of a plate give a tiling of its blocks.
pub proof fn lemma_plate_tiles(rows: Seq<RowView>, y: isize)
    requires
        rows_ordered(rows, y),
        rows_distinct(rows),
        plate_aligned(rows),
    ensures
        all_boxes(plate_sequences(rows)),
        pairwise_disjoint(plate_sequences(rows)),
        rows.len() == 0 ==> plate_sequences(rows).len() == 0,
        rows.len() > 0 ==> boxes_in_plate_before(plate_sequences(rows), y, rows.last().z + 1),
        forall|p: BlockCoordinates|
            #![trigger covers(plate_sequences(rows), p)]
            #![trigger rows_contain(rows, p)]
            covers(plate_sequences(rows), p) <==> rows_contain(rows, p),
    decreases rows.len(),
{
    let after = plate_sequences(rows);
    if rows.len() == 0 {
        assert forall|p: BlockCoordinates| covers(after, p) <==> rows_contain(rows, p) by {}
    } else {
        let head = rows.drop_last();
        let row = rows.last();
        let before = plate_sequences(head);
        let sorted = sort_by_x(row.blocks);
        let runs = x_runs(sorted);
        assert(forall|i: int| 0 <= i < head.len() ==> head[i] == rows[i]);
        assert(row == rows[rows.len() - 1]);
        lemma_plate_tiles(head, y);
        lemma_sorted_row(row.blocks, y, row.z);
        lemma_x_runs_tile(sorted, y, row.z);
        assert(boxes_in_plate_before(before, y, row.z as int)) by {
            if head.len() > 0 {
                assert(head.last() == rows[rows.len() - 2]);
            }
        }
        lemma_stretch_z_tiles(before, runs, y, row.z);
        assert forall|p: BlockCoordinates| covers(after, p) <==> rows_contain(rows, p) by {
            assert(covers(after, p) <==> covers(before, p) || covers(runs, p));
            assert(covers(runs, p) <==> row.blocks.contains(p)) by {
                assert(sorted.contains(p) <==> row.blocks.contains(p));
            }
            assert(covers(before, p) <==> rows_contain(head, p));
            if rows_contain(head, p) {
                let r = choose|r: int| 0 <= r < head.len() && (#[trigger] head[r]).blocks.contains(p);
                assert(rows[r].blocks.contains(p));
            }
            if rows_contain(rows, p) {
                let r = choose|r: int| 0 <= r < rows.len() && (#[trigger] rows[r]).blocks.contains(p);
                if r < head.len() {
                    assert(head[r].blocks.contains(p));
                }
            }
            if row.blocks.contains(p) {
                assert(rows[rows.len() - 1].blocks.contains(p));
            }
        }
    }
}

// ---------------------------------------------------------------------------
// Layers
// ---------------------------------------------------------------------------

/// Some sequence of some layer contains `p`.
pub open spec fn layer_covers(layers: Map<isize, Seq<BlockSequence>>, p: BlockCoordinates) -> bool {
    exists|y: isize, i: int|
        layers.contains_key(y) && 0 <= i < layers[y].len() && #[trigger] layers[y][i].contains(p)
}

/// No block lies in two sequences of the layers.
pub open spec fn layers_disjoint(layers: Map<isize, Seq<BlockSequence>>) -> bool {
    forall|y1: isize, i1: int, y2: isize, i2: int, p: BlockCoordinates|
        layers.contains_key(y1) && 0 <= i1 < layers[y1].len() && layers.contains_key(y2) && 0 <= i2
            < layers[y2].len() && (y1 != y2 || i1 != i2) && #[trigger] layers[y1][i1].contains(p)
            ==> !#[trigger] layers[y2][i2].contains(p)
}

/// Every sequence of a layer is a box that ends in that layer.
pub open spec fn layers_settled(layers: Map<isize, Seq<BlockSequence>>) -> bool {
    forall|y: isize, i: int|
        layers.contains_key(y) && 0 <= i < layers[y].len() ==> (#[trigger] layers[y][i]).is_box()
            && layers[y][i].end.y == y
}

/// Every layer lies below `y`.
pub open spec fn layers_below(layers: Map<isize, Seq<BlockSequence>>, y: int) -> bool {
    forall|k: isize| #[trigger] layers.contains_key(k) ==> k < y
}

/// Every sequence of `boxes` lies in plate `y`.
pub open spec fn flat_at(boxes: Seq<BlockSequence>, y: int) -> bool {
    forall|i: int| 0 <= i < boxes.len() ==> (#[trigger] boxes[i]).start.y == y && boxes[i].end.y == y
}

/// Pass 3 for plate `y` joins boxes that lie on each other.
pub open spec fn y_layers_aligned(
    layers: Map<isize, Seq<BlockSequence>>,
    current: Seq<BlockSequence>,
    y: isize,
) -> bool {
    y > isize::MIN && layers.contains_key((y - 1) as isize) ==> y_aligned(
        layers[(y - 1) as isize],
        current,
    )
}

/// Pass 3 for one plate keeps the layers a tiling and adds the blocks of
/// the plate to what they cover.
pub proof fn lemma_layers_step(
    layers: Map<isize, Seq<BlockSequence>>,
    current: Seq<BlockSequence>,
    y: isize,
)
    requires
        layers_disjoint(layers),
        layers_settled(layers),
        layers_below(layers, y as int),
        all_boxes(current),
        pairwise_disjoint(current),
        flat_at(current, y as int),
        y_layers_aligned(layers, current, y),
    ensures
        layers_disjoint(stretch_y_layers(layers, current, y)),
        layers_settled(stretch_y_layers(layers, current, y)),
        layers_below(stretch_y_layers(layers, current, y), y + 1),
        forall|p: BlockCoordinates|
            #![trigger layer_covers(stretch_y_layers(layers, current, y), p)]
            layer_covers(stretch_y_layers(layers, current, y), p) <==> layer_covers(layers, p)
                || covers(current, p),
{
    let after = stretch_y_layers(layers, current, y);
    if y > isize::MIN && layers.contains_key((y - 1) as isize) {
        let below = (y - 1) as isize;
        let previous = layers[below];
        let stretched = stretch_y(previous, current);
        let fresh = stretched.current + stretched.kept;
        assert(all_boxes(previous));
        assert(pairwise_disjoint(previous));
        assert(ends_at(previous, y - 1));
        assert(apart(previous, current));
        lemma_stretch_y_tiles(previous, current, y as int);
        lemma_split(stretched.current, stretched.kept);
        lemma_join(stretched.current, stretched.kept);
        assert(after == layers.insert(below, stretched.kept).insert(y, stretched.current));
        assert forall|k: isize, i: int|
            after.contains_key(k) && 0 <= i < after[k].len() implies (#[trigger] after[k][i]).is_box()
            && after[k][i].end.y == k by {
            if k == y {
            } else if k == below {
            } else {
                assert(layers[k][i].is_box());
            }
        }
        // Where a new sequence holds a block, an old one of the layer below
        // or one of the plate held it.
        assert forall|k: isize, i: int, p: BlockCoordinates|
            (k == y || k == below) && 0 <= i < after[k].len() && #[trigger] after[k][i].contains(
                p,
            ) implies covers(previous, p) || covers(current, p) by {
            if k == y {
                assert(fresh[i].contains(p));
            } else {
                assert(fresh[stretched.current.len() + i].contains(p));
            }
            assert(covers(fresh, p));
        }
        assert forall|p: BlockCoordinates| layer_covers(after, p) <==> layer_covers(layers, p)
            || covers(current, p) by {
            if layer_covers(after, p) {
                let (k, i) = choose|k: isize, i: int|
                    after.contains_key(k) && 0 <= i < after[k].len() && #[trigger] after[k][i].contains(
                        p,
                    );
                if k == y || k == below {
                    if covers(previous, p) {
                        let j = choose|j: int|
                            0 <= j < previous.len() && #[trigger] previous[j].contains(p);
                        assert(layers[below][j].contains(p));
                    }
                } else {
                    assert(layers[k][i].contains(p));
                }
            }
            if covers(fresh, p) {
                if covers(stretched.current, p) {
                    let j = choose|j: int|
                        0 <= j < stretched.current.len() && #[trigger] stretched.current[j].contains(
                            p,
                        );
                    assert(after[y][j].contains(p));
                } else {
                    let j = choose|j: int|
                        0 <= j < stretched.kept.len() && #[trigger] stretched.kept[j].contains(p);
                    assert(after[below][j].contains(p));
                }
            }
            if layer_covers(layers, p) {
                let (k, i) = choose|k: isize, i: int|
                    layers.contains_key(k) && 0 <= i < layers[k].len() && #[trigger] layers[k][i].contains(
                        p,
                    );
                if k == below {
                    assert(previous[i].contains(p));
                    assert(covers(previous, p));
                    assert(covers(fresh, p));
                } else {
                    assert(after[k][i].contains(p));
                }
            }
            if covers(current, p) {
                assert(covers(fresh, p));
            }
        }
        // An old sequence of another layer holds no block of a new one.
        assert forall|k: isize, i: int, p: BlockCoordinates|
            layers.contains_key(k) && k != below && 0 <= i < layers[k].len() && (covers(
                previous,
                p,
            ) || covers(current, p)) implies !#[trigger] layers[k][i].contains(p) by {
            if covers(previous, p) {
                let j = choose|j: int| 0 <= j < previous.len() && #[trigger] previous[j].contains(p);
                assert(layers[below][j].contains(p));
            } else {
                let j = choose|j: int| 0 <= j < current.len() && #[trigger] current[j].contains(p);
                assert(layers[k][i].end.y == k);
            }
        }
        assert forall|y1: isize, i1: int, y2: isize, i2: int, p: BlockCoordinates|
            after.contains_key(y1) && 0 <= i1 < after[y1].len() && after.contains_key(y2) && 0 <= i2
                < after[y2].len() && (y1 != y2 || i1 != i2) && #[trigger] after[y1][i1].contains(
                p,
            ) implies !#[trigger] after[y2][i2].contains(p) by {
            let new1 = y1 == y || y1 == below;
            let new2 = y2 == y || y2 == below;
            if new1 && new2 {
                let a = if y1 == y {
                    i1
                } else {
                    stretched.current.len() + i1
                };
                let b = if y2 == y {
                    i2
                } else {
                    stretched.current.len() + i2
                };
                assert(fresh[a].contains(p));
                if fresh[b].contains(p) {
                }
            } else if new1 {
                assert(layers[y2][i2] == after[y2][i2]);
            } else if new2 {
                assert(layers[y1][i1].contains(p));
                if after[y2][i2].contains(p) {
                }
            } else {
                assert(layers[y1][i1].contains(p));
                if layers[y2][i2].contains(p) {
                }
            }
        }
    } else {
        assert(after == layers.insert(y, current));
        assert forall|k: isize, i: int|
            after.contains_key(k) && 0 <= i < after[k].len() implies (#[trigger] after[k][i]).is_box()
            && after[k][i].end.y == k by {
            if k != y {
                assert(layers[k][i].is_box());
            }
        }
        assert forall|p: BlockCoordinates| layer_covers(after, p) <==> layer_covers(layers, p)
            || covers(current, p) by {
            if layer_covers(after, p) {
                let (k, i) = choose|k: isize, i: int|
                    after.contains_key(k) && 0 <= i < after[k].len() && #[trigger] after[k][i].contains(
                        p,
                    );
                if k == y {
                    assert(current[i].contains(p));
                } else {
                    assert(layers[k][i].contains(p));
                }
            }
            if layer_covers(layers, p) {
                let (k, i) = choose|k: isize, i: int|
                    layers.contains_key(k) && 0 <= i < layers[k].len() && #[trigger] layers[k][i].contains(
                        p,
                    );
                assert(after[k][i].contains(p));
            }
            if covers(current, p) {
                let j = choose|j: int| 0 <= j < current.len() && #[trigger] current[j].contains(p);
                assert(after[y][j].contains(p));
            }
        }
        assert forall|y1: isize, i1: int, y2: isize, i2: int, p: BlockCoordinates|
            after.contains_key(y1) && 0 <= i1 < after[y1].len() && after.contains_key(y2) && 0 <= i2
                < after[y2].len() && (y1 != y2 || i1 != i2) && #[trigger] after[y1][i1].contains(
                p,
            ) implies !#[trigger] after[y2][i2].contains(p) by {
            if y1 == y && y2 == y {
                assert(current[i1].contains(p));
                if current[i2].contains(p) {
                }
            } else if y1 == y {
                assert(current[i1].contains(p));
                assert(layers[y2][i2].end.y == y2);
            } else if y2 == y {
                assert(layers[y1][i1].contains(p));
                assert(layers[y1][i1].end.y == y1);
                if current[i2].contains(p) {
                }
            } else {
                assert(layers[y1][i1].contains(p));
                if layers[y2][i2].contains(p) {
                }
            }
        }
    }
}

/// Every merge of the whole run joins two boxes whose footprints coincide:
/// in pass 2 the sequence that takes a run in lies over it, in pass 3 the
/// sequence that takes one in lies on it.
pub open spec fn merges_aligned(plates: Seq<PlateView>) -> bool
    decreases plates.len(),
{
    plates.len() > 0 ==> {
        &&& merges_aligned(plates.drop_last())
        &&& plate_aligned(plates.last().rows)
        &&& y_layers_aligned(
            merge_layers(plates.drop_last()),
            plate_sequences(plates.last().rows),
            plates.last().y,
        )
    }
}

/// The merged layers tile the indexed blocks.
pub proof fn lemma_merge_layers_tile(plates: Seq<PlateView>)
    requires
        stack_ordered(plates),
        stack_distinct(plates),
        merges_aligned(plates),
    ensures
        layers_disjoint(merge_layers(plates)),
        layers_settled(merge_layers(plates)),
        plates.len() == 0 ==> merge_layers(plates) == (Map::<isize, Seq<BlockSequence>>::empty()),
        plates.len() > 0 ==> layers_below(merge_layers(plates), plates.last().y + 1),
        forall|p: BlockCoordinates|
            #![trigger layer_covers(merge_layers(plates), p)]
            #![trigger stack_contains(plates, p)]
            layer_covers(merge_layers(plates), p) <==> stack_contains(plates, p),
    decreases plates.len(),
{
    let after = merge_layers(plates);
    if plates.len() == 0 {
        assert forall|p: BlockCoordinates| layer_covers(after, p) <==> stack_contains(plates, p) by {}
    } else {
        let head = plates.drop_last();
        let plate = plates.last();
        let layers = merge_layers(head);
        let current = plate_sequences(plate.rows);
        assert(forall|i: int| 0 <= i < head.len() ==> head[i] == plates[i]);
        assert(plate == plates[plates.len() - 1]);
        lemma_merge_layers_tile(head);
        lemma_plate_tiles(plate.rows, plate.y);
        assert(layers_below(layers, plate.y as int)) by {
            if head.len() > 0 {
                assert(head.last() == plates[plates.len() - 2]);
            }
        }
        lemma_layers_step(layers, current, plate.y);
        assert forall|p: BlockCoordinates| layer_covers(after, p) <==> stack_contains(plates, p) by {
            assert(layer_covers(after, p) <==> layer_covers(layers, p) || covers(current, p));
            assert(layer_covers(layers, p) <==> stack_contains(head, p));
            assert(covers(current, p) <==> rows_contain(plate.rows, p));
            if stack_contains(head, p) {
                let q = choose|q: int| 0 <= q < head.len() && rows_contain((#[trigger] head[q]).rows, p);
                assert(rows_contain(plates[q].rows, p));
            }
            if stack_contains(plates, p) {
                let q = choose|q: int|
                    0 <= q < plates.len() && rows_contain((#[trigger] plates[q]).rows, p);
                if q < head.len() {
                    assert(rows_contain(head[q].rows, p));
                }
            }
            if rows_contain(plate.rows, p) {
                assert(rows_contain(plates[plates.len() - 1].rows, p));
            }
        }
    }
}

// ---------------------------------------------------------------------------
// The output
// ---------------------------------------------------------------------------

/// Some sequence of a layer named by `order` contains `p`.
pub open spec fn order_covers(
    layers: Map<isize, Seq<BlockSequence>>,
    order: Seq<isize>,
    p: BlockCoordinates,
) -> bool {
    exists|j: int, i: int|
        0 <= j < order.len() && 0 <= i < layers[order[j]].len() && #[trigger] layers[order[j]][i].contains(
            p,
        )
}

/// Layers that tile still tile when they are put one behind the other.
pub proof fn lemma_concat_tiles(layers: Map<isize, Seq<BlockSequence>>, order: Seq<isize>)
    requires
        order.no_duplicates(),
        forall|j: int| 0 <= j < order.len() ==> layers.contains_key(#[trigger] order[j]),
        layers_disjoint(layers),
        layers_settled(layers),
    ensures
        all_boxes(concat_layers(layers, order)),
        pairwise_disjoint(concat_layers(layers, order)),
        forall|p: BlockCoordinates|
            #![trigger covers(concat_layers(layers, order), p)]
            covers(concat_layers(layers, order), p) <==> order_covers(layers, order, p),
    decreases order.len(),
{
    let out = concat_layers(layers, order);
    if order.len() == 0 {
        assert forall|p: BlockCoordinates| covers(out, p) <==> order_covers(layers, order, p) by {}
    } else {
        let head = order.drop_last();
        let top = order.last();
        let before = concat_layers(layers, head);
        let last = layers[top];
        assert(forall|j: int| 0 <= j < head.len() ==> head[j] == order[j]);
        assert(top == order[order.len() - 1]);
        lemma_concat_tiles(layers, head);
        assert(all_boxes(last)) by {
            assert forall|i: int| 0 <= i < last.len() implies (#[trigger] last[i]).is_box() by {
                assert(layers[top][i].is_box());
            }
        }
        assert(pairwise_disjoint(last)) by {
            assert forall|i: int, j: int, p: BlockCoordinates|
                0 <= i < last.len() && 0 <= j < last.len() && i != j && #[trigger] last[i].contains(
                    p,
                ) implies !#[trigger] last[j].contains(p) by {
                assert(layers[top][i].contains(p));
                if layers[top][j].contains(p) {
                }
            }
        }
        assert(apart(before, last)) by {
            assert forall|n: int, b: int, p: BlockCoordinates|
                0 <= n < before.len() && 0 <= b < last.len() && #[trigger] before[n].contains(
                    p,
                ) implies !#[trigger] last[b].contains(p) by {
                assert(covers(before, p));
                assert(order_covers(layers, head, p));
                let (j, i) = choose|j: int, i: int|
                    0 <= j < head.len() && 0 <= i < layers[head[j]].len() && #[trigger] layers[head[j]][i].contains(
                        p,
                    );
                assert(order[j] != order[order.len() - 1]);
                if layers[top][b].contains(p) {
                }
            }
        }
        lemma_join(before, last);
        assert forall|p: BlockCoordinates| covers(out, p) <==> order_covers(layers, order, p) by {
            assert(covers(out, p) <==> covers(before, p) || covers(last, p));
            assert(covers(before, p) <==> order_covers(layers, head, p));
            if order_covers(layers, head, p) {
                let (j, i) = choose|j: int, i: int|
                    0 <= j < head.len() && 0 <= i < layers[head[j]].len() && #[trigger] layers[head[j]][i].contains(
                        p,
                    );
                assert(layers[order[j]][i].contains(p));
            }
            if covers(last, p) {
                let i = choose|i: int| 0 <= i < last.len() && #[trigger] last[i].contains(p);
                assert(layers[order[order.len() - 1]][i].contains(p));
            }
            if order_covers(layers, order, p) {
                let (j, i) = choose|j: int, i: int|
                    0 <= j < order.len() && 0 <= i < layers[order[j]].len() && #[trigger] layers[order[j]][i].contains(
                        p,
                    );
                if j < head.len() {
                    assert(layers[head[j]][i].contains(p));
                } else {
                    assert(last[i].contains(p));
                }
            }
        }
    }
}

/// What the merge of an ordered index without repeated blocks returns is a
/// tiling of the indexed blocks, where every merge joined boxes with the same
/// footprint.
pub proof fn lemma_merge_output_tiles(plates: Seq<PlateView>, out: Seq<BlockSequence>)
    requires
        stack_ordered(plates),
        stack_distinct(plates),
        merges_aligned(plates),
        is_merge_output(out, plates),
    ensures
        all_boxes(out),
        pairwise_disjoint(out),
        forall|p: BlockCoordinates| covers(out, p) <==> stack_contains(plates, p),
{
    let layers = merge_layers(plates);
    let order = choose|order: Seq<isize>|
        is_layer_order(layers, order) && out == concat_layers(layers, order);
    lemma_merge_layers_tile(plates);
    assert forall|j: int| 0 <= j < order.len() implies layers.contains_key(
        #[trigger] order[j],
    ) by {
        assert(order.contains(order[j]));
    }
    lemma_concat_tiles(layers, order);
    assert forall|p: BlockCoordinates| covers(out, p) <==> stack_contains(plates, p) by {
        assert(covers(out, p) <==> order_covers(layers, order, p));
        assert(layer_covers(layers, p) <==> stack_contains(plates, p));
        if order_covers(layers, order, p) {
            let (j, i) = choose|j: int, i: int|
                0 <= j < order.len() && 0 <= i < layers[order[j]].len() && #[trigger] layers[order[j]][i].contains(
                    p,
                );
        }
        if layer_covers(layers, p) {
            let (k, i) = choose|k: isize, i: int|
                layers.contains_key(k) && 0 <= i < layers[k].len() && #[trigger] layers[k][i].contains(
                    p,
                );
            assert(order.contains(k));
            let j = choose|j: int| 0 <= j < order.len() && order[j] == k;
            assert(layers[order[j]][i].contains(p));
        }
    }
}

/// The boxes that the merge returns hold exactly the blocks that were put
/// in: a block lies in some box if and only if it is one of `blocks`.
///
/// This holds where no block stands twice in `blocks`, and of a run in which
/// every merge joined two boxes with the same footprint. The engine compares
/// sizes only; where it joins two boxes of equal size that stand apart, the
/// grown box holds blocks that were never put in.
pub proof fn merge_covers_exactly(blocks: Seq<BlockCoordinates>, out: Seq<BlockSequence>)
    requires
        blocks.no_duplicates(),
        merges_aligned(stack_of(blocks)),
        is_merge_output(out, stack_of(blocks)),
    ensures
        forall|p: BlockCoordinates| covers(out, p) <==> blocks.contains(p),
{
    lemma_index_holds_the_blocks(blocks);
    lemma_merge_output_tiles(stack_of(blocks), out);
}

/// No two boxes that the merge returns share a block, and each of them has
/// its start before or at its end on every axis.
///
/// This holds under the conditions of [`merge_covers_exactly`].
pub proof fn merge_never_overlaps(blocks: Seq<BlockCoordinates>, out: Seq<BlockSequence>)
    requires
        blocks.no_duplicates(),
        merges_aligned(stack_of(blocks)),
        is_merge_output(out, stack_of(blocks)),
    ensures
        pairwise_disjoint(out),
        all_boxes(out),
{
    lemma_index_holds_the_blocks(blocks);
    lemma_merge_output_tiles(stack_of(blocks), out);
}

} // verus!
