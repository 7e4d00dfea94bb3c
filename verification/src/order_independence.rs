//! The merge does not depend on the order in which the blocks were indexed.

use crate::block_sequence::BlockSequence;
use crate::block_stack::{
    blocks_at, has_row, in_row, indexes, lemma_blocks_at, lemma_stack_of_indexes, stack_of,
    PlateView, RowView,
};
use crate::coordinates::BlockCoordinates;
use crate::coverage::lemma_sorted_row;
use crate::merge::{
    concat_layers, is_layer_order, is_merge_output, merge_layers, plate_sequences,
};
use crate::sort::sort_by_x;
use vstd::prelude::*;

verus! {

/// The numbers of `keys` stand in strictly ascending order.
pub open spec fn ascending(keys: Seq<int>) -> bool {
    forall|i: int, j: int| 0 <= i < j < keys.len() ==> keys[i] < keys[j]
}

/// Two strictly ascending sequences that hold the same numbers are equal.
pub proof fn lemma_ascending_unique(s: Seq<int>, t: Seq<int>)
    requires
        ascending(s),
        ascending(t),
        forall|i: int| 0 <= i < s.len() ==> t.contains(#[trigger] s[i]),
        forall|i: int| 0 <= i < t.len() ==> s.contains(#[trigger] t[i]),
    ensures
        s == t,
    decreases s.len(),
{
    if s.len() == 0 {
        if t.len() > 0 {
            assert(s.contains(t[0]));
        }
        assert(s == t);
    } else {
        assert(t.contains(s[0]));
        let top_s = s.last();
        let top_t = t.last();
        assert(t.contains(s[s.len() - 1]));
        let j = choose|j: int| 0 <= j < t.len() && t[j] == top_s;
        assert(s.contains(t[t.len() - 1]));
        let i = choose|i: int| 0 <= i < s.len() && s[i] == top_t;
        assert(top_s == top_t);
        let head_s = s.drop_last();
        let head_t = t.drop_last();
        assert forall|a: int| 0 <= a < head_s.len() implies head_t.contains(
            #[trigger] head_s[a],
        ) by {
            assert(t.contains(s[a]));
            let b = choose|b: int| 0 <= b < t.len() && t[b] == s[a];
            assert(head_t[b] == s[a]);
        }
        assert forall|b: int| 0 <= b < head_t.len() implies head_s.contains(
            #[trigger] head_t[b],
        ) by {
            assert(s.contains(t[b]));
            let a = choose|a: int| 0 <= a < s.len() && s[a] == t[b];
            assert(head_s[a] == t[b]);
        }
        lemma_ascending_unique(head_s, head_t);
        assert(s == head_s.push(top_s));
        assert(t == head_t.push(top_t));
    }
}

/// Two lists of rows with the same z, row by row, whose blocks are the same
/// once sorted.
pub open spec fn rows_alike(a: Seq<RowView>, b: Seq<RowView>) -> bool {
    &&& a.len() == b.len()
    &&& forall|r: int|
        0 <= r < a.len() ==> (#[trigger] a[r]).z == b[r].z && sort_by_x(a[r].blocks) == sort_by_x(
            b[r].blocks,
        )
}

/// Two lists of plates with the same y, plate by plate, and rows alike.
pub open spec fn plates_alike(a: Seq<PlateView>, b: Seq<PlateView>) -> bool {
    &&& a.len() == b.len()
    &&& forall|q: int|
        0 <= q < a.len() ==> (#[trigger] a[q]).y == b[q].y && rows_alike(a[q].rows, b[q].rows)
}

/// Rows that are alike give the same sequences.
proof fn lemma_alike_rows_merge(a: Seq<RowView>, b: Seq<RowView>)
    requires
        rows_alike(a, b),
    ensures
        plate_sequences(a) == plate_sequences(b),
    decreases a.len(),
{
    if a.len() > 0 {
        assert(a.last() == a[a.len() - 1]);
        assert(b.last() == b[b.len() - 1]);
        assert forall|r: int| 0 <= r < a.drop_last().len() implies (#[trigger] a.drop_last()[r]).z
            == b.drop_last()[r].z && sort_by_x(a.drop_last()[r].blocks) == sort_by_x(
            b.drop_last()[r].blocks,
        ) by {
            assert(a.drop_last()[r] == a[r]);
            assert(b.drop_last()[r] == b[r]);
        }
        lemma_alike_rows_merge(a.drop_last(), b.drop_last());
    }
}

/// Plates that are alike merge into the same layers.
pub proof fn lemma_alike_merge(a: Seq<PlateView>, b: Seq<PlateView>)
    requires
        plates_alike(a, b),
    ensures
        merge_layers(a) == merge_layers(b),
    decreases a.len(),
{
    if a.len() > 0 {
        assert(a.last() == a[a.len() - 1]);
        assert(b.last() == b[b.len() - 1]);
        assert forall|q: int| 0 <= q < a.drop_last().len() implies (#[trigger] a.drop_last()[q]).y
            == b.drop_last()[q].y && rows_alike(a.drop_last()[q].rows, b.drop_last()[q].rows) by {
            assert(a.drop_last()[q] == a[q]);
            assert(b.drop_last()[q] == b[q]);
        }
        lemma_alike_merge(a.drop_last(), b.drop_last());
        lemma_alike_rows_merge(a.last().rows, b.last().rows);
    }
}

/// The index has a row exactly where an indexed block lies.
proof fn lemma_rows_follow_blocks(
    plates: Seq<PlateView>,
    blocks: Seq<BlockCoordinates>,
    y: isize,
    z: isize,
)
    requires
        indexes(plates, blocks),
    ensures
        has_row(plates, y, z) <==> exists|i: int|
            0 <= i < blocks.len() && (#[trigger] blocks[i]).y == y && blocks[i].z == z,
{
    if has_row(plates, y, z) {
        let (q, r) = choose|q: int, r: int|
            0 <= q < plates.len() && 0 <= r < plates[q].rows.len() && plates[q].y == y
                && #[trigger] plates[q].rows[r].z == z;
        let held = plates[q].rows[r].blocks;
        lemma_blocks_at(blocks, y, z);
        assert(held.contains(held[0]));
        assert(blocks.contains(held[0]));
        let i = choose|i: int| 0 <= i < blocks.len() && blocks[i] == held[0];
        assert(blocks[i].y == y && blocks[i].z == z);
    }
}

/// Two indexes of the same blocks have rows in the same places.
proof fn lemma_same_rows(
    pa: Seq<PlateView>,
    a: Seq<BlockCoordinates>,
    pb: Seq<PlateView>,
    b: Seq<BlockCoordinates>,
    y: isize,
    z: isize,
)
    requires
        indexes(pa, a),
        indexes(pb, b),
        forall|p: BlockCoordinates| a.contains(p) <==> b.contains(p),
        has_row(pa, y, z),
    ensures
        has_row(pb, y, z),
{
    lemma_rows_follow_blocks(pa, a, y, z);
    lemma_rows_follow_blocks(pb, b, y, z);
    let i = choose|i: int| 0 <= i < a.len() && (#[trigger] a[i]).y == y && a[i].z == z;
    assert(a.contains(a[i]));
    assert(b.contains(a[i]));
    let j = choose|j: int| 0 <= j < b.len() && b[j] == a[i];
    assert(b[j].y == y && b[j].z == z);
}

/// The y of every plate, in order.
pub open spec fn plate_keys(plates: Seq<PlateView>) -> Seq<int> {
    Seq::new(plates.len(), |q: int| plates[q].y as int)
}

/// The z of every row, in order.
pub open spec fn row_keys(rows: Seq<RowView>) -> Seq<int> {
    Seq::new(rows.len(), |r: int| rows[r].z as int)
}

/// The x of every block, in order.
pub open spec fn block_keys(blocks: Seq<BlockCoordinates>) -> Seq<int> {
    Seq::new(blocks.len(), |i: int| blocks[i].x as int)
}

/// Every y of one index is a y of the other.
proof fn lemma_plate_keys_within(
    pa: Seq<PlateView>,
    a: Seq<BlockCoordinates>,
    pb: Seq<PlateView>,
    b: Seq<BlockCoordinates>,
)
    requires
        indexes(pa, a),
        indexes(pb, b),
        forall|p: BlockCoordinates| a.contains(p) <==> b.contains(p),
    ensures
        forall|q: int| 0 <= q < pa.len() ==> plate_keys(pb).contains(#[trigger] plate_keys(pa)[q]),
{
    assert forall|q: int| 0 <= q < pa.len() implies plate_keys(pb).contains(
        #[trigger] plate_keys(pa)[q],
    ) by {
        let y = pa[q].y;
        let z = pa[q].rows[0].z;
        assert(has_row(pa, y, z));
        lemma_same_rows(pa, a, pb, b, y, z);
        let (q1, r1) = choose|q1: int, r1: int|
            0 <= q1 < pb.len() && 0 <= r1 < pb[q1].rows.len() && pb[q1].y == y
                && #[trigger] pb[q1].rows[r1].z == z;
        assert(plate_keys(pb)[q1] == y);
    }
}

/// Every z of a plate of one index is a z of that plate of the other.
proof fn lemma_row_keys_within(
    pa: Seq<PlateView>,
    a: Seq<BlockCoordinates>,
    pb: Seq<PlateView>,
    b: Seq<BlockCoordinates>,
    q: int,
)
    requires
        indexes(pa, a),
        indexes(pb, b),
        forall|p: BlockCoordinates| a.contains(p) <==> b.contains(p),
        0 <= q < pa.len(),
        pa.len() == pb.len(),
        forall|k: int| 0 <= k < pa.len() ==> (#[trigger] pa[k]).y == pb[k].y,
    ensures
        forall|r: int|
            0 <= r < pa[q].rows.len() ==> row_keys(pb[q].rows).contains(
                #[trigger] row_keys(pa[q].rows)[r],
            ),
{
    assert forall|r: int| 0 <= r < pa[q].rows.len() implies row_keys(pb[q].rows).contains(
        #[trigger] row_keys(pa[q].rows)[r],
    ) by {
        let y = pa[q].y;
        let z = pa[q].rows[r].z;
        assert(has_row(pa, y, z));
        lemma_same_rows(pa, a, pb, b, y, z);
        let (q1, r1) = choose|q1: int, r1: int|
            0 <= q1 < pb.len() && 0 <= r1 < pb[q1].rows.len() && pb[q1].y == y
                && #[trigger] pb[q1].rows[r1].z == z;
        assert(pb[q].y == y);
        if q1 < q {
            assert(pb[q1].y < pb[q].y);
        }
        if q < q1 {
            assert(pb[q].y < pb[q1].y);
        }
        assert(row_keys(pb[q].rows)[r1] == z);
    }
}

/// Rows that hold the same blocks, none twice, are the same once sorted.
proof fn lemma_same_blocks_sort_alike(
    a: Seq<BlockCoordinates>,
    b: Seq<BlockCoordinates>,
    y: isize,
    z: isize,
)
    requires
        in_row(a, y, z),
        in_row(b, y, z),
        a.no_duplicates(),
        b.no_duplicates(),
        forall|p: BlockCoordinates| a.contains(p) <==> b.contains(p),
    ensures
        sort_by_x(a) == sort_by_x(b),
{
    let sa = sort_by_x(a);
    let sb = sort_by_x(b);
    lemma_sorted_row(a, y, z);
    lemma_sorted_row(b, y, z);
    let ka = block_keys(sa);
    let kb = block_keys(sb);
    assert forall|i: int| 0 <= i < ka.len() implies kb.contains(#[trigger] ka[i]) by {
        assert(sa.contains(sa[i]));
        assert(a.contains(sa[i]));
        assert(b.contains(sa[i]));
        assert(sb.contains(sa[i]));
        let j = choose|j: int| 0 <= j < sb.len() && sb[j] == sa[i];
        assert(kb[j] == ka[i]);
    }
    assert forall|i: int| 0 <= i < kb.len() implies ka.contains(#[trigger] kb[i]) by {
        assert(sb.contains(sb[i]));
        assert(b.contains(sb[i]));
        assert(a.contains(sb[i]));
        assert(sa.contains(sb[i]));
        let j = choose|j: int| 0 <= j < sa.len() && sa[j] == sb[i];
        assert(ka[j] == kb[i]);
    }
    lemma_ascending_unique(ka, kb);
    assert(sa.len() == sb.len());
    assert forall|i: int| 0 <= i < sa.len() implies sa[i] == sb[i] by {
        assert(ka[i] == kb[i]);
    }
    assert(sa == sb);
}

/// Two indexes of the same blocks, none indexed twice, are alike.
proof fn lemma_indexes_alike(
    pa: Seq<PlateView>,
    a: Seq<BlockCoordinates>,
    pb: Seq<PlateView>,
    b: Seq<BlockCoordinates>,
)
    requires
        indexes(pa, a),
        indexes(pb, b),
        a.no_duplicates(),
        b.no_duplicates(),
        forall|p: BlockCoordinates| a.contains(p) <==> b.contains(p),
    ensures
        plates_alike(pa, pb),
{
    lemma_plate_keys_within(pa, a, pb, b);
    lemma_plate_keys_within(pb, b, pa, a);
    lemma_ascending_unique(plate_keys(pa), plate_keys(pb));
    assert(pa.len() == pb.len());
    assert forall|k: int| 0 <= k < pa.len() implies (#[trigger] pa[k]).y == pb[k].y by {
        assert(plate_keys(pa)[k] == plate_keys(pb)[k]);
    }
    assert forall|q: int| 0 <= q < pa.len() implies rows_alike(
        (#[trigger] pa[q]).rows,
        pb[q].rows,
    ) by {
        let ra = pa[q].rows;
        let rb = pb[q].rows;
        lemma_row_keys_within(pa, a, pb, b, q);
        lemma_row_keys_within(pb, b, pa, a, q);
        assert(ascending(row_keys(ra)));
        assert(ascending(row_keys(rb)));
        lemma_ascending_unique(row_keys(ra), row_keys(rb));
        assert(ra.len() == rb.len());
        assert forall|r: int| 0 <= r < ra.len() implies (#[trigger] ra[r]).z == rb[r].z
            && sort_by_x(ra[r].blocks) == sort_by_x(rb[r].blocks) by {
            assert(row_keys(ra)[r] == row_keys(rb)[r]);
            let y = pa[q].y;
            let z = ra[r].z;
            assert(pa[q].rows[r].blocks == blocks_at(a, y, z));
            assert(pb[q].rows[r].blocks == blocks_at(b, y, z));
            lemma_blocks_at(a, y, z);
            lemma_blocks_at(b, y, z);
            assert forall|p: BlockCoordinates| blocks_at(a, y, z).contains(p) <==> blocks_at(
                b,
                y,
                z,
            ).contains(p) by {}
            lemma_same_blocks_sort_alike(blocks_at(a, y, z), blocks_at(b, y, z), y, z);
        }
    }
}

/// The merged layers depend on which blocks were indexed, not on the order
/// in which they came: two lists that hold the same blocks, none twice,
/// index and merge into the same layers, and so into the same boxes.
pub proof fn merge_ignores_block_order(a: Seq<BlockCoordinates>, b: Seq<BlockCoordinates>)
    requires
        a.no_duplicates(),
        b.no_duplicates(),
        forall|p: BlockCoordinates| a.contains(p) <==> b.contains(p),
    ensures
        merge_layers(stack_of(a)) == merge_layers(stack_of(b)),
{
    lemma_stack_of_indexes(a);
    lemma_stack_of_indexes(b);
    lemma_indexes_alike(stack_of(a), a, stack_of(b), b);
    lemma_alike_merge(stack_of(a), stack_of(b));
}

/// Some layer holds the sequence `s`.
pub open spec fn layers_hold(layers: Map<isize, Seq<BlockSequence>>, s: BlockSequence) -> bool {
    exists|y: isize, i: int|
        layers.contains_key(y) && 0 <= i < layers[y].len() && #[trigger] layers[y][i] == s
}

/// Some layer named by `order` holds the sequence `s`.
pub open spec fn order_holds(
    layers: Map<isize, Seq<BlockSequence>>,
    order: Seq<isize>,
    s: BlockSequence,
) -> bool {
    exists|j: int, i: int|
        0 <= j < order.len() && 0 <= i < layers[order[j]].len() && #[trigger] layers[order[j]][i]
            == s
}

/// Layers put one behind the other hold the sequences of those layers.
proof fn lemma_concat_holds(
    layers: Map<isize, Seq<BlockSequence>>,
    order: Seq<isize>,
    s: BlockSequence,
)
    ensures
        concat_layers(layers, order).contains(s) <==> order_holds(layers, order, s),
    decreases order.len(),
{
    let out = concat_layers(layers, order);
    if order.len() > 0 {
        let head = order.drop_last();
        let before = concat_layers(layers, head);
        let last = layers[order.last()];
        lemma_concat_holds(layers, head, s);
        if out.contains(s) {
            let n = choose|n: int| 0 <= n < out.len() && out[n] == s;
            if n < before.len() {
                assert(before[n] == s);
                assert(before.contains(s));
                let (j, i) = choose|j: int, i: int|
                    0 <= j < head.len() && 0 <= i < layers[head[j]].len()
                        && #[trigger] layers[head[j]][i] == s;
                assert(layers[order[j]][i] == s);
            } else {
                assert(layers[order[order.len() - 1]][n - before.len()] == s);
            }
        }
        if order_holds(layers, order, s) {
            let (j, i) = choose|j: int, i: int|
                0 <= j < order.len() && 0 <= i < layers[order[j]].len()
                    && #[trigger] layers[order[j]][i] == s;
            if j < head.len() {
                assert(layers[head[j]][i] == s);
                assert(before.contains(s));
                let n = choose|n: int| 0 <= n < before.len() && before[n] == s;
                assert(out[n] == s);
            } else {
                assert(out[before.len() + i] == s);
            }
        }
    }
}

/// What the merge returns holds the sequences of the merged layers, whatever
/// the order of the layers.
pub proof fn lemma_output_holds_the_layers(
    plates: Seq<PlateView>,
    out: Seq<BlockSequence>,
    s: BlockSequence,
)
    requires
        is_merge_output(out, plates),
    ensures
        out.contains(s) <==> layers_hold(merge_layers(plates), s),
{
    let layers = merge_layers(plates);
    let order = choose|order: Seq<isize>|
        is_layer_order(layers, order) && out == concat_layers(layers, order);
    lemma_concat_holds(layers, order, s);
    if order_holds(layers, order, s) {
        let (j, i) = choose|j: int, i: int|
            0 <= j < order.len() && 0 <= i < layers[order[j]].len()
                && #[trigger] layers[order[j]][i] == s;
        assert(order.contains(order[j]));
    }
    if layers_hold(layers, s) {
        let (y, i) = choose|y: isize, i: int|
            layers.contains_key(y) && 0 <= i < layers[y].len() && #[trigger] layers[y][i] == s;
        assert(order.contains(y));
        let j = choose|j: int| 0 <= j < order.len() && order[j] == y;
        assert(layers[order[j]][i] == s);
    }
}

/// Merging the same blocks in another order gives the same boxes: whatever
/// two runs return for two lists that hold the same blocks, none twice, a
/// box is in the one result if and only if it is in the other.
pub proof fn merge_gives_the_same_boxes(
    a: Seq<BlockCoordinates>,
    b: Seq<BlockCoordinates>,
    out_a: Seq<BlockSequence>,
    out_b: Seq<BlockSequence>,
)
    requires
        a.no_duplicates(),
        b.no_duplicates(),
        forall|p: BlockCoordinates| a.contains(p) <==> b.contains(p),
        is_merge_output(out_a, stack_of(a)),
        is_merge_output(out_b, stack_of(b)),
    ensures
        forall|s: BlockSequence| out_a.contains(s) <==> out_b.contains(s),
{
    merge_ignores_block_order(a, b);
    assert forall|s: BlockSequence| out_a.contains(s) <==> out_b.contains(s) by {
        lemma_output_holds_the_layers(stack_of(a), out_a, s);
        lemma_output_holds_the_layers(stack_of(b), out_b, s);
    }
}

} // verus!
