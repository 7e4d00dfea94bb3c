//! The voxel index: blocks grouped by layer, then by row.

use crate::coordinates::BlockCoordinates;
use vstd::prelude::*;

verus! {

/// What a row holds: its z and its blocks in the order they were added.
pub ghost struct RowView {
    pub z: isize,
    pub blocks: Seq<BlockCoordinates>,
}

/// What a plate holds: its y and its rows.
pub ghost struct PlateView {
    pub y: isize,
    pub rows: Seq<RowView>,
}

/// All indexed blocks that share one `(y, z)`.
pub struct BlockRow {
    pub z: isize,
    pub blocks: Vec<BlockCoordinates>,
}

/// All indexed blocks that share one `y`, row by row.
pub struct BlockPlate {
    pub y: isize,
    pub rows: Vec<BlockRow>,
}

impl View for BlockRow {
    type V = RowView;

    open spec fn view(&self) -> RowView {
        RowView { z: self.z, blocks: self.blocks@ }
    }
}

/// The views of a sequence of rows.
pub open spec fn rows_view(rows: Seq<BlockRow>) -> Seq<RowView> {
    Seq::new(rows.len(), |i: int| rows[i]@)
}

impl View for BlockPlate {
    type V = PlateView;

    open spec fn view(&self) -> PlateView {
        PlateView { y: self.y, rows: rows_view(self.rows@) }
    }
}

/// The views of a sequence of plates.
pub open spec fn plates_view(plates: Seq<BlockPlate>) -> Seq<PlateView> {
    Seq::new(plates.len(), |i: int| plates[i]@)
}

/// Blocks ordered for the merge engine: plates by ascending y, the rows of a
/// plate by ascending z.
pub struct BlockStack {
    plates: Vec<BlockPlate>,
}

impl View for BlockStack {
    type V = Seq<PlateView>;

    closed spec fn view(&self) -> Seq<PlateView> {
        plates_view(self.plates@)
    }
}

impl BlockStack {
    /// The plates are in order: strictly ascending y, in each plate strictly
    /// ascending z, in each row only blocks of that row.
    pub open spec fn wf(&self) -> bool {
        stack_ordered(self@)
    }

    /// An index that holds no block.
    pub fn new() -> (stack: Self)
        ensures
            stack.wf(),
            stack@ == Seq::<PlateView>::empty(),
    {
        let stack = BlockStack { plates: Vec::new() };
        assert(stack@ == Seq::<PlateView>::empty());
        stack
    }

    /// The plates in ascending order of y.
    pub fn plates(&self) -> (plates: &Vec<BlockPlate>)
        ensures
            plates_view(plates@) == self@,
    {
        &self.plates
    }

    /// Puts `block` at the back of the row of its `(y, z)`, making the row,
    /// and the plate, where the index has none yet.
    pub fn add(&mut self, block: BlockCoordinates)
        requires
            old(self).wf(),
        ensures
            final(self).wf(),
            final(self)@ == stack_with(old(self)@, block),
    {
        let ghost before = self@;
        let q = find_plate(&self.plates, block.y);
        if q < self.plates.len() && self.plates[q].y == block.y {
            let ghost rows_before = self.plates[q as int]@.rows;
            assert(before[q as int] == self.plates[q as int]@);
            assert(rows_ordered(before[q as int].rows, before[q as int].y));
            let r = find_row(&self.plates[q].rows, block.z, Ghost(block.y));
            if r < self.plates[q].rows.len() && self.plates[q].rows[r].z == block.z {
                self.plates[q].rows[r].blocks.push(block);
            } else {
                let mut blocks: Vec<BlockCoordinates> = Vec::new();
                blocks.push(block);
                self.plates[q].rows.insert(r, BlockRow { z: block.z, blocks });
            }
            assert(self.plates[q as int]@.rows == rows_with(rows_before, block));
        } else {
            let mut blocks: Vec<BlockCoordinates> = Vec::new();
            blocks.push(block);
            let mut rows: Vec<BlockRow> = Vec::new();
            rows.push(BlockRow { z: block.z, blocks });
            let plate = BlockPlate { y: block.y, rows };
            assert(plate@.rows == seq![RowView { z: block.z, blocks: seq![block] }]);
            self.plates.insert(q, plate);
        }
        assert(self@ == stack_with(before, block));
        proof {
            lemma_stack_with_ordered(before, block);
        }
    }

    /// Indexes `blocks` in one pass, in their order.
    pub fn from_blocks(blocks: Vec<BlockCoordinates>) -> (stack: Self)
        ensures
            stack.wf(),
            stack@ == stack_of(blocks@),
    {
        let mut stack = BlockStack::new();
        let mut i: usize = 0;
        while i < blocks.len()
            invariant
                i <= blocks.len(),
                stack.wf(),
                stack@ == stack_of(blocks@.take(i as int)),
            decreases blocks.len() - i,
        {
            stack.add(blocks[i]);
            assert(blocks@.take(i + 1).drop_last() == blocks@.take(i as int));
            i += 1;
        }
        assert(blocks@.take(blocks.len() as int) == blocks@);
        stack
    }
}

/// Where plate `y` stands, or would stand, among plates in ascending order:
/// behind every plate of a smaller y.
pub open spec fn plate_position(plates: Seq<PlateView>, y: int) -> int
    decreases plates.len(),
{
    if plates.len() == 0 || plates.last().y < y {
        plates.len() as int
    } else {
        plate_position(plates.drop_last(), y)
    }
}

/// Where row `z` stands, or would stand, among rows in ascending order:
/// behind every row of a smaller z.
pub open spec fn row_position(rows: Seq<RowView>, z: int) -> int
    decreases rows.len(),
{
    if rows.len() == 0 || rows.last().z < z {
        rows.len() as int
    } else {
        row_position(rows.drop_last(), z)
    }
}

/// The rows of a plate after `block` was added to it.
pub open spec fn rows_with(rows: Seq<RowView>, block: BlockCoordinates) -> Seq<RowView> {
    let r = row_position(rows, block.z as int);
    if r < rows.len() && rows[r].z == block.z {
        rows.update(r, RowView { z: block.z, blocks: rows[r].blocks.push(block) })
    } else {
        rows.insert(r, RowView { z: block.z, blocks: seq![block] })
    }
}

/// The plates after `block` was added to the index.
pub open spec fn stack_with(plates: Seq<PlateView>, block: BlockCoordinates) -> Seq<PlateView> {
    let q = plate_position(plates, block.y as int);
    if q < plates.len() && plates[q].y == block.y {
        plates.update(q, PlateView { y: block.y, rows: rows_with(plates[q].rows, block) })
    } else {
        plates.insert(
            q,
            PlateView { y: block.y, rows: seq![RowView { z: block.z, blocks: seq![block] }] },
        )
    }
}

/// The plates of the index of `blocks`, added one by one in their order.
pub open spec fn stack_of(blocks: Seq<BlockCoordinates>) -> Seq<PlateView>
    decreases blocks.len(),
{
    if blocks.len() == 0 {
        Seq::empty()
    } else {
        stack_with(stack_of(blocks.drop_last()), blocks.last())
    }
}

/// Among ordered plates, everything before the position of `y` lies below
/// `y`, everything from it on at `y` or above.
proof fn lemma_plate_position(plates: Seq<PlateView>, y: int)
    requires
        forall|i: int, j: int| 0 <= i < j < plates.len() ==> plates[i].y < plates[j].y,
    ensures
        0 <= plate_position(plates, y) <= plates.len(),
        forall|i: int| 0 <= i < plate_position(plates, y) ==> plates[i].y < y,
        forall|i: int| plate_position(plates, y) <= i < plates.len() ==> plates[i].y >= y,
    decreases plates.len(),
{
    if plates.len() == 0 || plates.last().y < y {
    } else {
        let head = plates.drop_last();
        lemma_plate_position(head, y);
        assert forall|i: int| plate_position(plates, y) <= i < plates.len() implies plates[i].y
            >= y by {
            if i < head.len() {
                assert(head[i] == plates[i]);
            }
        }
        assert forall|i: int| 0 <= i < plate_position(plates, y) implies plates[i].y < y by {
            assert(head[i] == plates[i]);
        }
    }
}

/// Among ordered rows, everything before the position of `z` lies before
/// `z`, everything from it on at `z` or behind.
proof fn lemma_row_position(rows: Seq<RowView>, z: int)
    requires
        forall|i: int, j: int| 0 <= i < j < rows.len() ==> rows[i].z < rows[j].z,
    ensures
        0 <= row_position(rows, z) <= rows.len(),
        forall|i: int| 0 <= i < row_position(rows, z) ==> rows[i].z < z,
        forall|i: int| row_position(rows, z) <= i < rows.len() ==> rows[i].z >= z,
    decreases rows.len(),
{
    if rows.len() == 0 || rows.last().z < z {
    } else {
        let head = rows.drop_last();
        lemma_row_position(head, z);
        assert forall|i: int| row_position(rows, z) <= i < rows.len() implies rows[i].z >= z by {
            if i < head.len() {
                assert(head[i] == rows[i]);
            }
        }
        assert forall|i: int| 0 <= i < row_position(rows, z) implies rows[i].z < z by {
            assert(head[i] == rows[i]);
        }
    }
}

/// Adding a block keeps the rows of its plate in order.
pub proof fn lemma_rows_with_ordered(rows: Seq<RowView>, block: BlockCoordinates)
    requires
        rows_ordered(rows, block.y),
    ensures
        rows_ordered(rows_with(rows, block), block.y),
{
    let r = row_position(rows, block.z as int);
    let after = rows_with(rows, block);
    lemma_row_position(rows, block.z as int);
    if r < rows.len() && rows[r].z == block.z {
        assert forall|i: int| 0 <= i < after.len() implies in_row(
            (#[trigger] after[i]).blocks,
            block.y,
            after[i].z,
        ) by {
            if i != r {
                assert(after[i] == rows[i]);
            } else {
                assert(in_row(rows[r].blocks, block.y, rows[r].z));
            }
        }
    } else {
        assert forall|i: int, j: int| 0 <= i < j < after.len() implies after[i].z < after[j].z by {
            let a = if i < r {
                i
            } else {
                i - 1
            };
            let b = if j < r {
                j
            } else {
                j - 1
            };
            if i != r {
                assert(after[i] == rows[a]);
            }
            if j != r {
                assert(after[j] == rows[b]);
            }
        }
        assert forall|i: int| 0 <= i < after.len() implies in_row(
            (#[trigger] after[i]).blocks,
            block.y,
            after[i].z,
        ) by {
            if i < r {
                assert(after[i] == rows[i]);
            } else if i > r {
                assert(after[i] == rows[i - 1]);
            }
        }
    }
}

/// Adding a block keeps the plates in order.
pub proof fn lemma_stack_with_ordered(plates: Seq<PlateView>, block: BlockCoordinates)
    requires
        stack_ordered(plates),
    ensures
        stack_ordered(stack_with(plates, block)),
{
    let q = plate_position(plates, block.y as int);
    let after = stack_with(plates, block);
    lemma_plate_position(plates, block.y as int);
    if q < plates.len() && plates[q].y == block.y {
        lemma_rows_with_ordered(plates[q].rows, block);
        assert forall|i: int| 0 <= i < after.len() implies rows_ordered(
            (#[trigger] after[i]).rows,
            after[i].y,
        ) by {
            if i != q {
                assert(after[i] == plates[i]);
            }
        }
    } else {
        assert forall|i: int, j: int| 0 <= i < j < after.len() implies after[i].y < after[j].y by {
            let a = if i < q {
                i
            } else {
                i - 1
            };
            let b = if j < q {
                j
            } else {
                j - 1
            };
            if i != q {
                assert(after[i] == plates[a]);
            }
            if j != q {
                assert(after[j] == plates[b]);
            }
        }
        assert forall|i: int| 0 <= i < after.len() implies rows_ordered(
            (#[trigger] after[i]).rows,
            after[i].y,
        ) by {
            if i < q {
                assert(after[i] == plates[i]);
            } else if i > q {
                assert(after[i] == plates[i - 1]);
            }
        }
    }
}

/// Finds the position of plate `y` by halving.
fn find_plate(plates: &Vec<BlockPlate>, y: isize) -> (q: usize)
    requires
        stack_ordered(plates_view(plates@)),
    ensures
        q == plate_position(plates_view(plates@), y as int),
        q <= plates.len(),
{
    let ghost views = plates_view(plates@);
    let mut low: usize = 0;
    let mut high: usize = plates.len();
    while low < high
        invariant
            low <= high <= plates.len(),
            views == plates_view(plates@),
            stack_ordered(views),
            forall|i: int| 0 <= i < low ==> views[i].y < y,
            forall|i: int| high <= i < views.len() ==> views[i].y >= y,
        decreases high - low,
    {
        let middle = low + (high - low) / 2;
        if plates[middle].y < y {
            assert forall|i: int| 0 <= i < middle + 1 implies views[i].y < y by {
                assert(views[i].y <= views[middle as int].y);
            }
            low = middle + 1;
        } else {
            assert forall|i: int| middle <= i < views.len() implies views[i].y >= y by {
                assert(views[i].y >= views[middle as int].y);
            }
            high = middle;
        }
    }
    proof {
        lemma_plate_position(views, y as int);
        let q = plate_position(views, y as int);
        if low < q {
            assert(views[low as int].y < y);
        }
        if q < low {
            assert(views[q].y >= y);
        }
    }
    low
}

/// Finds the position of row `z` by halving.
fn find_row(rows: &Vec<BlockRow>, z: isize, Ghost(y): Ghost<isize>) -> (r: usize)
    requires
        rows_ordered(rows_view(rows@), y),
    ensures
        r == row_position(rows_view(rows@), z as int),
        r <= rows.len(),
{
    let ghost views = rows_view(rows@);
    let mut low: usize = 0;
    let mut high: usize = rows.len();
    while low < high
        invariant
            low <= high <= rows.len(),
            views == rows_view(rows@),
            rows_ordered(views, y),
            forall|i: int| 0 <= i < low ==> views[i].z < z,
            forall|i: int| high <= i < views.len() ==> views[i].z >= z,
        decreases high - low,
    {
        let middle = low + (high - low) / 2;
        if rows[middle].z < z {
            assert forall|i: int| 0 <= i < middle + 1 implies views[i].z < z by {
                assert(views[i].z <= views[middle as int].z);
            }
            low = middle + 1;
        } else {
            assert forall|i: int| middle <= i < views.len() implies views[i].z >= z by {
                assert(views[i].z >= views[middle as int].z);
            }
            high = middle;
        }
    }
    proof {
        lemma_row_position(views, z as int);
        let r = row_position(views, z as int);
        if low < r {
            assert(views[low as int].z < z);
        }
        if r < low {
            assert(views[r].z >= z);
        }
    }
    low
}

/// Every block of `row` has the given y and z.
pub open spec fn in_row(row: Seq<BlockCoordinates>, y: isize, z: isize) -> bool {
    forall|i: int| 0 <= i < row.len() ==> (#[trigger] row[i]).y == y && row[i].z == z
}

/// The rows stand in strictly ascending order of z, and each holds blocks of
/// its own `(y, z)` only.
pub open spec fn rows_ordered(rows: Seq<RowView>, y: isize) -> bool {
    &&& forall|i: int, j: int| 0 <= i < j < rows.len() ==> rows[i].z < rows[j].z
    &&& forall|i: int| 0 <= i < rows.len() ==> in_row((#[trigger] rows[i]).blocks, y, rows[i].z)
}

/// No row holds a block twice.
pub open spec fn rows_distinct(rows: Seq<RowView>) -> bool {
    forall|i: int| 0 <= i < rows.len() ==> (#[trigger] rows[i]).blocks.no_duplicates()
}

/// Some row holds `p`.
pub open spec fn rows_contain(rows: Seq<RowView>, p: BlockCoordinates) -> bool {
    exists|r: int| 0 <= r < rows.len() && (#[trigger] rows[r]).blocks.contains(p)
}

/// The plates stand in strictly ascending order of y, and the rows of each
/// are ordered.
pub open spec fn stack_ordered(plates: Seq<PlateView>) -> bool {
    &&& forall|i: int, j: int| 0 <= i < j < plates.len() ==> plates[i].y < plates[j].y
    &&& forall|i: int|
        0 <= i < plates.len() ==> rows_ordered((#[trigger] plates[i]).rows, plates[i].y)
}

/// No block was indexed twice.
pub open spec fn stack_distinct(plates: Seq<PlateView>) -> bool {
    forall|i: int| 0 <= i < plates.len() ==> rows_distinct((#[trigger] plates[i]).rows)
}

/// Some row of some plate holds `p`.
pub open spec fn stack_contains(plates: Seq<PlateView>, p: BlockCoordinates) -> bool {
    exists|q: int| 0 <= q < plates.len() && rows_contain((#[trigger] plates[q]).rows, p)
}

/// The blocks of `blocks` that lie in row `(y, z)`, in their order.
pub open spec fn blocks_at(blocks: Seq<BlockCoordinates>, y: isize, z: isize) -> Seq<
    BlockCoordinates,
>
    decreases blocks.len(),
{
    if blocks.len() == 0 {
        Seq::empty()
    } else {
        let rest = blocks_at(blocks.drop_last(), y, z);
        if blocks.last().y == y && blocks.last().z == z {
            rest.push(blocks.last())
        } else {
            rest
        }
    }
}

/// Some plate has y `y` and in it a row of z `z`.
pub open spec fn has_row(plates: Seq<PlateView>, y: isize, z: isize) -> bool {
    exists|q: int, r: int|
        0 <= q < plates.len() && 0 <= r < plates[q].rows.len() && plates[q].y == y
            && #[trigger] plates[q].rows[r].z == z
}

/// `plates` is the index of `blocks`: the plates are in order, no plate and
/// no row is empty, every row holds the blocks of its `(y, z)` in the order
/// of `blocks`, and the row of every block is there.
pub open spec fn indexes(plates: Seq<PlateView>, blocks: Seq<BlockCoordinates>) -> bool {
    &&& stack_ordered(plates)
    &&& forall|q: int| 0 <= q < plates.len() ==> (#[trigger] plates[q]).rows.len() > 0
    &&& forall|q: int, r: int|
        0 <= q < plates.len() && 0 <= r < plates[q].rows.len() ==> {
            &&& (#[trigger] plates[q].rows[r]).blocks.len() > 0
            &&& plates[q].rows[r].blocks == blocks_at(blocks, plates[q].y, plates[q].rows[r].z)
        }
    &&& forall|i: int|
        0 <= i < blocks.len() ==> has_row(plates, (#[trigger] blocks[i]).y, blocks[i].z)
}

/// What `blocks_at` picks: the blocks of that row, none twice where none
/// stood twice.
pub proof fn lemma_blocks_at(blocks: Seq<BlockCoordinates>, y: isize, z: isize)
    ensures
        in_row(blocks_at(blocks, y, z), y, z),
        forall|p: BlockCoordinates|
            #![trigger blocks_at(blocks, y, z).contains(p)]
            blocks_at(blocks, y, z).contains(p) <==> blocks.contains(p) && p.y == y && p.z == z,
        blocks.no_duplicates() ==> blocks_at(blocks, y, z).no_duplicates(),
    decreases blocks.len(),
{
    let picked = blocks_at(blocks, y, z);
    if blocks.len() == 0 {
        assert forall|p: BlockCoordinates| picked.contains(p) <==> blocks.contains(p) && p.y == y
            && p.z == z by {}
    } else {
        let head = blocks.drop_last();
        let rest = blocks_at(head, y, z);
        let block = blocks.last();
        lemma_blocks_at(head, y, z);
        assert forall|p: BlockCoordinates| picked.contains(p) <==> blocks.contains(p) && p.y == y
            && p.z == z by {
            if picked.contains(p) {
                let i = choose|i: int| 0 <= i < picked.len() && picked[i] == p;
                if i < rest.len() {
                    assert(rest[i] == p);
                    assert(rest.contains(p));
                    assert(head.contains(p));
                    let h = choose|h: int| 0 <= h < head.len() && head[h] == p;
                    assert(blocks[h] == p);
                } else {
                    assert(blocks[blocks.len() - 1] == p);
                }
            }
            if blocks.contains(p) && p.y == y && p.z == z {
                let i = choose|i: int| 0 <= i < blocks.len() && blocks[i] == p;
                if i < head.len() {
                    assert(head[i] == p);
                    assert(head.contains(p));
                    assert(rest.contains(p));
                    let k = choose|k: int| 0 <= k < rest.len() && rest[k] == p;
                    assert(picked[k] == p);
                } else {
                    assert(picked[picked.len() - 1] == p);
                }
            }
        }
        if blocks.no_duplicates() {
            assert(head.no_duplicates());
            if block.y == y && block.z == z {
                assert(!rest.contains(block)) by {
                    if head.contains(block) {
                        let h = choose|h: int| 0 <= h < head.len() && head[h] == block;
                        assert(blocks[h] == blocks[blocks.len() - 1]);
                    }
                }
                assert forall|i: int, j: int|
                    0 <= i < picked.len() && 0 <= j < picked.len() && i != j implies picked[i]
                    != picked[j] by {
                    if i < rest.len() {
                        assert(rest[i] == picked[i]);
                    }
                    if j < rest.len() {
                        assert(rest[j] == picked[j]);
                    }
                }
            }
        }
    }
}

/// Adding a block to the index of `blocks` gives the index of `blocks` with
/// that block behind them.
pub proof fn lemma_stack_with_indexes(
    plates: Seq<PlateView>,
    blocks: Seq<BlockCoordinates>,
    block: BlockCoordinates,
)
    requires
        indexes(plates, blocks),
    ensures
        indexes(stack_with(plates, block), blocks.push(block)),
{
    let q = plate_position(plates, block.y as int);
    let after = stack_with(plates, block);
    let all = blocks.push(block);
    let y = block.y;
    let z = block.z;
    lemma_plate_position(plates, y as int);
    lemma_stack_with_ordered(plates, block);
    assert(all.drop_last() == blocks);
    // The rows of other places hold what they held.
    assert forall|y1: isize, z1: isize| y1 != y || z1 != z implies blocks_at(all, y1, z1)
        == blocks_at(blocks, y1, z1) by {}
    assert(blocks_at(all, y, z) == blocks_at(blocks, y, z).push(block));
    if q < plates.len() && plates[q].y == y {
        let rows = plates[q].rows;
        let r = row_position(rows, z as int);
        let rows_after = rows_with(rows, block);
        lemma_row_position(rows, z as int);
        assert(after[q].rows == rows_after);
        if r < rows.len() && rows[r].z == z {
            assert(plates[q].rows[r].blocks == blocks_at(blocks, y, z));
            assert forall|q1: int, r1: int|
                0 <= q1 < after.len() && 0 <= r1 < after[q1].rows.len() implies {
                &&& (#[trigger] after[q1].rows[r1]).blocks.len() > 0
                &&& after[q1].rows[r1].blocks == blocks_at(all, after[q1].y, after[q1].rows[r1].z)
            } by {
                if q1 != q {
                    assert(after[q1] == plates[q1]);
                    assert(plates[q1].rows[r1].blocks.len() > 0);
                } else if r1 != r {
                    assert(after[q].rows[r1] == plates[q].rows[r1]);
                    assert(plates[q].rows[r1].blocks.len() > 0);
                }
            }
            assert forall|i: int| 0 <= i < all.len() implies has_row(
                after,
                (#[trigger] all[i]).y,
                all[i].z,
            ) by {
                if i < blocks.len() {
                    assert(all[i] == blocks[i]);
                    assert(has_row(plates, blocks[i].y, blocks[i].z));
                    let (q1, r1) = choose|q1: int, r1: int|
                        0 <= q1 < plates.len() && 0 <= r1 < plates[q1].rows.len() && plates[q1].y
                            == blocks[i].y && #[trigger] plates[q1].rows[r1].z == blocks[i].z;
                    assert(after[q1].rows[r1].z == blocks[i].z);
                } else {
                    assert(after[q].rows[r].z == z);
                }
            }
            assert forall|q1: int| 0 <= q1 < after.len() implies (#[trigger] after[q1]).rows.len()
                > 0 by {
                if q1 != q {
                    assert(after[q1] == plates[q1]);
                }
            }
        } else {
            assert(blocks_at(blocks, y, z).len() == 0) by {
                lemma_no_row_no_blocks(plates, blocks, y, z);
            }
            assert forall|q1: int, r1: int|
                0 <= q1 < after.len() && 0 <= r1 < after[q1].rows.len() implies {
                &&& (#[trigger] after[q1].rows[r1]).blocks.len() > 0
                &&& after[q1].rows[r1].blocks == blocks_at(all, after[q1].y, after[q1].rows[r1].z)
            } by {
                if q1 != q {
                    assert(after[q1] == plates[q1]);
                    assert(plates[q1].rows[r1].blocks.len() > 0);
                } else if r1 < r {
                    assert(after[q].rows[r1] == plates[q].rows[r1]);
                    assert(plates[q].rows[r1].blocks.len() > 0);
                } else if r1 > r {
                    assert(after[q].rows[r1] == plates[q].rows[r1 - 1]);
                    assert(plates[q].rows[r1 - 1].blocks.len() > 0);
                }
            }
            assert forall|i: int| 0 <= i < all.len() implies has_row(
                after,
                (#[trigger] all[i]).y,
                all[i].z,
            ) by {
                if i < blocks.len() {
                    assert(all[i] == blocks[i]);
                    assert(has_row(plates, blocks[i].y, blocks[i].z));
                    let (q1, r1) = choose|q1: int, r1: int|
                        0 <= q1 < plates.len() && 0 <= r1 < plates[q1].rows.len() && plates[q1].y
                            == blocks[i].y && #[trigger] plates[q1].rows[r1].z == blocks[i].z;
                    if q1 != q || r1 < r {
                        assert(after[q1].rows[r1].z == blocks[i].z);
                    } else {
                        assert(after[q1].rows[r1 + 1].z == blocks[i].z);
                    }
                } else {
                    assert(after[q].rows[r].z == z);
                }
            }
            assert forall|q1: int| 0 <= q1 < after.len() implies (#[trigger] after[q1]).rows.len()
                > 0 by {
                if q1 != q {
                    assert(after[q1] == plates[q1]);
                }
            }
        }
    } else {
        assert(blocks_at(blocks, y, z).len() == 0) by {
            lemma_no_row_no_blocks(plates, blocks, y, z);
        }
        assert forall|q1: int, r1: int|
            0 <= q1 < after.len() && 0 <= r1 < after[q1].rows.len() implies {
            &&& (#[trigger] after[q1].rows[r1]).blocks.len() > 0
            &&& after[q1].rows[r1].blocks == blocks_at(all, after[q1].y, after[q1].rows[r1].z)
        } by {
            if q1 < q {
                assert(after[q1] == plates[q1]);
                assert(plates[q1].rows[r1].blocks.len() > 0);
            } else if q1 > q {
                assert(after[q1] == plates[q1 - 1]);
                assert(plates[q1 - 1].rows[r1].blocks.len() > 0);
            }
        }
        assert forall|i: int| 0 <= i < all.len() implies has_row(
            after,
            (#[trigger] all[i]).y,
            all[i].z,
        ) by {
            if i < blocks.len() {
                assert(all[i] == blocks[i]);
                assert(has_row(plates, blocks[i].y, blocks[i].z));
                let (q1, r1) = choose|q1: int, r1: int|
                    0 <= q1 < plates.len() && 0 <= r1 < plates[q1].rows.len() && plates[q1].y
                        == blocks[i].y && #[trigger] plates[q1].rows[r1].z == blocks[i].z;
                if q1 < q {
                    assert(after[q1].rows[r1].z == blocks[i].z);
                } else {
                    assert(after[q1 + 1].rows[r1].z == blocks[i].z);
                }
            } else {
                assert(after[q].rows[0].z == z);
            }
        }
        assert forall|q1: int| 0 <= q1 < after.len() implies (#[trigger] after[q1]).rows.len()
            > 0 by {
            if q1 < q {
                assert(after[q1] == plates[q1]);
            } else if q1 > q {
                assert(after[q1] == plates[q1 - 1]);
            }
        }
    }
}

/// Where the index has no row `(y, z)`, no indexed block lies there.
proof fn lemma_no_row_no_blocks(
    plates: Seq<PlateView>,
    blocks: Seq<BlockCoordinates>,
    y: isize,
    z: isize,
)
    requires
        indexes(plates, blocks),
        !has_row(plates, y, z),
    ensures
        blocks_at(blocks, y, z).len() == 0,
{
    lemma_blocks_at(blocks, y, z);
    let picked = blocks_at(blocks, y, z);
    if picked.len() > 0 {
        assert(picked.contains(picked[0]));
        assert(blocks.contains(picked[0]));
        let i = choose|i: int| 0 <= i < blocks.len() && blocks[i] == picked[0];
        assert(has_row(plates, blocks[i].y, blocks[i].z));
    }
}

/// The index built from `blocks` is the index of `blocks`.
pub proof fn lemma_stack_of_indexes(blocks: Seq<BlockCoordinates>)
    ensures
        indexes(stack_of(blocks), blocks),
    decreases blocks.len(),
{
    if blocks.len() > 0 {
        lemma_stack_of_indexes(blocks.drop_last());
        lemma_stack_with_indexes(stack_of(blocks.drop_last()), blocks.drop_last(), blocks.last());
        assert(blocks.drop_last().push(blocks.last()) == blocks);
    }
}

/// The index built from `blocks` holds exactly the blocks of `blocks`, and
/// none twice where `blocks` holds none twice.
pub proof fn lemma_index_holds_the_blocks(blocks: Seq<BlockCoordinates>)
    ensures
        stack_ordered(stack_of(blocks)),
        forall|p: BlockCoordinates|
            #![trigger stack_contains(stack_of(blocks), p)]
            #![trigger blocks.contains(p)]
            stack_contains(stack_of(blocks), p) <==> blocks.contains(p),
        blocks.no_duplicates() ==> stack_distinct(stack_of(blocks)),
{
    let plates = stack_of(blocks);
    lemma_stack_of_indexes(blocks);
    assert forall|p: BlockCoordinates| stack_contains(plates, p) <==> blocks.contains(p) by {
        if stack_contains(plates, p) {
            let q = choose|q: int| 0 <= q < plates.len() && rows_contain((#[trigger] plates[q]).rows, p);
            let r = choose|r: int|
                0 <= r < plates[q].rows.len() && (#[trigger] plates[q].rows[r]).blocks.contains(p);
            lemma_blocks_at(blocks, plates[q].y, plates[q].rows[r].z);
            assert(blocks_at(blocks, plates[q].y, plates[q].rows[r].z).contains(p));
        }
        if blocks.contains(p) {
            let i = choose|i: int| 0 <= i < blocks.len() && blocks[i] == p;
            assert(has_row(plates, blocks[i].y, blocks[i].z));
            let (q, r) = choose|q: int, r: int|
                0 <= q < plates.len() && 0 <= r < plates[q].rows.len() && plates[q].y == p.y
                    && #[trigger] plates[q].rows[r].z == p.z;
            lemma_blocks_at(blocks, p.y, p.z);
            assert(blocks_at(blocks, p.y, p.z).contains(p));
            assert(plates[q].rows[r].blocks.contains(p));
            assert(rows_contain(plates[q].rows, p));
        }
    }
    if blocks.no_duplicates() {
        assert forall|q: int| 0 <= q < plates.len() implies rows_distinct(
            (#[trigger] plates[q]).rows,
        ) by {
            assert forall|r: int| 0 <= r < plates[q].rows.len() implies (
            #[trigger] plates[q].rows[r]).blocks.no_duplicates() by {
                lemma_blocks_at(blocks, plates[q].y, plates[q].rows[r].z);
            }
        }
    }
}

} // verus!
