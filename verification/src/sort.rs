//! Putting the blocks of a row in order of x.

use crate::coordinates::BlockCoordinates;
use vstd::prelude::*;

verus! {

/// Where a block with the given x goes in a sequence sorted by x: behind
/// every block whose x is not greater.
pub open spec fn insert_position(sorted: Seq<BlockCoordinates>, x: int) -> int
    decreases sorted.len(),
{
    if sorted.len() == 0 || sorted.last().x <= x {
        sorted.len() as int
    } else {
        insert_position(sorted.drop_last(), x)
    }
}

/// The blocks of `row` in ascending order of x; blocks with equal x keep
/// the order they had in `row`.
pub open spec fn sort_by_x(row: Seq<BlockCoordinates>) -> Seq<BlockCoordinates>
    decreases row.len(),
{
    if row.len() == 0 {
        row
    } else {
        let sorted = sort_by_x(row.drop_last());
        sorted.insert(insert_position(sorted, row.last().x as int), row.last())
    }
}

/// The blocks of `row` stand in ascending order of x; equal x may repeat.
pub open spec fn ordered_x(row: Seq<BlockCoordinates>) -> bool {
    forall|i: int, j: int| 0 <= i < j < row.len() ==> row[i].x <= row[j].x
}

/// Where a block goes in an ordered row: everything before that place has an
/// x that is not greater, everything from it on a greater x.
pub proof fn lemma_insert_position(sorted: Seq<BlockCoordinates>, x: int)
    requires
        ordered_x(sorted),
    ensures
        0 <= insert_position(sorted, x) <= sorted.len(),
        forall|i: int| 0 <= i < insert_position(sorted, x) ==> sorted[i].x <= x,
        forall|i: int| insert_position(sorted, x) <= i < sorted.len() ==> sorted[i].x > x,
    decreases sorted.len(),
{
    if sorted.len() == 0 || sorted.last().x <= x {
    } else {
        let head = sorted.drop_last();
        lemma_insert_position(head, x);
        assert forall|i: int| insert_position(sorted, x) <= i < sorted.len() implies sorted[i].x
            > x by {
            if i < head.len() {
                assert(head[i] == sorted[i]);
            }
        }
        assert forall|i: int| 0 <= i < insert_position(sorted, x) implies sorted[i].x <= x by {
            assert(head[i] == sorted[i]);
        }
    }
}

/// Sorting keeps the blocks of a row and puts them in order of x.
pub proof fn lemma_sort_by_x(row: Seq<BlockCoordinates>)
    ensures
        sort_by_x(row).len() == row.len(),
        ordered_x(sort_by_x(row)),
        forall|p: BlockCoordinates|
            #![trigger sort_by_x(row).contains(p)]
            #![trigger row.contains(p)]
            sort_by_x(row).contains(p) <==> row.contains(p),
        row.no_duplicates() ==> sort_by_x(row).no_duplicates(),
    decreases row.len(),
{
    if row.len() > 0 {
        let head = row.drop_last();
        let sorted = sort_by_x(head);
        let block = row.last();
        let at = insert_position(sorted, block.x as int);
        lemma_sort_by_x(head);
        lemma_insert_position(sorted, block.x as int);
        let after = sorted.insert(at, block);
        assert forall|i: int, j: int| 0 <= i < j < after.len() implies after[i].x <= after[j].x by {
            if i < at && j > at {
                assert(after[j] == sorted[j - 1]);
            } else if i > at {
                assert(after[i] == sorted[i - 1]);
                assert(after[j] == sorted[j - 1]);
            }
        }
        assert forall|p: BlockCoordinates| after.contains(p) <==> row.contains(p) by {
            if after.contains(p) {
                let i = choose|i: int| 0 <= i < after.len() && after[i] == p;
                if i == at {
                    assert(row[row.len() - 1] == p);
                } else {
                    let k = if i < at {
                        i
                    } else {
                        i - 1
                    };
                    assert(sorted[k] == p);
                    assert(sorted.contains(p));
                    assert(head.contains(p));
                    let h = choose|h: int| 0 <= h < head.len() && head[h] == p;
                    assert(row[h] == p);
                }
            }
            if row.contains(p) {
                let i = choose|i: int| 0 <= i < row.len() && row[i] == p;
                if i == row.len() - 1 {
                    assert(after[at] == p);
                } else {
                    assert(head[i] == p);
                    assert(head.contains(p));
                    assert(sorted.contains(p));
                    let k = choose|k: int| 0 <= k < sorted.len() && sorted[k] == p;
                    if k < at {
                        assert(after[k] == p);
                    } else {
                        assert(after[k + 1] == p);
                    }
                }
            }
        }
        if row.no_duplicates() {
            assert(head.no_duplicates());
            assert(!sorted.contains(block)) by {
                if head.contains(block) {
                    let h = choose|h: int| 0 <= h < head.len() && head[h] == block;
                    assert(row[h] == row[row.len() - 1]);
                }
            }
            assert forall|i: int, j: int| 0 <= i < after.len() && 0 <= j < after.len() && i != j implies after[i] != after[j] by {
                let a = if i < at {
                    i
                } else {
                    i - 1
                };
                let b = if j < at {
                    j
                } else {
                    j - 1
                };
                if i == at {
                    assert(sorted[b] == after[j]);
                } else if j == at {
                    assert(sorted[a] == after[i]);
                } else {
                    assert(sorted[a] == after[i]);
                    assert(sorted[b] == after[j]);
                }
            }
        }
    }
}

/// Finds by halving where a block with the given x goes.
fn find_insert_position(sorted: &Vec<BlockCoordinates>, x: isize) -> (position: usize)
    requires
        ordered_x(sorted@),
    ensures
        position == insert_position(sorted@, x as int),
        position <= sorted.len(),
{
    let mut low: usize = 0;
    let mut high: usize = sorted.len();
    if high == 0 || sorted[high - 1].x <= x {
        return high;
    }
    while low < high
        invariant
            low <= high <= sorted.len(),
            ordered_x(sorted@),
            forall|i: int| 0 <= i < low ==> sorted[i].x <= x,
            forall|i: int| high <= i < sorted.len() ==> sorted[i].x > x,
        decreases high - low,
    {
        let middle = low + (high - low) / 2;
        if sorted[middle].x <= x {
            low = middle + 1;
        } else {
            high = middle;
        }
    }
    proof {
        lemma_insert_position(sorted@, x as int);
        let position = insert_position(sorted@, x as int);
        if low < position {
            assert(sorted[low as int].x > x);
        }
        if position < low {
            assert(sorted[position].x <= x);
        }
    }
    low
}

/// Sorts a row by x. Blocks with equal x keep their order.
pub fn sort_row_by_x(row: &Vec<BlockCoordinates>) -> (sorted: Vec<BlockCoordinates>)
    ensures
        sorted@ == sort_by_x(row@),
{
    let mut sorted: Vec<BlockCoordinates> = Vec::new();
    let mut index: usize = 0;
    while index < row.len()
        invariant
            index <= row.len(),
            sorted@ == sort_by_x(row@.take(index as int)),
        decreases row.len() - index,
    {
        let block = row[index];
        proof {
            lemma_sort_by_x(row@.take(index as int));
        }
        let position = find_insert_position(&sorted, block.x);
        sorted.insert(position, block);
        assert(row@.take(index + 1).drop_last() == row@.take(index as int));
        index += 1;
    }
    assert(row@.take(row.len() as int) == row@);
    sorted
}

} // verus!
