use mca_collisions::block_sequence::BlockSequence;
use mca_collisions::block_stack::BlockStack;
use mca_collisions::merge::{merge_blocks, stretch_sequences_by_z};
use mca_collisions::BlockCoordinates;

fn block(x: isize, y: isize, z: isize) -> BlockCoordinates {
    BlockCoordinates::new(x, y, z)
}

fn sequence(start: (isize, isize, isize), end: (isize, isize, isize)) -> BlockSequence {
    BlockSequence::new(
        BlockCoordinates::new(start.0, start.1, start.2),
        BlockCoordinates::new(end.0, end.1, end.2),
    )
}

fn key(s: &BlockSequence) -> [isize; 6] {
    [s.start.y, s.start.z, s.start.x, s.end.y, s.end.z, s.end.x]
}

fn merged(blocks: Vec<BlockCoordinates>) -> Vec<BlockSequence> {
    let mut boxes = merge_blocks(BlockStack::from_blocks(blocks));
    boxes.sort_by_key(key);
    boxes
}

fn blocks_of(boxes: &[BlockSequence]) -> Vec<(isize, isize, isize)> {
    let mut all = vec![];
    for b in boxes {
        for x in b.start.x..=b.end.x {
            for y in b.start.y..=b.end.y {
                for z in b.start.z..=b.end.z {
                    all.push((x, y, z));
                }
            }
        }
    }
    all.sort();
    all
}

fn sorted(blocks: &[BlockCoordinates]) -> Vec<(isize, isize, isize)> {
    let mut all: Vec<_> = blocks.iter().map(|b| (b.x, b.y, b.z)).collect();
    all.sort();
    all
}

#[test]
fn sequence_sizes_and_ends() {
    let a = sequence((0, 0, 0), (3, 0, 2));
    let b = sequence((10, 5, 7), (13, 5, 8));
    assert!(a.same_x_size(&b));
    assert!(!a.same_z_size(&b));
    assert!(a.has_z_end_on(2));
    assert!(!a.has_z_end_on(1));
    let wide = sequence((isize::MIN, 0, 0), (isize::MAX, 0, 0));
    assert!(!wide.same_x_size(&a));
    assert!(wide.same_x_size(&wide));
}

#[test]
fn sequence_grows() {
    let mut a = sequence((0, 0, 0), (3, 0, 2));
    a.expand_z_end(sequence((9, 9, 3), (9, 9, 3)));
    assert_eq!(a, sequence((0, 0, 0), (3, 0, 3)));
    a.expand_start(block(0, -1, 0));
    assert_eq!(a, sequence((0, -1, 0), (3, 0, 3)));
}

#[test]
fn z_stretch_grows_the_sequence_of_the_row_before() {
    let mut plane = vec![sequence((0, 0, 0), (1, 0, 0))];
    stretch_sequences_by_z(vec![sequence((0, 0, 1), (1, 0, 1))], &mut plane, 1);
    assert_eq!(plane, vec![sequence((0, 0, 0), (1, 0, 1))]);
}

#[test]
fn z_stretch_adds_what_finds_no_sequence() {
    let mut plane = vec![sequence((0, 0, 0), (1, 0, 0))];
    let row = vec![sequence((0, 0, 1), (2, 0, 1)), sequence((4, 0, 1), (4, 0, 1))];
    stretch_sequences_by_z(row.clone(), &mut plane, 1);
    assert_eq!(
        plane,
        vec![sequence((0, 0, 0), (1, 0, 0)), row[0], row[1]]
    );
}

#[test]
fn z_stretch_skips_a_row() {
    let mut plane = vec![sequence((0, 0, 0), (1, 0, 0))];
    stretch_sequences_by_z(vec![sequence((0, 0, 2), (1, 0, 2))], &mut plane, 2);
    assert_eq!(
        plane,
        vec![sequence((0, 0, 0), (1, 0, 0)), sequence((0, 0, 2), (1, 0, 2))]
    );
}

#[test]
fn z_stretch_takes_the_first_match() {
    let mut plane = vec![sequence((0, 0, 0), (1, 0, 0)), sequence((5, 0, 0), (6, 0, 0))];
    stretch_sequences_by_z(vec![sequence((5, 0, 1), (6, 0, 1))], &mut plane, 1);
    assert_eq!(
        plane,
        vec![sequence((0, 0, 0), (1, 0, 1)), sequence((5, 0, 0), (6, 0, 0))]
    );
}

#[test]
fn z_stretch_grows_a_sequence_once_per_row() {
    let mut plane = vec![sequence((0, 0, 0), (1, 0, 0))];
    let row = vec![sequence((0, 0, 1), (1, 0, 1)), sequence((5, 0, 1), (6, 0, 1))];
    stretch_sequences_by_z(row, &mut plane, 1);
    assert_eq!(
        plane,
        vec![sequence((0, 0, 0), (1, 0, 1)), sequence((5, 0, 1), (6, 0, 1))]
    );
}

#[test]
fn z_stretch_of_an_empty_row_changes_nothing() {
    let mut plane = vec![sequence((0, 0, 0), (1, 0, 0))];
    stretch_sequences_by_z(vec![], &mut plane, 1);
    assert_eq!(plane, vec![sequence((0, 0, 0), (1, 0, 0))]);
    stretch_sequences_by_z(vec![sequence((0, 0, 0), (1, 0, 0))], &mut plane, isize::MIN);
    assert_eq!(plane.len(), 2);
}

#[test]
fn merge_of_nothing_is_nothing() {
    assert_eq!(merged(vec![]), vec![]);
}

#[test]
fn merge_of_a_cube_is_one_box() {
    let mut blocks = vec![];
    for x in 0..2 {
        for y in 0..2 {
            for z in 0..2 {
                blocks.push(block(x, y, z));
            }
        }
    }
    assert_eq!(merged(blocks), vec![sequence((0, 0, 0), (1, 1, 1))]);
}

#[test]
fn merge_of_a_column_pulls_the_start_down() {
    let blocks = vec![block(3, 2, 4), block(3, 0, 4), block(3, 1, 4)];
    assert_eq!(merged(blocks), vec![sequence((3, 0, 4), (3, 2, 4))]);
}

#[test]
fn merge_does_not_join_layers_that_are_apart() {
    let blocks = vec![block(0, 0, 0), block(0, 2, 0)];
    assert_eq!(
        merged(blocks),
        vec![sequence((0, 0, 0), (0, 0, 0)), sequence((0, 2, 0), (0, 2, 0))]
    );
}

#[test]
fn merge_keeps_boxes_of_other_sizes_apart() {
    // a plate of 3 x 1 under a plate of 2 x 1
    let blocks = vec![
        block(0, 0, 0),
        block(1, 0, 0),
        block(2, 0, 0),
        block(0, 1, 0),
        block(1, 1, 0),
    ];
    assert_eq!(
        merged(blocks),
        vec![sequence((0, 0, 0), (2, 0, 0)), sequence((0, 1, 0), (1, 1, 0))]
    );
}

#[test]
fn merged_boxes_hold_exactly_the_blocks() {
    // a slab of 4 x 2 x 3 and a pillar beside it
    let mut blocks = vec![];
    for y in 0..2 {
        for z in 0..3 {
            for x in 0..4 {
                blocks.push(block(x, y, z));
            }
        }
    }
    for y in 0..5 {
        blocks.push(block(10, y, 1));
    }
    let boxes = merged(blocks.clone());
    assert_eq!(
        boxes,
        vec![sequence((0, 0, 0), (3, 1, 2)), sequence((10, 0, 1), (10, 4, 1))]
    );
    assert_eq!(blocks_of(&boxes), sorted(&blocks));
}

#[test]
fn merged_boxes_do_not_overlap() {
    let mut blocks = vec![];
    for y in 0..3 {
        for z in 0..4 {
            for x in 0..(4 - z) {
                blocks.push(block(x, y, 2 * z));
            }
        }
    }
    let boxes = merged(blocks.clone());
    let covered = blocks_of(&boxes);
    let mut once = covered.clone();
    once.dedup();
    assert_eq!(covered, once);
    assert_eq!(covered, sorted(&blocks));
    assert_eq!(boxes.len(), 4);
}

#[test]
fn merge_does_not_depend_on_the_order_of_the_blocks() {
    let mut blocks = vec![];
    for y in 0..2 {
        for z in 0..3 {
            for x in 0..4 {
                blocks.push(block(x, y, z));
            }
        }
    }
    blocks.push(block(7, 0, 0));
    blocks.push(block(8, 0, 0));
    let forwards = merged(blocks.clone());
    blocks.reverse();
    let backwards = merged(blocks.clone());
    blocks.swap(0, 5);
    blocks.swap(3, 17);
    let shuffled = merged(blocks);
    assert_eq!(forwards, backwards);
    assert_eq!(forwards, shuffled);
    assert_eq!(
        forwards,
        vec![sequence((0, 0, 0), (3, 1, 2)), sequence((7, 0, 0), (8, 0, 0))]
    );
}

#[test]
fn merge_joins_runs_of_equal_length_that_stand_apart() {
    // two blocks on a diagonal: the second run is as long as the first and
    // lies in the next row, so the first one takes it in
    let boxes = merged(vec![block(0, 0, 0), block(1, 0, 1)]);
    assert_eq!(boxes, vec![sequence((0, 0, 0), (0, 0, 1))]);
}

#[test]
fn stack_orders_plates_and_rows() {
    let stack = BlockStack::from_blocks(vec![
        block(5, 1, 2),
        block(1, 0, 7),
        block(4, 1, 2),
        block(9, 1, -3),
        block(0, -2, 0),
    ]);
    let plates = stack.plates();
    let ys: Vec<isize> = plates.iter().map(|p| p.y).collect();
    assert_eq!(ys, vec![-2, 0, 1]);
    let top = &plates[2];
    let zs: Vec<isize> = top.rows.iter().map(|r| r.z).collect();
    assert_eq!(zs, vec![-3, 2]);
    assert_eq!(top.rows[1].blocks, vec![block(5, 1, 2), block(4, 1, 2)]);
    assert_eq!(top.rows[0].blocks, vec![block(9, 1, -3)]);
}

#[test]
fn stack_grows_block_by_block() {
    let mut stack = BlockStack::new();
    assert_eq!(stack.plates().len(), 0);
    stack.add(block(1, 1, 1));
    stack.add(block(2, 1, 1));
    stack.add(block(1, 1, 0));
    let plates = stack.plates();
    assert_eq!(plates.len(), 1);
    assert_eq!(plates[0].rows.len(), 2);
    assert_eq!(plates[0].rows[0].z, 0);
    assert_eq!(plates[0].rows[1].blocks, vec![block(1, 1, 1), block(2, 1, 1)]);
}
