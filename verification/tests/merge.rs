use mca_collisions::block_sequence::BlockSequence;
use mca_collisions::merge::merge_blocks_x_row;
use mca_collisions::BlockCoordinates;

#[test]
fn merge_blocks_x_row_simple() {
    let b = |x| -> BlockCoordinates { BlockCoordinates::new(x, 0, 0) };
    let blocks = vec![b(0), b(1), b(2), b(3), b(4)];
    let result = merge_blocks_x_row(blocks);

    assert_eq!(
        result,
        vec![BlockSequence::new(
            BlockCoordinates::new(0, 0, 0),
            BlockCoordinates::new(4, 0, 0)
        )]
    );
}

#[test]
fn merge_blocks_x_row_multiple() {
    let b = |x| -> BlockCoordinates { BlockCoordinates::new(x, 0, 0) };
    let blocks = vec![b(0), b(1), b(3), b(4)];
    let result = merge_blocks_x_row(blocks);

    assert_eq!(
        result,
        vec![
            BlockSequence::new(
                BlockCoordinates::new(0, 0, 0),
                BlockCoordinates::new(1, 0, 0)
            ),
            BlockSequence::new(
                BlockCoordinates::new(3, 0, 0),
                BlockCoordinates::new(4, 0, 0)
            )
        ]
    );
}

fn block(x: isize, y: isize, z: isize) -> BlockCoordinates {
    BlockCoordinates::new(x, y, z)
}

fn sequence(start: (isize, isize, isize), end: (isize, isize, isize)) -> BlockSequence {
    BlockSequence::new(
        BlockCoordinates::new(start.0, start.1, start.2),
        BlockCoordinates::new(end.0, end.1, end.2),
    )
}

#[test]
fn x_row_of_nothing_has_no_runs() {
    assert_eq!(merge_blocks_x_row(vec![]), vec![]);
}

#[test]
fn x_row_of_one_block_is_one_run() {
    assert_eq!(
        merge_blocks_x_row(vec![block(7, 1, 2)]),
        vec![sequence((7, 1, 2), (7, 1, 2))]
    );
}

#[test]
fn x_row_is_sorted_before_it_is_cut() {
    let result = merge_blocks_x_row(vec![block(4, 0, 0), block(0, 0, 0), block(3, 0, 0), block(1, 0, 0)]);
    assert_eq!(
        result,
        vec![sequence((0, 0, 0), (1, 0, 0)), sequence((3, 0, 0), (4, 0, 0))]
    );
}

#[test]
fn x_row_with_a_repeated_block_is_cut_there() {
    let result = merge_blocks_x_row(vec![block(0, 0, 0), block(0, 0, 0), block(1, 0, 0)]);
    assert_eq!(
        result,
        vec![sequence((0, 0, 0), (0, 0, 0)), sequence((0, 0, 0), (1, 0, 0))]
    );
}

#[test]
fn x_row_keeps_the_order_of_blocks_with_equal_x() {
    let result = merge_blocks_x_row(vec![block(5, 1, 0), block(5, 2, 0)]);
    assert_eq!(
        result,
        vec![sequence((5, 1, 0), (5, 1, 0)), sequence((5, 2, 0), (5, 2, 0))]
    );
}

#[test]
fn x_row_at_the_end_of_the_number_line() {
    let top = isize::MAX;
    assert_eq!(
        merge_blocks_x_row(vec![block(top, 0, 0), block(top - 1, 0, 0)]),
        vec![sequence((top - 1, 0, 0), (top, 0, 0))]
    );
    assert_eq!(
        merge_blocks_x_row(vec![block(isize::MIN, 0, 0), block(top, 0, 0)]),
        vec![
            sequence((isize::MIN, 0, 0), (isize::MIN, 0, 0)),
            sequence((top, 0, 0), (top, 0, 0))
        ]
    );
}
