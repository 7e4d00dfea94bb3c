use mca_collisions::chunk::Window;
use mca_collisions::nbt::{is_tame_payload, skip_compound, skip_value, MAX_DEPTH};
use mca_collisions::read::{read_chunk_data, ReadError};
use mca_collisions::{BlockCoordinates, ExportParams};

fn window() -> Window {
    Window {
        x_base: 0,
        z_base: 0,
        x_min: 0,
        x_max: 15,
        z_min: 0,
        z_max: 15,
    }
}

fn request() -> ExportParams {
    ExportParams {
        start: BlockCoordinates::new(0, 0, 0),
        end: BlockCoordinates::new(15, 0, 15),
        ..Default::default()
    }
}

/// A root compound with one entry "a": lists nested `depth` deep, the
/// innermost an empty list of bytes.
fn nested_lists(depth: usize) -> Vec<u8> {
    let mut bytes = vec![10, 0, 0, 9, 0, 1, b'a'];
    for _ in 1..depth {
        bytes.extend_from_slice(&[9, 0, 0, 0, 1]);
    }
    bytes.extend_from_slice(&[1, 0, 0, 0, 0]);
    bytes.push(0);
    bytes
}

#[test]
fn values_of_fixed_size() {
    let data = vec![0u8; 8];
    assert_eq!(skip_value(&data, 0, 1, 0), Some(1));
    assert_eq!(skip_value(&data, 3, 2, 0), Some(5));
    assert_eq!(skip_value(&data, 0, 3, 0), Some(4));
    assert_eq!(skip_value(&data, 0, 4, 0), Some(8));
    assert_eq!(skip_value(&data, 4, 5, 0), Some(8));
    assert_eq!(skip_value(&data, 0, 6, 0), Some(8));
    assert_eq!(skip_value(&data, 1, 6, 0), None);
    assert_eq!(skip_value(&data, 8, 1, 0), None);
    assert_eq!(skip_value(&data, 0, 0, 5), None);
    assert_eq!(skip_value(&data, 0, 13, 5), None);
}

#[test]
fn texts_and_arrays() {
    let text = vec![0, 3, b'a', b'b', b'c', 9];
    assert_eq!(skip_value(&text, 0, 8, 0), Some(5));
    assert_eq!(skip_value(&text, 1, 8, 0), None);
    let longs = vec![0, 0, 0, 2, 1, 2, 3, 4, 5, 6, 7, 8, 9, 10, 11, 12, 13, 14, 15, 16];
    assert_eq!(skip_value(&longs, 0, 12, 0), Some(20));
    assert_eq!(skip_value(&longs, 0, 11, 0), Some(12));
    assert_eq!(skip_value(&longs, 0, 7, 0), Some(6));
    let short = vec![0, 0, 0, 3, 1, 2, 3, 4, 5, 6, 7, 8];
    assert_eq!(skip_value(&short, 0, 11, 0), None);
    let negative = vec![255, 255, 255, 255, 0, 0];
    assert_eq!(skip_value(&negative, 0, 7, 0), None);
}

#[test]
fn lists_and_compounds() {
    // three shorts
    let shorts = vec![2, 0, 0, 0, 3, 0, 1, 0, 2, 0, 3];
    assert_eq!(skip_value(&shorts, 0, 9, 1), Some(11));
    assert_eq!(skip_value(&shorts, 0, 9, 0), None);
    // a list of the kind `end` with no element, and with one
    assert_eq!(skip_value(&vec![0, 0, 0, 0, 0], 0, 9, 1), Some(5));
    assert_eq!(skip_value(&vec![0, 0, 0, 0, 1], 0, 9, 1), None);
    // a negative count is no element
    assert_eq!(skip_value(&vec![1, 255, 255, 255, 255], 0, 9, 1), Some(5));
    // two empty compounds
    assert_eq!(skip_value(&vec![10, 0, 0, 0, 2, 0, 0], 0, 9, 2), Some(7));
    assert_eq!(skip_value(&vec![10, 0, 0, 0, 2, 0, 0], 0, 9, 1), None);
    // a compound with a byte "a" and a text "b"
    let compound = vec![1, 0, 1, b'a', 7, 8, 0, 1, b'b', 0, 2, b'h', b'i', 0];
    assert_eq!(skip_compound(&compound, 0, 0), Some(14));
    assert_eq!(skip_value(&compound, 0, 10, 1), Some(14));
    assert_eq!(skip_value(&compound, 0, 10, 0), None);
    assert_eq!(skip_compound(&compound[..13].to_vec(), 0, 0), None);
}

#[test]
fn payload_with_a_list_of_ends_is_not_tame() {
    let bytes = vec![0x0a, 0, 0, 0x09, 0, 1, 0x61, 0, 0, 0, 0, 1];
    assert!(!is_tame_payload(&bytes));
    assert_eq!(
        read_chunk_data(&bytes, &window(), &request()),
        Err(ReadError::Chunk)
    );
    let empty_list = vec![0x0a, 0, 0, 0x09, 0, 1, 0x61, 0, 0, 0, 0, 0, 0];
    assert!(is_tame_payload(&empty_list));
    assert_eq!(
        read_chunk_data(&empty_list, &window(), &request()),
        Err(ReadError::Chunk)
    );
}

#[test]
fn payload_nested_too_deep_is_not_tame() {
    assert!(is_tame_payload(&nested_lists(1)));
    assert!(is_tame_payload(&nested_lists(MAX_DEPTH)));
    assert!(!is_tame_payload(&nested_lists(MAX_DEPTH + 1)));
    assert!(!is_tame_payload(&nested_lists(100_000)));
    assert_eq!(
        read_chunk_data(&nested_lists(100_000), &window(), &request()),
        Err(ReadError::Chunk)
    );
    assert_eq!(
        read_chunk_data(&nested_lists(MAX_DEPTH), &window(), &request()),
        Err(ReadError::Chunk)
    );
}

#[test]
fn payload_must_be_a_complete_named_compound() {
    assert!(!is_tame_payload(&vec![]));
    assert!(!is_tame_payload(&vec![10]));
    assert!(!is_tame_payload(&vec![10, 0, 0]));
    assert!(is_tame_payload(&vec![10, 0, 0, 0]));
    assert!(is_tame_payload(&vec![10, 0, 2, b'h', b'i', 0, 99, 99]));
    assert!(!is_tame_payload(&vec![9, 0, 0, 0]));
    assert!(!is_tame_payload(&vec![10, 0, 0, 1, 0, 1, b'a']));
    assert!(!is_tame_payload(&vec![10, 0, 0, 77, 0, 1, b'a', 0, 0]));
}
