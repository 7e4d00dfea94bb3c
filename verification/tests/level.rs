use std::collections::HashMap;
use std::io::Cursor;

use fastnbt::{LongArray, Value};
use mca_collisions::chunk::{check_section, collect_chunk_voxels, SectionState, Window};
use mca_collisions::nbt::is_tame_payload;
use mca_collisions::read::{read_level, read_level_file, LevelFile, ReadError};
use mca_collisions::{BlockCoordinates, ExportParams};

const AIR: i64 = 0;
const BEDROCK: i64 = 1;
const STONE: i64 = 2;

fn compound(entries: Vec<(&str, Value)>) -> Value {
    let mut map = HashMap::new();
    for (key, value) in entries {
        map.insert(key.to_string(), value);
    }
    Value::Compound(map)
}

fn palette(names: &[&str]) -> Value {
    Value::List(
        names
            .iter()
            .map(|name| compound(vec![("Name", Value::String(name.to_string()))]))
            .collect(),
    )
}

/// Packs 4096 palette indices, four bits each, sixteen to a long.
fn pack(states: &[i64]) -> Vec<i64> {
    let mut longs = vec![0i64; states.len() / 16];
    for (index, state) in states.iter().enumerate() {
        longs[index / 16] |= state << ((index % 16) * 4);
    }
    longs
}

fn state_index(x: usize, sec_y: usize, z: usize) -> usize {
    sec_y * 256 + z * 16 + x
}

fn section(y: i8, names: &[&str], states: Option<Vec<i64>>) -> Value {
    let mut block_states = vec![("palette", palette(names))];
    if let Some(longs) = states {
        block_states.push(("data", Value::LongArray(LongArray::new(longs))));
    }
    compound(vec![
        ("Y", Value::Byte(y)),
        ("block_states", compound(block_states)),
    ])
}

fn chunk_bytes(sections: Vec<Value>) -> Vec<u8> {
    let chunk = compound(vec![
        ("DataVersion", Value::Int(3120)),
        ("Status", Value::String("full".to_string())),
        ("sections", Value::List(sections)),
    ]);
    fastnbt::to_bytes(&chunk).unwrap()
}

fn region_bytes(chunks: Vec<(usize, usize, Vec<u8>)>) -> Vec<u8> {
    let mut region = fastanvil::Region::create(Cursor::new(Vec::new())).unwrap();
    for (x, z, bytes) in chunks {
        region.write_chunk(x, z, &bytes).unwrap();
    }
    region.into_inner().unwrap().into_inner()
}

/// A small level: bedrock everywhere at y = -64; stone at y = -63 on the
/// square (1..=2, 1..=2) and at (1, 5); stone at (1, 5) up to y = -61.
fn test_level() -> Vec<LevelFile> {
    let mut states = vec![AIR; 4096];
    for x in 0..16 {
        for z in 0..16 {
            states[state_index(x, 0, z)] = BEDROCK;
        }
    }
    for (x, z) in [(1, 1), (1, 2), (2, 1), (2, 2), (1, 5)] {
        states[state_index(x, 1, z)] = STONE;
    }
    states[state_index(1, 2, 5)] = STONE;
    states[state_index(1, 3, 5)] = STONE;
    let lowest = section(
        -4,
        &["minecraft:air", "minecraft:bedrock", "minecraft:stone"],
        Some(pack(&states)),
    );
    let chunk = chunk_bytes(vec![lowest]);
    vec![LevelFile {
        name: "r.0.0.mca".to_string(),
        bytes: region_bytes(vec![(0, 0, chunk)]),
    }]
}

#[test]
fn read_level_export_range_1() {
    let result = read_level(
        &test_level(),
        &ExportParams {
            start: BlockCoordinates::new(1, -63, 1),
            end: BlockCoordinates::new(2, -63, 2),
            ..Default::default()
        },
    )
    .unwrap();
    assert_eq!(
        result,
        vec![
            BlockCoordinates::new(1, -63, 1),
            BlockCoordinates::new(1, -63, 2),
            BlockCoordinates::new(2, -63, 1),
            BlockCoordinates::new(2, -63, 2),
        ]
    );
}

#[test]
fn read_level_export_range_2() {
    let result = read_level(
        &test_level(),
        &ExportParams {
            start: BlockCoordinates::new(1, -63, 5),
            end: BlockCoordinates::new(2, -60, 6),
            ..Default::default()
        },
    )
    .unwrap();
    assert_eq!(
        result,
        vec![
            BlockCoordinates::new(1, -63, 5),
            BlockCoordinates::new(1, -62, 5),
            BlockCoordinates::new(1, -61, 5),
        ]
    );
}

#[test]
fn read_level_skip_blocks_1() {
    let result = read_level(
        &test_level(),
        &ExportParams {
            start: BlockCoordinates::new(1, -63, 1),
            end: BlockCoordinates::new(2, -63, 2),
            skip_blocks: vec!["minecraft:stone".to_owned()],
        },
    )
    .unwrap();
    assert_eq!(result, vec![]);
}

#[test]
fn read_level_skip_blocks_2() {
    let result = read_level(
        &test_level(),
        &ExportParams {
            start: BlockCoordinates::new(1, -64, 1),
            end: BlockCoordinates::new(2, -63, 2),
            skip_blocks: vec!["minecraft:stone".to_owned()],
        },
    )
    .unwrap();
    assert_eq!(
        result,
        vec![
            BlockCoordinates::new(1, -64, 1),
            BlockCoordinates::new(1, -64, 2),
            BlockCoordinates::new(2, -64, 1),
            BlockCoordinates::new(2, -64, 2),
        ]
    );
}

#[test]
fn skipping_and_restoring_a_kind() {
    let level = test_level();
    let range = |skip: Vec<String>| ExportParams {
        start: BlockCoordinates::new(1, -63, 1),
        end: BlockCoordinates::new(2, -63, 2),
        skip_blocks: skip,
    };
    let full = read_level(&level, &range(vec![])).unwrap();
    let none = read_level(&level, &range(vec!["minecraft:stone".to_owned()])).unwrap();
    let again = read_level(&level, &range(vec![])).unwrap();
    assert_eq!(full.len(), 4);
    assert_eq!(none, vec![]);
    assert_eq!(again, full);
}

#[test]
fn air_is_never_solid() {
    let result = read_level(
        &test_level(),
        &ExportParams {
            start: BlockCoordinates::new(3, -63, 3),
            end: BlockCoordinates::new(4, -62, 4),
            ..Default::default()
        },
    )
    .unwrap();
    assert_eq!(result, vec![]);
}

#[test]
fn layers_outside_the_chunk_hold_nothing() {
    let result = read_level(
        &test_level(),
        &ExportParams {
            start: BlockCoordinates::new(1, -70, 1),
            end: BlockCoordinates::new(1, -64, 1),
            ..Default::default()
        },
    )
    .unwrap();
    assert_eq!(result, vec![BlockCoordinates::new(1, -64, 1)]);
}

#[test]
fn empty_vertical_range_holds_nothing() {
    let result = read_level(
        &test_level(),
        &ExportParams {
            start: BlockCoordinates::new(1, -63, 1),
            end: BlockCoordinates::new(2, -64, 2),
            ..Default::default()
        },
    )
    .unwrap();
    assert_eq!(result, vec![]);
}

#[test]
fn section_with_one_kind_and_no_packed_data() {
    let only_stone = section(0, &["minecraft:stone"], None);
    let file = region_bytes(vec![(0, 0, chunk_bytes(vec![only_stone]))]);
    let result = read_level_file(
        "r.0.0.mca",
        &file,
        &ExportParams {
            start: BlockCoordinates::new(1, 15, 1),
            end: BlockCoordinates::new(2, 16, 1),
            ..Default::default()
        },
    )
    .unwrap();
    assert_eq!(
        result,
        vec![
            BlockCoordinates::new(1, 15, 1),
            BlockCoordinates::new(2, 15, 1),
        ]
    );
}

#[test]
fn section_without_block_states_is_air() {
    let bare = compound(vec![("Y", Value::Byte(0))]);
    let file = region_bytes(vec![(0, 0, chunk_bytes(vec![bare]))]);
    let result = read_level_file(
        "r.0.0.mca",
        &file,
        &ExportParams {
            start: BlockCoordinates::new(0, 0, 0),
            end: BlockCoordinates::new(3, 3, 3),
            ..Default::default()
        },
    );
    assert_eq!(result, Ok(vec![]));
}

#[test]
fn section_with_short_packed_data_is_an_error() {
    let short = section(
        0,
        &["minecraft:air", "minecraft:stone"],
        Some(vec![0x1111_1111_1111_1111; 10]),
    );
    let file = region_bytes(vec![(0, 0, chunk_bytes(vec![short]))]);
    let params = ExportParams {
        start: BlockCoordinates::new(0, 0, 0),
        end: BlockCoordinates::new(3, 0, 3),
        ..Default::default()
    };
    assert_eq!(
        read_level_file("r.0.0.mca", &file, &params),
        Err(ReadError::Chunk)
    );
}

#[test]
fn chunk_that_does_not_decode_is_an_error() {
    let file = region_bytes(vec![(0, 0, vec![1, 2, 3, 4, 5])]);
    let params = ExportParams {
        start: BlockCoordinates::new(0, 0, 0),
        end: BlockCoordinates::new(3, 0, 3),
        ..Default::default()
    };
    assert_eq!(
        read_level_file("r.0.0.mca", &file, &params),
        Err(ReadError::Chunk)
    );
}

#[test]
fn chunk_outside_the_request_is_not_decoded() {
    let file = region_bytes(vec![(5, 5, vec![1, 2, 3, 4, 5])]);
    let params = ExportParams {
        start: BlockCoordinates::new(0, 0, 0),
        end: BlockCoordinates::new(3, 0, 3),
        ..Default::default()
    };
    assert_eq!(read_level_file("r.0.0.mca", &file, &params), Ok(vec![]));
}

#[test]
fn file_without_a_table_is_an_error() {
    let params = ExportParams::default();
    assert_eq!(
        read_level_file("r.0.0.mca", &vec![0u8; 100], &params),
        Err(ReadError::Region)
    );
}

#[test]
fn record_of_length_zero_is_an_error() {
    let mut file = vec![0u8; 3 * 4096];
    // the first chunk starts at sector 2 and takes one sector
    file[2] = 2;
    file[3] = 1;
    // its record claims a length of zero, packed with zlib
    file[2 * 4096 + 4] = 2;
    let params = ExportParams::default();
    assert_eq!(
        read_level_file("r.0.0.mca", &file, &params),
        Err(ReadError::Region)
    );
}

#[test]
fn file_name_without_coordinates_is_an_error() {
    let file = test_level().remove(0).bytes;
    let params = ExportParams::default();
    assert_eq!(
        read_level_file("region.mca", &file, &params),
        Err(ReadError::FileName)
    );
    assert_eq!(
        read_level_file("r.a.0.mca", &file, &params),
        Err(ReadError::FileName)
    );
}

#[test]
fn file_too_far_out_is_an_error() {
    let file = test_level().remove(0).bytes;
    let params = ExportParams::default();
    let name = format!("r.{}.0.mca", isize::MAX / 512);
    assert_eq!(
        read_level_file(&name, &file, &params),
        Err(ReadError::FileIndex)
    );
}

#[test]
fn missing_file_is_an_error() {
    let params = ExportParams {
        start: BlockCoordinates::new(600, 0, 0),
        end: BlockCoordinates::new(601, 0, 0),
        ..Default::default()
    };
    assert_eq!(read_level(&test_level(), &params), Err(ReadError::MissingFile));
}

#[test]
fn empty_file_is_an_error() {
    let files = vec![LevelFile {
        name: "r.0.0.mca".to_string(),
        bytes: vec![],
    }];
    assert_eq!(
        read_level(&files, &ExportParams::default()),
        Err(ReadError::MissingFile)
    );
}

#[test]
fn chunks_of_a_file_of_negative_index_count_downwards() {
    let only_stone = section(0, &["minecraft:stone"], None);
    let file = region_bytes(vec![(1, 0, chunk_bytes(vec![only_stone]))]);
    // chunk 1 of file -1 starts at -512 - 16 along x, chunk 0 at -512 along z
    let result = read_level_file(
        "r.-1.-1.mca",
        &file,
        &ExportParams {
            start: BlockCoordinates::new(-514, 0, -510),
            end: BlockCoordinates::new(-513, 0, -509),
            ..Default::default()
        },
    )
    .unwrap();
    assert_eq!(
        result,
        vec![
            BlockCoordinates::new(-514, 0, -510),
            BlockCoordinates::new(-514, 0, -509),
            BlockCoordinates::new(-513, 0, -510),
            BlockCoordinates::new(-513, 0, -509),
        ]
    );
}

#[test]
fn two_chunks_come_in_file_order() {
    let stone = || chunk_bytes(vec![section(0, &["minecraft:stone"], None)]);
    let file = region_bytes(vec![(1, 0, stone()), (0, 0, stone())]);
    let result = read_level_file(
        "r.0.0.mca",
        &file,
        &ExportParams {
            start: BlockCoordinates::new(15, 0, 1),
            end: BlockCoordinates::new(17, 0, 1),
            ..Default::default()
        },
    )
    .unwrap();
    assert_eq!(
        result,
        vec![
            BlockCoordinates::new(15, 0, 1),
            BlockCoordinates::new(16, 0, 1),
            BlockCoordinates::new(17, 0, 1),
        ]
    );
}

#[test]
fn request_that_ends_on_the_first_block_of_a_chunk_skips_the_chunk() {
    let stone = || chunk_bytes(vec![section(0, &["minecraft:stone"], None)]);
    let file = region_bytes(vec![(0, 0, stone()), (1, 0, stone())]);
    let result = read_level_file(
        "r.0.0.mca",
        &file,
        &ExportParams {
            start: BlockCoordinates::new(15, 0, 1),
            end: BlockCoordinates::new(16, 0, 1),
            ..Default::default()
        },
    )
    .unwrap();
    assert_eq!(result, vec![BlockCoordinates::new(15, 0, 1)]);
}

#[test]
fn request_of_every_layer_looks_at_the_layers_of_the_chunk() {
    let result = read_level(
        &test_level(),
        &ExportParams {
            start: BlockCoordinates::new(1, isize::MIN, 5),
            end: BlockCoordinates::new(1, isize::MAX, 6),
            ..Default::default()
        },
    )
    .unwrap();
    assert_eq!(
        result,
        vec![
            BlockCoordinates::new(1, -64, 5),
            BlockCoordinates::new(1, -64, 6),
            BlockCoordinates::new(1, -63, 5),
            BlockCoordinates::new(1, -62, 5),
            BlockCoordinates::new(1, -61, 5),
        ]
    );
}

#[test]
fn voxels_of_a_decoded_chunk() {
    let stone = section(1, &["minecraft:stone"], None);
    let water = section(2, &["minecraft:water"], None);
    let bytes = chunk_bytes(vec![stone, water]);
    let chunk: fastanvil::CurrentJavaChunk = fastnbt::from_bytes(&bytes).unwrap();
    let window = Window {
        x_base: 160,
        z_base: -32,
        x_min: 174,
        x_max: 500,
        z_min: -100,
        z_max: -32,
    };
    let found = collect_chunk_voxels(&chunk, &window, 30, 33, &vec![]).unwrap();
    assert_eq!(
        found,
        vec![
            BlockCoordinates::new(174, 30, -32),
            BlockCoordinates::new(175, 30, -32),
            BlockCoordinates::new(174, 31, -32),
            BlockCoordinates::new(175, 31, -32),
            BlockCoordinates::new(174, 32, -32),
            BlockCoordinates::new(175, 32, -32),
            BlockCoordinates::new(174, 33, -32),
            BlockCoordinates::new(175, 33, -32),
        ]
    );
    let dry = collect_chunk_voxels(&chunk, &window, 30, 33, &vec!["minecraft:water".to_string()]);
    assert_eq!(dry.unwrap().len(), 4);
    let below = collect_chunk_voxels(&chunk, &window, 0, 15, &vec![]);
    assert_eq!(below, Some(vec![]));
    let none = collect_chunk_voxels(&chunk, &window, 40, 30, &vec![]);
    assert_eq!(none, Some(vec![]));
}

#[test]
fn states_of_sections() {
    let stone = section(0, &["minecraft:stone"], None);
    let bare = compound(vec![("Y", Value::Byte(1))]);
    let short = section(2, &["minecraft:air", "minecraft:stone"], Some(vec![0; 3]));
    let full = section(3, &["minecraft:air", "minecraft:stone"], Some(vec![0; 256]));
    let bytes = chunk_bytes(vec![stone, bare, short, full]);
    let chunk: fastanvil::CurrentJavaChunk = fastnbt::from_bytes(&bytes).unwrap();
    assert_eq!(check_section(&chunk, -1), SectionState::Air);
    assert_eq!(check_section(&chunk, 0), SectionState::Readable);
    assert_eq!(check_section(&chunk, 15), SectionState::Readable);
    assert_eq!(check_section(&chunk, 16), SectionState::Air);
    assert_eq!(check_section(&chunk, 40), SectionState::Broken);
    assert_eq!(check_section(&chunk, 50), SectionState::Readable);
    assert_eq!(check_section(&chunk, 64), SectionState::Air);
}

#[test]
fn chunk_outside_the_request_in_a_file_of_negative_index_is_not_decoded() {
    let stone = chunk_bytes(vec![section(0, &["minecraft:stone"], None)]);
    // chunk 1 of file -1 covers x from -528 to -513, chunk 6 from -608 to -593
    let file = region_bytes(vec![(1, 0, vec![1, 2, 3, 4, 5]), (6, 0, stone)]);
    let result = read_level_file(
        "r.-1.0.mca",
        &file,
        &ExportParams {
            start: BlockCoordinates::new(-700, 0, 1),
            end: BlockCoordinates::new(-600, 0, 1),
            ..Default::default()
        },
    );
    let expected: Vec<BlockCoordinates> =
        (-608..=-600).map(|x| BlockCoordinates::new(x, 0, 1)).collect();
    assert_eq!(result, Ok(expected));
}

#[test]
fn bytes_of_a_chunk_are_tame() {
    let stone = section(0, &["minecraft:stone"], None);
    let packed = section(1, &["minecraft:air", "minecraft:stone"], Some(vec![0; 256]));
    assert!(is_tame_payload(&chunk_bytes(vec![stone, packed])));
    assert!(is_tame_payload(&chunk_bytes(vec![])));
}

#[test]
fn chunk_with_a_list_of_ends_in_the_request_is_an_error() {
    let bad = vec![0x0a, 0, 0, 0x09, 0, 1, 0x61, 0, 0, 0, 0, 1];
    let file = region_bytes(vec![(0, 0, bad)]);
    let params = ExportParams {
        start: BlockCoordinates::new(0, 0, 0),
        end: BlockCoordinates::new(3, 0, 3),
        ..Default::default()
    };
    assert_eq!(
        read_level_file("r.0.0.mca", &file, &params),
        Err(ReadError::Chunk)
    );
}

#[test]
fn leaving_kinds_out_filters_the_full_list() {
    let level = test_level();
    let range = |skip: &[&str]| ExportParams {
        start: BlockCoordinates::new(1, -64, 1),
        end: BlockCoordinates::new(2, -63, 2),
        skip_blocks: skip.iter().map(|kind| kind.to_string()).collect(),
    };
    let full = read_level(&level, &range(&[])).unwrap();
    assert_eq!(full.len(), 8);
    let no_stone = read_level(&level, &range(&["minecraft:stone"])).unwrap();
    let no_bedrock = read_level(&level, &range(&["minecraft:bedrock"])).unwrap();
    let neither =
        read_level(&level, &range(&["minecraft:bedrock", "minecraft:stone"])).unwrap();
    let no_water = read_level(&level, &range(&["minecraft:water"])).unwrap();
    let at = |y: isize| -> Vec<BlockCoordinates> {
        full.iter().filter(|b| b.y == y).cloned().collect()
    };
    assert_eq!(no_stone, at(-64));
    assert_eq!(no_bedrock, at(-63));
    assert_eq!(neither, vec![]);
    assert_eq!(no_water, full);
}
