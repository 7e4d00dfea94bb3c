use mca_collisions::chunk::{is_solid_block, section_number, Window};
use mca_collisions::file_name::get_file_coordinates;
use mca_collisions::read::{
    check_file_index, chunk_coordinate_bounds, chunk_overlaps, collect_voxels, find_missing_file,
    get_chunk_base, get_chunk_coordinate_ranges, get_chunk_ranges, get_file_index,
    get_needed_filenames, is_listed, is_needed_file, ListedFile,
};
use mca_collisions::region::has_empty_chunk_record;
use mca_collisions::{BlockCoordinates, ExportParams};

#[test]
fn get_chunk_ranges_1() {
    assert_eq!(get_chunk_coordinate_ranges(-1, -10, -2), -10..=-2);
    assert_eq!(get_chunk_coordinate_ranges(0, 0, 50), 0..=50);
    assert_eq!(get_chunk_coordinate_ranges(0, -10, 1000), 0..=512);
    assert_eq!(get_chunk_coordinate_ranges(1, -10, 1000), 512..=1000);
}

#[test]
fn get_needed_filenames_1() {
    let result = get_needed_filenames(&ExportParams {
        start: BlockCoordinates::new(-1, 0, -1),
        end: BlockCoordinates::new(1, 0, 1),
        ..Default::default()
    });

    assert_eq!(
        result,
        vec![
            String::from("r.-1.-1.mca"),
            String::from("r.-1.0.mca"),
            String::from("r.0.-1.mca"),
            String::from("r.0.0.mca")
        ]
    );
}

#[test]
fn get_needed_filenames_0_0() {
    let result = get_needed_filenames(&ExportParams {
        start: BlockCoordinates::new(1, 0, 1),
        end: BlockCoordinates::new(2, 0, 2),
        ..Default::default()
    });

    assert_eq!(result, vec![String::from("r.0.0.mca")]);
}

#[test]
fn get_needed_filenames_1_0() {
    let result = get_needed_filenames(&ExportParams {
        start: BlockCoordinates::new(513, 1, 1),
        end: BlockCoordinates::new(523, 1, 2),
        ..Default::default()
    });

    assert_eq!(result, vec![String::from("r.1.0.mca")]);
}

#[test]
fn get_needed_filenames_0_1() {
    let result = get_needed_filenames(&ExportParams {
        start: BlockCoordinates::new(1, 1, 513),
        end: BlockCoordinates::new(2, 1, 523),
        ..Default::default()
    });

    assert_eq!(result, vec![String::from("r.0.1.mca")]);
}

#[test]
fn get_needed_filenames_1_1() {
    let result = get_needed_filenames(&ExportParams {
        start: BlockCoordinates::new(513, 1, 513),
        end: BlockCoordinates::new(513, 1, 523),
        ..Default::default()
    });

    assert_eq!(result, vec![String::from("r.1.1.mca")]);
}

#[test]
fn get_needed_filenames_minus_2_2() {
    let result = get_needed_filenames(&ExportParams {
        start: BlockCoordinates::new(-513, 1, -513),
        end: BlockCoordinates::new(-513, 1, -523),
        ..Default::default()
    });

    assert_eq!(result, vec![String::from("r.-2.-2.mca")]);
}

#[test]
fn file_index_rounds_down() {
    assert_eq!(get_file_index(0), 0);
    assert_eq!(get_file_index(511), 0);
    assert_eq!(get_file_index(512), 1);
    assert_eq!(get_file_index(513), 1);
    assert_eq!(get_file_index(-1), -1);
    assert_eq!(get_file_index(-512), -1);
    assert_eq!(get_file_index(-513), -2);
    assert_eq!(get_file_index(isize::MAX), isize::MAX / 512);
    assert_eq!(get_file_index(isize::MIN), isize::MIN / 512);
}

#[test]
fn needed_filenames_of_a_rectangle() {
    let result = get_needed_filenames(&ExportParams {
        start: BlockCoordinates::new(-1, 0, 0),
        end: BlockCoordinates::new(600, 0, 1100),
        ..Default::default()
    });
    assert_eq!(
        result,
        vec![
            "r.-1.0.mca", "r.-1.1.mca", "r.-1.2.mca", "r.0.0.mca", "r.0.1.mca", "r.0.2.mca",
            "r.1.0.mca", "r.1.1.mca", "r.1.2.mca"
        ]
    );
}

#[test]
fn needed_filenames_fall_back_to_the_start() {
    let result = get_needed_filenames(&ExportParams {
        start: BlockCoordinates::new(1000, 0, -20),
        end: BlockCoordinates::new(0, 0, 2000),
        ..Default::default()
    });
    assert_eq!(result, vec!["r.1.-1.mca"]);
}

#[test]
fn needed_filenames_far_out() {
    let result = get_needed_filenames(&ExportParams {
        start: BlockCoordinates::new(isize::MIN, 0, isize::MAX),
        end: BlockCoordinates::new(isize::MIN, 0, isize::MAX),
        ..Default::default()
    });
    assert_eq!(
        result,
        vec![format!("r.{}.{}.mca", isize::MIN / 512, isize::MAX / 512)]
    );
}

#[test]
fn chunk_ranges_of_both_axes() {
    let params = ExportParams {
        start: BlockCoordinates::new(-10, 0, 5),
        end: BlockCoordinates::new(1000, 0, 20),
        ..Default::default()
    };
    assert_eq!(get_chunk_ranges(1, 0, &params), (512..=1000, 5..=20));
    assert_eq!(get_chunk_ranges(0, -1, &params), (0..=512, 5..=0));
    assert_eq!(get_chunk_ranges(-1, -2, &params), (-10..=0, 5..=-512));
    let below = ExportParams {
        start: BlockCoordinates::new(-700, 0, -2000),
        end: BlockCoordinates::new(-600, 0, -1030),
        ..Default::default()
    };
    assert_eq!(get_chunk_ranges(-1, -2, &below), (-700..=-600, -1536..=-1030));
}

#[test]
fn chunk_bounds_and_bases() {
    assert_eq!(chunk_coordinate_bounds(2, 0, 5000), (1024, 1536));
    assert_eq!(chunk_coordinate_bounds(-2, -5000, -5000), (-1536, -5000));
    assert_eq!(chunk_coordinate_bounds(-2, -5000, 5000), (-1536, -512));
    assert_eq!(chunk_coordinate_bounds(-1, -700, -600), (-700, -600));
    assert_eq!(get_chunk_base(0, 0), 0);
    assert_eq!(get_chunk_base(0, 31), 496);
    assert_eq!(get_chunk_base(3, 2), 1568);
    assert_eq!(get_chunk_base(-1, 0), -512);
    assert_eq!(get_chunk_base(-1, 31), -1008);
    assert!(check_file_index(0));
    assert!(check_file_index(isize::MAX / 512 - 1));
    assert!(!check_file_index(isize::MAX / 512));
    assert!(check_file_index(isize::MIN / 512 + 1));
    assert!(!check_file_index(isize::MIN / 512));
}

#[test]
fn chunk_overlap_leaves_out_both_ends() {
    let window = |x_min, x_max| Window {
        x_base: 16,
        z_base: 0,
        x_min,
        x_max,
        z_min: 0,
        z_max: 5,
    };
    assert!(chunk_overlaps(&window(0, 17)));
    assert!(chunk_overlaps(&window(31, 40)));
    assert!(!chunk_overlaps(&window(0, 16)));
    assert!(!chunk_overlaps(&window(32, 40)));
    let flat = Window {
        x_base: 16,
        z_base: 0,
        x_min: 17,
        x_max: 18,
        z_min: 0,
        z_max: 0,
    };
    assert!(!chunk_overlaps(&flat));
}

#[test]
fn solid_is_neither_air_nor_left_out() {
    let skip = vec!["minecraft:water".to_string(), "minecraft:lava".to_string()];
    assert!(is_solid_block(&"minecraft:stone".to_string(), &skip));
    assert!(!is_solid_block(&"minecraft:air".to_string(), &skip));
    assert!(!is_solid_block(&"minecraft:lava".to_string(), &skip));
    assert!(is_solid_block(&"minecraft:cave_air".to_string(), &vec![]));
}

#[test]
fn section_numbers_round_down() {
    assert_eq!(section_number(0), 0);
    assert_eq!(section_number(15), 0);
    assert_eq!(section_number(16), 1);
    assert_eq!(section_number(-1), -1);
    assert_eq!(section_number(-16), -1);
    assert_eq!(section_number(-17), -2);
    assert_eq!(section_number(-64), -4);
}

#[test]
fn needed_files_are_named_and_not_empty() {
    let needed = vec!["r.0.0.mca".to_string(), "r.0.1.mca".to_string()];
    assert!(is_needed_file(&needed, "r.0.1.mca", 8192));
    assert!(!is_needed_file(&needed, "r.0.1.mca", 0));
    assert!(!is_needed_file(&needed, "r.1.1.mca", 8192));
    assert!(!is_needed_file(&vec![], "r.0.0.mca", 1));
}

#[test]
fn file_coordinates_from_names() {
    assert_eq!(get_file_coordinates("r.0.0.mca"), Some((0, 0)));
    assert_eq!(get_file_coordinates("r.-2.17.mca"), Some((-2, 17)));
    assert_eq!(get_file_coordinates("r.+3.-0.mca"), Some((3, 0)));
    assert_eq!(get_file_coordinates("r.007.8.mca"), Some((7, 8)));
    assert_eq!(get_file_coordinates("r.1.2.3.mca"), Some((1, 2)));
    assert_eq!(get_file_coordinates("r.1.2.dat"), Some((1, 2)));
    assert_eq!(get_file_coordinates("xx1.2yyyy"), None);
    assert_eq!(get_file_coordinates("xx1.2.abcd"), None);
    assert_eq!(get_file_coordinates("r.1.2mca4"), None);
    assert_eq!(get_file_coordinates("s.1.2.mca"), None);
    assert_eq!(get_file_coordinates("r-1.2.mca"), None);
    assert_eq!(get_file_coordinates("r.1.mca"), None);
    assert_eq!(get_file_coordinates("r..1.mca"), None);
    assert_eq!(get_file_coordinates("r.1..mca"), None);
    assert_eq!(get_file_coordinates("r.-.1.mca"), None);
    assert_eq!(get_file_coordinates("r.1x.1.mca"), None);
    assert_eq!(get_file_coordinates("r.mca"), None);
    assert_eq!(get_file_coordinates(""), None);
    let name = format!("r.{}.{}.mca", isize::MIN, isize::MAX);
    assert_eq!(get_file_coordinates(&name), Some((isize::MIN, isize::MAX)));
    assert_eq!(get_file_coordinates("r.99999999999999999999.0.mca"), None);
    assert_eq!(get_file_coordinates("r.0.-99999999999999999999.mca"), None);
}

#[test]
fn names_and_coordinates_agree() {
    let params = ExportParams {
        start: BlockCoordinates::new(-1500, 0, 3),
        end: BlockCoordinates::new(-1000, 0, 600),
        ..Default::default()
    };
    let places: Vec<_> = get_needed_filenames(&params)
        .iter()
        .map(|name| get_file_coordinates(name))
        .collect();
    assert_eq!(
        places,
        vec![Some((-3, 0)), Some((-3, 1)), Some((-2, 0)), Some((-2, 1))]
    );
}

#[test]
fn voxels_of_several_files_in_one_list() {
    let a = vec![BlockCoordinates::new(1, 2, 3)];
    let b = vec![];
    let c = vec![BlockCoordinates::new(4, 5, 6), BlockCoordinates::new(7, 8, 9)];
    assert_eq!(
        collect_voxels(vec![a, b, c]),
        vec![
            BlockCoordinates::new(1, 2, 3),
            BlockCoordinates::new(4, 5, 6),
            BlockCoordinates::new(7, 8, 9)
        ]
    );
    assert_eq!(collect_voxels(vec![]), vec![]);
}

#[test]
fn record_heads_of_length_zero() {
    let mut file = vec![0u8; 3 * 4096];
    assert!(!has_empty_chunk_record(&file, 0, 0));
    file[4 * (3 + 32 * 1) + 2] = 2;
    file[4 * (3 + 32 * 1) + 3] = 1;
    assert!(has_empty_chunk_record(&file, 3, 1));
    assert!(!has_empty_chunk_record(&file, 1, 3));
    file[2 * 4096 + 3] = 9;
    assert!(!has_empty_chunk_record(&file, 3, 1));
    assert!(!has_empty_chunk_record(&vec![0u8; 10], 0, 0));
}

#[test]
fn default_request() {
    let params = ExportParams::default();
    assert_eq!(params.start, BlockCoordinates::new(0, 0, 0));
    assert_eq!(params.end, BlockCoordinates::new(0, 0, 0));
    assert!(params.skip_blocks.is_empty());
    assert_eq!(get_needed_filenames(&params), vec!["r.0.0.mca"]);
}

#[test]
fn ranges_stay_inside_the_request() {
    for file in [-3, -2, -1, 0, 1, 2] {
        for (start, end) in [(-5000, 5000), (-700, -600), (-1030, -1020), (3, 9), (-1, 1)] {
            let range = get_chunk_coordinate_ranges(file, start, end);
            assert!(*range.start() >= start);
            assert!(*range.end() <= end);
        }
    }
}

#[test]
fn first_missing_file() {
    let listed = vec![
        ListedFile { name: "r.0.0.mca".to_string(), size: 8192 },
        ListedFile { name: "r.0.1.mca".to_string(), size: 0 },
        ListedFile { name: "r.1.1.mca".to_string(), size: 4096 },
    ];
    let names = |list: &[&str]| -> Vec<String> { list.iter().map(|n| n.to_string()).collect() };
    assert!(is_listed(&listed, &"r.0.0.mca".to_string()));
    assert!(!is_listed(&listed, &"r.0.1.mca".to_string()));
    assert!(!is_listed(&listed, &"r.5.5.mca".to_string()));
    assert_eq!(find_missing_file(&names(&["r.0.0.mca", "r.1.1.mca"]), &listed), None);
    assert_eq!(find_missing_file(&names(&[]), &listed), None);
    assert_eq!(
        find_missing_file(&names(&["r.0.0.mca", "r.0.1.mca", "r.9.9.mca"]), &listed),
        Some(1)
    );
    assert_eq!(find_missing_file(&names(&["r.9.9.mca"]), &vec![]), Some(0));
}
