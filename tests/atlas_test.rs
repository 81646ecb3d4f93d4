use omt::atlas::{AtlasEntry, Pixels};
use omt::atlas_set::AtlasSet;

fn solid(name: &str, width: u32, height: u32, rgba: [u8; 4]) -> AtlasEntry {
    let mut row = Vec::new();
    for _ in 0..width {
        row.extend_from_slice(&rgba);
    }
    let rows = vec![row; height as usize];
    let mut e = AtlasEntry::new(name, 0, 0);
    e.set_image(Pixels { width, height, rows });
    e
}

fn three_squares() -> Vec<AtlasEntry> {
    vec![
        solid("Data/64x64_red.png", 64, 64, [255, 0, 0, 255]),
        solid("Data/64x64_green.png", 64, 64, [0, 255, 0, 255]),
        solid("Data/64x64_blue.png", 64, 64, [0, 0, 255, 255]),
    ]
}

#[test]
fn v2_simple_combine_works() {
    let mut atlas_set = AtlasSet::default()
        .with_output("v2-simple-%d")
        .with_target_size(128)
        .with_border(0)
        .with_reference_path("omt-test/atlas")
        .with_inputs(three_squares());
    let l = atlas_set.refit();
    assert_eq!(1, l);

    atlas_set.blit_all();
    let r = atlas_set.atlases.len();
    assert_eq!(1, r);
}

#[test]
fn v2_simple_combine_with_autosize_works() {
    let mut atlas_set = AtlasSet::default().with_border(0).with_maximum_size(64).with_inputs(three_squares());
    atlas_set.autosize();
    let l = atlas_set.refit();
    assert_eq!(3, l);
    assert_eq!(&Some(64), atlas_set.target_size());

    atlas_set.blit_all();
    let r = atlas_set.atlases.len();
    assert_eq!(3, r);
}

#[test]
fn v2_simple_combine_with_autosize_without_maximum_works() {
    let mut atlas_set = AtlasSet::default().with_border(0).with_inputs(three_squares());
    atlas_set.autosize();
    let l = atlas_set.refit();
    assert_eq!(1, l);
    assert_eq!(&Some(128), atlas_set.target_size());

    atlas_set.blit_all();
    let r = atlas_set.atlases.len();
    assert_eq!(1, r);
}

#[test]
fn v2_simple_combine_with_autosize_without_maximum_border_7_works() {
    let mut atlas_set = AtlasSet::default().with_border(7).with_inputs(three_squares());
    atlas_set.autosize();
    let l = atlas_set.refit();
    assert_eq!(1, l);
    assert_eq!(&Some(256), atlas_set.target_size());

    atlas_set.blit_all();
    let r = atlas_set.atlases.len();
    assert_eq!(1, r);
}

#[test]
fn three_squares_share_one_page_and_map_lines_are_64_wide() {
    let mut atlas_set = AtlasSet::default().with_target_size(128).with_border(0).with_inputs(three_squares());
    assert_eq!(1, atlas_set.refit());
    let atlas = &atlas_set.atlases[0];
    assert_eq!(3, atlas.entries.len());
    let map = String::from_utf8(atlas.map_bytes().unwrap()).unwrap();
    assert_eq!(
        map,
        "64x64_red.png:0,0-64,64\n64x64_green.png:64,0-128,64\n64x64_blue.png:0,64-64,128\n"
    );
    for line in map.lines() {
        let (_, coords) = line.split_once(':').unwrap();
        let (a, b) = coords.split_once('-').unwrap();
        let (x, y) = a.split_once(',').unwrap();
        let (x2, y2) = b.split_once(',').unwrap();
        let x: u32 = x.parse().unwrap();
        let y: u32 = y.parse().unwrap();
        let x2: u32 = x2.parse().unwrap();
        let y2: u32 = y2.parse().unwrap();
        assert_eq!(64, x2 - x);
        assert_eq!(64, y2 - y);
    }
}

#[test]
fn autosize_capped_at_maximum_gives_one_entry_per_page() {
    let mut atlas_set = AtlasSet::default().with_border(0).with_maximum_size(64).with_inputs(three_squares());
    assert_eq!(3, atlas_set.autosize());
    assert_eq!(&Some(64), atlas_set.target_size());
    for a in &atlas_set.atlases {
        assert_eq!(1, a.entries.len());
    }
}

#[test]
fn autosize_settles_on_a_maximum_that_is_not_a_power_of_two() {
    let mut atlas_set = AtlasSet::default().with_border(0).with_maximum_size(100).with_inputs(three_squares());
    let n = atlas_set.autosize();
    assert_eq!(&Some(100), atlas_set.target_size());
    assert_eq!(3, n);
}

#[test]
fn oversized_input_is_dropped() {
    let mut atlas_set = AtlasSet::default()
        .with_target_size(128)
        .with_border(0)
        .with_inputs(vec![solid("big.png", 300, 300, [1, 2, 3, 4])]);
    assert_eq!(0, atlas_set.refit());
    for a in &atlas_set.atlases {
        assert!(a.entries.iter().all(|e| e.filename != "big.png"));
    }
}

#[test]
fn oversized_input_is_dropped_beside_one_that_fits() {
    let mut atlas_set = AtlasSet::default().with_target_size(128).with_border(0).with_inputs(vec![
        solid("big.png", 300, 300, [1, 2, 3, 4]),
        solid("small.png", 10, 10, [1, 2, 3, 4]),
    ]);
    assert_eq!(1, atlas_set.refit());
    let names: Vec<&str> = atlas_set.atlases[0].entries.iter().map(|e| e.filename.as_str()).collect();
    assert_eq!(vec!["small.png"], names);
}

#[test]
fn border_moves_entries_inside_their_cells() {
    let mut atlas_set = AtlasSet::default().with_target_size(256).with_border(7).with_inputs(three_squares());
    assert_eq!(1, atlas_set.refit());
    let pos: Vec<(u32, u32)> = atlas_set.atlases[0].entries.iter().map(|e| (e.x, e.y)).collect();
    assert_eq!(vec![(7, 7), (85, 7), (163, 7)], pos);
}

#[test]
fn taller_inputs_are_placed_first() {
    let mut atlas_set = AtlasSet::default().with_target_size(128).with_border(0).with_inputs(vec![
        solid("low.png", 10, 10, [0, 0, 0, 255]),
        solid("tall.png", 10, 40, [0, 0, 0, 255]),
    ]);
    assert_eq!(1, atlas_set.refit());
    let names: Vec<&str> = atlas_set.atlases[0].entries.iter().map(|e| e.filename.as_str()).collect();
    assert_eq!(vec!["tall.png", "low.png"], names);
}

#[test]
fn compositing_copies_pixels_to_their_positions() {
    let mut atlas_set = AtlasSet::default().with_target_size(128).with_border(0).with_inputs(three_squares());
    atlas_set.refit();
    atlas_set.blit_all();
    let canvas = atlas_set.atlases[0].image().as_ref().unwrap();
    assert_eq!(128, canvas.width);
    assert_eq!(128, canvas.rows.len());
    assert_eq!(&canvas.rows[0][0..4], &[255, 0, 0, 255]);
    assert_eq!(&canvas.rows[10][(70 * 4)..(70 * 4 + 4)], &[0, 255, 0, 255]);
    assert_eq!(&canvas.rows[100][(10 * 4)..(10 * 4 + 4)], &[0, 0, 255, 255]);
    assert_eq!(&canvas.rows[100][(100 * 4)..(100 * 4 + 4)], &[0, 0, 0, 0]);
}

#[test]
fn directory_bytes_round_trip_through_decoder() {
    let mut atlas_set = AtlasSet::default().with_target_size(128).with_border(0).with_inputs(three_squares());
    atlas_set.refit();
    let atlas = &atlas_set.atlases[0];
    let matrices: Vec<Vec<u8>> = (0..3u8).map(|i| vec![i; 24]).collect();
    let bytes = atlas.directory_bytes(&matrices).unwrap();
    assert_eq!(18 + 3 * 152, bytes.len());
    let records = omt::format::decode_atlas(&bytes).unwrap();
    let names: Vec<String> = records.iter().map(|r| String::from_utf8(r.name.clone()).unwrap()).collect();
    assert_eq!(vec!["64x64_red.png", "64x64_green.png", "64x64_blue.png"], names);
    assert_eq!(vec![2u8; 24], records[2].matrix);
}
