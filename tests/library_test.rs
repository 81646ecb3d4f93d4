use omt::atlas::{simple_format_u32, AtlasEntry, Pixels};
use omt::atlas_set::sort_by_height;
use omt::fitter::{AtlasFitter, EntryWithPosition, Page};
use omt::format::{decode_atlas, encode_atlas, AtlasFormatError, AtlasRecord};
use omt::packer::{CommandPacker, CommandPackerList, CommandPackerPack, CommandPackerUnpack};
use omt::util::CrcHelper;

fn overlap(a: &EntryWithPosition, b: &EntryWithPosition) -> bool {
    a.x < b.x + b.width && b.x < a.x + a.width && a.y < b.y + b.height && b.y < a.y + a.height
}

fn fit(dims: &[(u32, u32)], size: u32) -> Vec<Page> {
    let mut f = AtlasFitter::new();
    for (i, (w, h)) in dims.iter().enumerate() {
        f.add_entry(i, *w, *h);
    }
    f.fit(size, 0)
}

#[test]
fn fitted_rectangles_do_not_overlap_and_stay_in_bounds() {
    let dims = [(40, 40), (30, 35), (30, 30), (64, 20), (10, 20), (100, 10), (5, 5), (17, 9), (60, 60)];
    let pages = fit(&dims, 100);
    for p in &pages {
        for (i, a) in p.entries.iter().enumerate() {
            assert!(a.x + a.width <= 100 && a.y + a.height <= 100);
            for (j, b) in p.entries.iter().enumerate() {
                if i != j {
                    assert!(!overlap(a, b), "{:?} overlaps {:?}", a, b);
                }
            }
        }
    }
}

#[test]
fn every_id_but_the_oversized_comes_back_once() {
    let dims = [(10, 10), (200, 5), (20, 30), (5, 200), (50, 50), (0, 0)];
    let pages = fit(&dims, 100);
    let mut ids: Vec<usize> = pages.iter().flat_map(|p| p.entries.iter().map(|e| e.id)).collect();
    ids.sort();
    assert_eq!(vec![0, 2, 4, 5], ids);
}

#[test]
fn fitting_twice_gives_the_same_placements() {
    let dims = [(40, 40), (30, 35), (30, 30), (64, 20), (10, 20)];
    let a = fit(&dims, 64);
    let b = fit(&dims, 64);
    assert_eq!(a.len(), b.len());
    for (p, q) in a.iter().zip(b.iter()) {
        let pa: Vec<(usize, u32, u32)> = p.entries.iter().map(|e| (e.id, e.x, e.y)).collect();
        let qa: Vec<(usize, u32, u32)> = q.entries.iter().map(|e| (e.id, e.x, e.y)).collect();
        assert_eq!(pa, qa);
    }
}

#[test]
fn a_shelf_twice_as_tall_as_the_entry_is_not_reused() {
    let pages = fit(&[(10, 40), (10, 20), (10, 21)], 100);
    assert_eq!(1, pages.len());
    let pos: Vec<(u32, u32)> = pages[0].entries.iter().map(|e| (e.x, e.y)).collect();
    assert_eq!(vec![(0, 0), (0, 40), (10, 0)], pos);
}

#[test]
fn a_full_page_opens_a_new_one() {
    let pages = fit(&[(64, 64), (64, 64)], 64);
    assert_eq!(2, pages.len());
    assert_eq!(0, pages[1].entries[0].x);
    assert_eq!(1, pages[1].entries[0].id);
}

#[test]
fn set_position_moves_a_placement() {
    let mut e = EntryWithPosition { id: 3, width: 4, height: 5, x: 0, y: 0 };
    e.set_position(7, 9);
    assert_eq!((3, 4, 5, 7, 9), (e.id, e.width, e.height, e.x, e.y));
}

#[test]
fn a_new_page_is_empty() {
    let p = Page::new(32, 2);
    assert_eq!(32, p.size());
    assert!(p.entries.is_empty());
}

#[test]
fn sorting_by_height_is_stable_and_descending() {
    assert_eq!(vec![1, 2, 3, 0], sort_by_height(&vec![1, 3, 3, 2]));
    assert_eq!(Vec::<usize>::new(), sort_by_height(&vec![]));
}

fn record(name: &str, fill: u8) -> AtlasRecord {
    AtlasRecord { name: name.as_bytes().to_vec(), matrix: vec![fill; 24] }
}

#[test]
fn directory_round_trip() {
    let recs = vec![record("a.png", 1), record("bb.png", 2), record(&"x".repeat(128), 3)];
    let bytes = encode_atlas(&recs).unwrap();
    assert_eq!(&bytes[0..18], &[0x53, 0x4f, 1, 0, b'O', b'M', b'A', b'T', b'L', b'A', b'S', b'S', 1, 0, 0, 0, 3, 0]);
    let back = decode_atlas(&bytes).unwrap();
    assert_eq!(3, back.len());
    for (a, b) in recs.iter().zip(back.iter()) {
        assert_eq!(a.name, b.name);
        assert_eq!(a.matrix, b.matrix);
    }
}

#[test]
fn empty_directory_round_trip() {
    let bytes = encode_atlas(&vec![]).unwrap();
    assert_eq!(18, bytes.len());
    assert_eq!(0, decode_atlas(&bytes).unwrap().len());
}

#[test]
fn encoding_errors() {
    assert_eq!(Some(AtlasFormatError::NameTooLong), encode_atlas(&vec![record(&"x".repeat(129), 0)]).err());
    let bad_matrix = AtlasRecord { name: b"a".to_vec(), matrix: vec![0; 23] };
    assert_eq!(Some(AtlasFormatError::BadMatrix), encode_atlas(&vec![bad_matrix]).err());
    let many: Vec<AtlasRecord> = (0..65536).map(|_| AtlasRecord { name: vec![], matrix: vec![] }).collect();
    assert_eq!(Some(AtlasFormatError::TooManyEntries), encode_atlas(&many).err());
}

#[test]
fn decoding_errors() {
    let good = encode_atlas(&vec![record("a.png", 1)]).unwrap();
    assert_eq!(Some(AtlasFormatError::Truncated), decode_atlas(&good[0..10].to_vec()).err());
    assert_eq!(Some(AtlasFormatError::Truncated), decode_atlas(&good[0..100].to_vec()).err());
    let mut b = good.clone();
    b[0] = 0;
    assert_eq!(Some(AtlasFormatError::BadMagic), decode_atlas(&b).err());
    let mut b = good.clone();
    b[2] = 2;
    assert_eq!(Some(AtlasFormatError::BadVersion), decode_atlas(&b).err());
    let mut b = good.clone();
    b[6] = b'X';
    assert_eq!(Some(AtlasFormatError::BadChunkTag), decode_atlas(&b).err());
    let mut b = good.clone();
    b[11] = b'Z';
    assert_eq!(Some(AtlasFormatError::UnsupportedStorage), decode_atlas(&b).err());
    let mut b = good.clone();
    b[13] = 1;
    assert_eq!(Some(AtlasFormatError::BadChunkVersion), decode_atlas(&b).err());
}

#[test]
fn missing_file_name_is_reported() {
    let mut a = omt::atlas::Atlas::new(16, 0);
    a.add_entry(AtlasEntry::new("/", 1, 1));
    assert_eq!(Some(AtlasFormatError::NoFileName), a.directory_bytes(&vec![vec![0; 24]]).err());
    assert!(a.map_bytes().is_none());
}

#[test]
fn template_placeholder_is_replaced() {
    assert_eq!("out-3", simple_format_u32("out-%d", 3));
    assert_eq!("a12b12", simple_format_u32("a%db%d", 12));
    assert_eq!("plain", simple_format_u32("plain", 7));
    assert_eq!("%0", simple_format_u32("%%d", 0));
}

#[test]
fn base_name_and_stem() {
    let e = AtlasEntry::new("Data/64x64_red.png", 64, 64);
    assert_eq!(Some("64x64_red.png".to_string()), e.get_basename());
    assert_eq!(Some("64x64_red".to_string()), e.get_stem());
}

#[test]
fn blit_copies_without_blending() {
    let mut dest = Pixels::new(3, 2);
    let src = Pixels { width: 1, height: 1, rows: vec![vec![9, 8, 7, 6]] };
    dest.blit(&src, 2, 1);
    assert_eq!(vec![0u8; 12], dest.rows[0]);
    assert_eq!(vec![0, 0, 0, 0, 0, 0, 0, 0, 9, 8, 7, 6], dest.rows[1]);
}

#[test]
fn clean_name_upcases_and_replaces() {
    assert_eq!("SOUND_FX_01.WAV", CrcHelper::clean_name_from_name_upcase_underscore("sound-fx_01.wav"));
    assert_eq!("A_B", CrcHelper::clean_name_from_name_upcase_underscore("a b"));
    assert_eq!("_", CrcHelper::clean_name_from_name_upcase_underscore("\u{e9}"));
}

#[test]
fn packer_commands_keep_their_settings() {
    let mut l = CommandPackerList::new();
    l.set_input("in.omar");
    l.set_output("ignored");
    assert_eq!(Some("in.omar".to_string()), l.input);
    let mut p = CommandPackerPack::new();
    p.set_paklist("list.txt");
    p.set_names_only(true);
    assert_eq!(Some("list.txt".to_string()), p.paklist);
    assert!(p.names_only);
    let mut u = CommandPackerUnpack::new();
    u.set_targetpath("out");
    assert_eq!(Some("out".to_string()), u.targetpath);
    assert!(!u.names_only);
}

#[test]
fn rejected_lists_the_oversized_ids() {
    let mut f = AtlasFitter::new();
    f.add_entry(7, 10, 10);
    f.add_entry(8, 300, 1);
    f.add_entry(9, 1, 129);
    f.add_entry(10, 128, 128);
    assert_eq!(vec![8, 9], f.rejected(128));
    let placed: usize = f.fit(128, 0).iter().map(|p| p.entries.len()).sum();
    assert_eq!(2, placed);
}
