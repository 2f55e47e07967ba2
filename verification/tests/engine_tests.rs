use mmt::dest::DestIndex;
use mmt::engine::{process_one, run, EngineError, SourceFile};
use mmt::store::StateStore;

fn bytes(s: &str) -> Vec<u8> {
    s.as_bytes().to_vec()
}

fn src(p: &str, content: Vec<u8>) -> SourceFile {
    SourceFile { rel_path: bytes(p), bytes: content }
}

/// A minimal little-endian TIFF whose Exif sub-directory carries one
/// DateTimeOriginal field with the given `YYYY:MM:DD HH:MM:SS` text.
fn tiff_with_datetime(ts: &str) -> Vec<u8> {
    assert_eq!(ts.len(), 19);
    let mut b: Vec<u8> = Vec::new();
    b.extend_from_slice(&[0x49, 0x49, 42, 0]);
    b.extend_from_slice(&8u32.to_le_bytes());
    // primary image directory: one entry pointing at the Exif directory
    b.extend_from_slice(&1u16.to_le_bytes());
    b.extend_from_slice(&0x8769u16.to_le_bytes());
    b.extend_from_slice(&4u16.to_le_bytes());
    b.extend_from_slice(&1u32.to_le_bytes());
    b.extend_from_slice(&26u32.to_le_bytes());
    b.extend_from_slice(&0u32.to_le_bytes());
    // Exif directory: one ASCII DateTimeOriginal entry
    b.extend_from_slice(&1u16.to_le_bytes());
    b.extend_from_slice(&0x9003u16.to_le_bytes());
    b.extend_from_slice(&2u16.to_le_bytes());
    b.extend_from_slice(&20u32.to_le_bytes());
    b.extend_from_slice(&44u32.to_le_bytes());
    b.extend_from_slice(&0u32.to_le_bytes());
    b.extend_from_slice(ts.as_bytes());
    b.push(0);
    b
}

#[test]
fn test_fallback_dir_for_unreadable_metadata() {
    let mut store = StateStore::new();
    let mut dest = DestIndex::new();
    let tree = vec![src("x.cr2", bytes("not an image at all"))];
    let actions = run(&mut store, &mut dest, &tree, &bytes(".cr2"), 1).unwrap();
    assert_eq!(actions.len(), 1);
    assert_eq!(actions[0].src_rel, bytes("x.cr2"));
    assert_eq!(actions[0].dest_rel, bytes("2000/200001/x.cr2"));
}

#[test]
fn test_capture_date_places_file() {
    let mut store = StateStore::new();
    let mut dest = DestIndex::new();
    let tree = vec![src("d/a.cr2", tiff_with_datetime("2022:02:05 10:00:00"))];
    let actions = run(&mut store, &mut dest, &tree, &bytes(".cr2"), 1).unwrap();
    assert_eq!(actions.len(), 1);
    assert_eq!(actions[0].dest_rel, bytes("2022/202202/a.cr2"));
}

#[test]
fn test_digest_recorded_for_copy() {
    let mut store = StateStore::new();
    let mut dest = DestIndex::new();
    let tree = vec![src("a.cr2", bytes("abc"))];
    let actions = run(&mut store, &mut dest, &tree, &bytes(".cr2"), 1).unwrap();
    assert_eq!(actions.len(), 1);
    assert_eq!(dest.entries.len(), 1);
    assert_eq!(dest.entries[0].size, 3);
    assert_eq!(dest.entries[0].digest, bytes("900150983CD24FB0D6963F7D28E17F72"));
}

#[test]
fn test_idempotence() {
    let mut store = StateStore::new();
    let mut dest = DestIndex::new();
    let tree = vec![
        src("d1/a.cr2", bytes("first content")),
        src("d2/b.cr2", bytes("second content")),
    ];
    let first = run(&mut store, &mut dest, &tree, &bytes(".cr2"), 1).unwrap();
    assert_eq!(first.len(), 2);
    let files_before: Vec<(Vec<u8>, bool, i64)> = store
        .files
        .iter()
        .map(|f| (f.rel_path.clone(), f.copied, f.copied_at))
        .collect();
    let entries_before = dest.entries.len();
    let second = run(&mut store, &mut dest, &tree, &bytes(".cr2"), 2).unwrap();
    assert!(second.is_empty());
    assert_eq!(dest.entries.len(), entries_before);
    assert_eq!(store.files.len(), files_before.len());
    for (i, f) in store.files.iter().enumerate() {
        assert_eq!(f.rel_path, files_before[i].0);
        assert_eq!(f.copied, files_before[i].1);
        assert_eq!(f.copied_at, files_before[i].2);
    }
}

#[test]
fn test_resumability() {
    let mut store = StateStore::new();
    let mut dest = DestIndex::new();
    let tree = vec![
        src("d1/a.cr2", bytes("first content")),
        src("d2/b.cr2", bytes("second content")),
    ];
    // a run that got as far as the first file before stopping
    let scanned = vec![bytes("d1/a.cr2"), bytes("d2/b.cr2")];
    store.reconcile_scan(&scanned, &bytes(".cr2"));
    let act = process_one(&mut store, &mut dest, &tree[0].rel_path, &tree[0].bytes, 1);
    assert!(act.is_some());
    // the next run completes the rest without touching the first
    let actions = run(&mut store, &mut dest, &tree, &bytes(".cr2"), 2).unwrap();
    assert_eq!(actions.len(), 1);
    assert_eq!(actions[0].src_rel, bytes("d2/b.cr2"));
    assert!(store.pending_list().is_empty());
}

#[test]
fn test_dedup_identical_content() {
    let mut store = StateStore::new();
    let mut dest = DestIndex::new();
    let tree = vec![
        src("d1/a.cr2", bytes("identical bytes")),
        src("d2/a.cr2", bytes("identical bytes")),
    ];
    let actions = run(&mut store, &mut dest, &tree, &bytes(".cr2"), 1).unwrap();
    assert_eq!(actions.len(), 1);
    assert_eq!(dest.entries.len(), 1);
    assert_eq!(dest.entries[0].rel_path, bytes("2000/200001/a.cr2"));
    // both sources end up marked, though only one was written
    assert!(store.pending_list().is_empty());
    assert!(store.files.iter().all(|f| f.copied));
}

#[test]
fn test_collision_gets_numbered_name() {
    let mut store = StateStore::new();
    let mut dest = DestIndex::new();
    let tree = vec![
        src("d1/a.cr2", bytes("content one!")),
        src("d2/a.cr2", bytes("content two!")),
    ];
    let actions = run(&mut store, &mut dest, &tree, &bytes(".cr2"), 1).unwrap();
    assert_eq!(actions.len(), 2);
    assert_eq!(actions[0].dest_rel, bytes("2000/200001/a.cr2"));
    assert_eq!(actions[1].dest_rel, bytes("2000/200001/a_1.cr2"));
    assert_eq!(dest.entries.len(), 2);
}

#[test]
fn test_scenario_first_discovered_wins() {
    let image = tiff_with_datetime("2022:02:05 10:00:00");
    let mut store = StateStore::new();
    let mut dest = DestIndex::new();
    let tree = vec![src("d1/a.cr2", image.clone()), src("d2/a.cr2", image)];
    let actions = run(&mut store, &mut dest, &tree, &bytes(".cr2"), 1).unwrap();
    assert_eq!(actions.len(), 1);
    assert_eq!(actions[0].src_rel, bytes("d1/a.cr2"));
    assert_eq!(actions[0].dest_rel, bytes("2022/202202/a.cr2"));
    assert_eq!(dest.entries.len(), 1);
    assert!(store.files.iter().all(|f| f.copied));
}

#[test]
fn test_missing_source_aborts() {
    let mut store = StateStore::new();
    store.load_entry(bytes("gone.cr2"), false, 0);
    let mut dest = DestIndex::new();
    let tree: Vec<SourceFile> = Vec::new();
    let r = run(&mut store, &mut dest, &tree, &bytes(".cr2"), 1);
    match r {
        Err(EngineError::SourceMissing { rel_path }) => {
            assert_eq!(rel_path, bytes("gone.cr2"));
        },
        Ok(_) => panic!("a pending file without a source must abort the run"),
    }
}

#[test]
fn test_duplicate_against_existing_destination() {
    // a destination written by an earlier, interrupted run: the copy
    // happened but the mark did not
    let mut store = StateStore::new();
    store.load_entry(bytes("d1/a.cr2"), false, 0);
    store.reconcile_scan(&vec![bytes("d1/a.cr2")], &bytes(".cr2"));
    let mut dest = DestIndex::new();
    dest.record_entry(
        bytes("2000/200001/a.cr2"),
        15,
        bytes("46AB730BD932E0FFC9481689AC02F65C"),
    );
    let tree = vec![src("d1/a.cr2", bytes("identical bytes"))];
    let actions = run(&mut store, &mut dest, &tree, &bytes(".cr2"), 1).unwrap();
    // recognized as already present: marked, nothing written again
    assert!(actions.is_empty());
    assert_eq!(dest.entries.len(), 1);
    assert!(store.files.iter().all(|f| f.copied));
}
