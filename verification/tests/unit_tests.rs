use mmt::capture::{parse_capture, sentinel, stamp_dir, CaptureStamp};
use mmt::compare::files_equal;
use mmt::paths::{base_name, candidate_name, suffix_matches};
use mmt::store::StateStore;

fn bytes(s: &str) -> Vec<u8> {
    s.as_bytes().to_vec()
}

// The comparator: identity implies duplicate, equal bytes are equal,
// a size mismatch is rejected without hashing.
#[test]
fn test_is_same_file() {
    let a = bytes("same content");
    let b = bytes("same content");
    let c = bytes("other stuff!");
    let d = bytes("short");
    assert!(files_equal(true, &a, &c));
    assert!(files_equal(false, &a, &b));
    assert!(!files_equal(false, &a, &c));
    assert!(!files_equal(false, &a, &d));
}

// Deriving the dated directory fragment that sits under the output root.
#[test]
fn test_code() {
    let path_str = "./output/";
    let stamp = CaptureStamp { year: 2022, month: 12, day: 1, hour: 0, minute: 0, second: 0 };
    let date = stamp_dir(&stamp);
    let path_date_str = format!("{}{}", path_str, String::from_utf8(date.clone()).unwrap());
    println!("path_str: {}, path_date_str: {}", path_str, path_date_str);
    let date_str = String::from_utf8(date).unwrap();
    println!("date: {}", date_str);
    assert_eq!(date_str, "2022/202212");
}

#[test]
fn test_parse_hyphen_separators() {
    let r = parse_capture(&bytes("2022-01-23 12:42:12")).unwrap();
    assert_eq!(r.year, 2022);
    assert_eq!(r.month, 1);
    assert_eq!(r.day, 23);
    assert_eq!(r.hour, 12);
    assert_eq!(r.minute, 42);
    assert_eq!(r.second, 12);
}

#[test]
fn test_parse_dot_separators() {
    let r = parse_capture(&bytes("2022.01.23 12:42:12")).unwrap();
    assert_eq!(r.year, 2022);
    assert_eq!(r.month, 1);
    assert_eq!(r.day, 23);
}

#[test]
fn test_parse_strips_quotes() {
    let r = parse_capture(&bytes("\"2022.01.23 12:42:12\"")).unwrap();
    assert_eq!(r.year, 2022);
    assert_eq!(r.second, 12);
}

#[test]
fn test_parse_rejects_garbage() {
    assert!(parse_capture(&bytes("")).is_none());
    assert!(parse_capture(&bytes("no timestamp here")).is_none());
    assert!(parse_capture(&bytes("2022-01-23")).is_none());
    assert!(parse_capture(&bytes("20x2-01-23 12:42:12")).is_none());
    assert!(parse_capture(&bytes("99999999999-01-23 12:42:12")).is_none());
}

#[test]
fn test_parse_is_syntactic_only() {
    // Field ranges are the calendar's business, not the parser's.
    let r = parse_capture(&bytes("2022-13-99 10:00:00")).unwrap();
    assert_eq!(r.month, 13);
    assert_eq!(r.day, 99);
}

#[test]
fn test_wide_year_keeps_full_digits() {
    let stamp = CaptureStamp { year: 99999, month: 5, day: 1, hour: 0, minute: 0, second: 0 };
    assert_eq!(stamp_dir(&stamp), b"99999/9999905".to_vec());
    let narrow = CaptureStamp { year: 33, month: 5, day: 1, hour: 0, minute: 0, second: 0 };
    assert_eq!(stamp_dir(&narrow), b"0033/003305".to_vec());
}

#[test]
fn test_sentinel_stamp_fields() {
    let s = sentinel();
    assert_eq!(s.year, 2000);
    assert_eq!(s.month, 1);
    assert_eq!(s.day, 1);
    assert_eq!(stamp_dir(&s), bytes("2000/200001"));
}

#[test]
fn test_candidate_names() {
    assert_eq!(candidate_name(&bytes("IMG.CR2"), 0), bytes("IMG.CR2"));
    assert_eq!(candidate_name(&bytes("IMG.CR2"), 1), bytes("IMG_1.CR2"));
    assert_eq!(candidate_name(&bytes("IMG.CR2"), 3), bytes("IMG_3.CR2"));
    assert_eq!(candidate_name(&bytes("IMG"), 2), bytes("IMG_2"));
    assert_eq!(candidate_name(&bytes("a.b.cr2"), 12), bytes("a.b_12.cr2"));
}

#[test]
fn test_base_name_component() {
    assert_eq!(base_name(&bytes("d1/d2/a.cr2")), bytes("a.cr2"));
    assert_eq!(base_name(&bytes("a.cr2")), bytes("a.cr2"));
}

#[test]
fn test_suffix_matching_is_case_insensitive() {
    assert!(suffix_matches(&bytes("IMG_2455.CR2"), &bytes(".cr2")));
    assert!(suffix_matches(&bytes("img_2455.cr2"), &bytes(".cr2")));
    assert!(!suffix_matches(&bytes("IMG_2455.JPG"), &bytes(".cr2")));
    assert!(!suffix_matches(&bytes("cr2"), &bytes(".cr2")));
}

#[test]
fn test_store_transitions() {
    let mut store = StateStore::new();
    store.load_entry(bytes("a.cr2"), false, 0);
    store.load_entry(bytes("b.cr2"), true, 77);
    // re-inserting a tracked path changes nothing
    store.load_entry(bytes("a.cr2"), true, 99);
    assert_eq!(store.files.len(), 2);
    assert!(!store.files[0].copied);
    assert!(store.is_tracked(&bytes("a.cr2")));
    assert!(!store.is_tracked(&bytes("c.cr2")));
    let pending = store.pending_list();
    assert_eq!(pending.len(), 1);
    assert_eq!(pending[0], bytes("a.cr2"));
    assert!(store.mark_copied(&bytes("a.cr2"), 123));
    assert!(!store.mark_copied(&bytes("a.cr2"), 456));
    assert_eq!(store.files[0].copied_at, 123);
    assert!(store.pending_list().is_empty());
}

#[test]
fn test_reconcile_scan_filters_and_completes() {
    let mut store = StateStore::new();
    let scanned = vec![bytes("d/a.CR2"), bytes("d/b.jpg"), bytes("d/c.cr2")];
    store.reconcile_scan(&scanned, &bytes(".cr2"));
    assert!(store.scan_complete);
    assert!(store.is_tracked(&bytes("d/a.CR2")));
    assert!(store.is_tracked(&bytes("d/c.cr2")));
    assert!(!store.is_tracked(&bytes("d/b.jpg")));
    // a completed scan is not redone
    store.reconcile_scan(&vec![bytes("d/new.cr2")], &bytes(".cr2"));
    assert!(!store.is_tracked(&bytes("d/new.cr2")));
}
