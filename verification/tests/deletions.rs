use sandlock_core::cow::deletions::{escape, unescape, DeletionSet};

fn names(set: &DeletionSet) -> Vec<String> {
    set.iter().into_iter().map(|name| String::from_utf8(name).unwrap()).collect()
}

fn logged(names: &[&str]) -> Vec<u8> {
    let mut log = Vec::new();
    let mut set = DeletionSet::create(true);
    for name in names {
        if let Some(line) = set.insert(name.as_bytes()) {
            log.extend(line);
        }
    }
    log
}

#[test]
fn covers_exact_and_descendants_not_siblings() {
    let mut s = DeletionSet::create(false);
    s.insert(b"d");
    assert!(s.covers(b"d"));
    assert!(s.covers(b"d/x"));
    assert!(s.covers(b"d/x/y"));
    assert!(!s.covers(b"d2"));
    assert!(!s.covers(b"d2/x"));
    assert!(!s.covers(b"e"));
}

#[test]
fn covers_nested_entry() {
    let mut s = DeletionSet::create(false);
    s.insert(b"a/b");
    assert!(!s.covers(b"a"));
    assert!(s.covers(b"a/b/c"));
    assert!(!s.covers(b"a/bc"));
}

#[test]
fn insert_is_idempotent() {
    let mut s = DeletionSet::create(false);
    s.insert(b"f");
    s.insert(b"f");
    assert_eq!(names(&s), vec!["f"]);
}

#[test]
fn log_roundtrip() {
    let log = logged(&["plain.txt", "dir/with\nnewline", "back\\slash"]);
    let replayed = DeletionSet::load(&log, true);
    assert_eq!(names(&replayed), vec!["back\\slash", "dir/with\nnewline", "plain.txt"]);
    assert!(replayed.covers(b"dir/with\nnewline/child"));
}

#[test]
fn log_roundtrip_carriage_return() {
    let log = logged(&["d/file\r", "mid\rdle"]);
    let replayed = DeletionSet::load(&log, true);
    assert!(replayed.covers(b"d/file\r"));
    assert!(!replayed.covers(b"d/file"));
    assert!(replayed.covers(b"mid\rdle"));
    assert!(replayed.covers(b"mid\rdle/child"));
}

#[test]
fn load_appends_not_truncates() {
    let mut log = logged(&["one"]);
    let mut set = DeletionSet::load(&log, true);
    log.extend(set.insert(b"two").unwrap());
    let s = DeletionSet::load(&log, true);
    assert_eq!(names(&s), vec!["one", "two"]);
}

#[test]
fn ram_only_when_no_log() {
    let mut s = DeletionSet::create(false);
    assert!(s.insert(b"x").is_none());
    assert!(s.covers(b"x"));
    assert_eq!(s.iter().len(), 1);
}

#[test]
fn escaped_lines_hold_no_line_ends_and_read_back() {
    for raw in [&b"a\nb"[..], b"\r\n\\", b"\\n", b"", b"plain"] {
        let line = escape(raw);
        assert!(!line.contains(&b'\n') && !line.contains(&b'\r'));
        assert_eq!(unescape(&line), raw.to_vec());
    }
    assert_eq!(escape(b"a\nb"), b"a\\nb".to_vec());
}

#[test]
fn a_torn_last_line_does_not_count() {
    let mut log = logged(&["kept"]);
    log.extend_from_slice(b"torn");
    assert_eq!(names(&DeletionSet::load(&log, true)), vec!["kept"]);
}

#[test]
fn replacing_writes_the_whole_log_again() {
    let (set, log) = DeletionSet::replace(&vec![b"b".to_vec(), b"a".to_vec(), b"b".to_vec()], true);
    assert_eq!(names(&set), vec!["a", "b"]);
    assert_eq!(names(&DeletionSet::load(&log, true)), vec!["a", "b"]);
}

#[test]
fn lines_that_are_no_text_are_skipped() {
    assert_eq!(names(&DeletionSet::load(b"a\n\xff\nb\n", true)), vec!["a", "b"]);
    assert_eq!(names(&DeletionSet::load("gr\u{fc}n\n".as_bytes(), true)), vec!["gr\u{fc}n"]);
}

#[test]
fn paths_come_out_in_the_order_of_their_bytes() {
    let mut set = DeletionSet::create(false);
    for name in ["b", "a/x", "\u{e4}", "a", "Z", "a-b", "b"] {
        set.insert(name.as_bytes());
    }
    assert_eq!(names(&set), vec!["Z", "a", "a-b", "a/x", "b", "\u{e4}"]);
}
