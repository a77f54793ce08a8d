use sandlock_core::byte_map::ByteMap;
use sandlock_core::byte_set::ByteSet;
use sandlock_core::ids::{canonical_id, id_form, IdForm};
use sandlock_core::path::{
    components, file_name, join_path, parent_path, path_starts_with, same_path, strip_prefix, NormPath, RelPath,
};
use sandlock_core::task_stat::{read_pid_start_time, read_ppid, read_stat, read_tgid_of_tid, tgid_of, TaskStat};
use sandlock_core::text::{
    decimal, find_line, parse_i32, parse_unsigned, signed_decimal, split_last, split_lines, split_words, string_of,
    strip_text, trim,
};
use sandlock_core::text_set::TextSet;

#[test]
fn numbers_are_read_and_written() {
    assert_eq!(parse_unsigned(b"1777", 8, 0o7777), Some(0o1777));
    assert_eq!(parse_unsigned(b"+12", 10, 99), Some(12));
    assert_eq!(parse_unsigned(b"100", 10, 99), None);
    assert_eq!(parse_unsigned(b"", 10, 99), None);
    assert_eq!(parse_unsigned(b"-1", 10, 99), None);
    assert_eq!(parse_unsigned(b"fF", 16, 255), Some(255));
    assert_eq!(parse_i32(b"-2147483648"), Some(i32::MIN));
    assert_eq!(parse_i32(b"2147483648"), None);
    assert_eq!(parse_i32(b"-"), None);
    assert_eq!(decimal(0), b"0".to_vec());
    assert_eq!(decimal(18446744073709551615), b"18446744073709551615".to_vec());
    assert_eq!(signed_decimal(i32::MIN), b"-2147483648".to_vec());
}

#[test]
fn signed_numbers_read_back() {
    for value in [i32::MIN, -1, 0, 7, i32::MAX] {
        assert_eq!(parse_i32(&signed_decimal(value)), Some(value));
    }
}

#[test]
fn words_and_lines_follow_unicode() {
    assert_eq!(split_words(" a\u{3000}b\tc \n"), vec!["a", "b", "c"]);
    assert!(split_words("\u{2003}\u{85}").is_empty());
    assert_eq!(split_lines("a\r\nb\n\nc"), vec!["a", "b", "", "c"]);
    assert_eq!(split_lines("a\n"), vec!["a"]);
    assert!(split_lines("").is_empty());
    assert_eq!(strip_text("Tgid:\t5", "Tgid:"), Some("\t5".to_string()));
    assert_eq!(strip_text("Pid:", "Tgid:"), None);
    assert_eq!(split_last("a) b) c", ") "), Some("c".to_string()));
    assert_eq!(split_last("abc", ")"), None);
    assert_eq!(string_of(&vec!['\u{e9}', 'x']), "\u{e9}x");
    assert_eq!(trim(b" \t x y\n"), b"x y".to_vec());
    assert_eq!(find_line(b"Name: x\nUmask:\t0022\n", b"Umask:"), Some(b"\t0022".to_vec()));
    assert_eq!(find_line(b"Name: x\n", b"Umask:"), None);
}

#[test]
fn task_stats_are_read_behind_the_last_parenthesis() {
    let stat = "42 (a) b)) S 7 42 99 0 -1 0 0 0 0 0 0 0 0 0 20 0 1 0 123456 0 0";
    assert_eq!(read_stat(stat), Some(TaskStat { state: b'S', session: 99, start: 123456 }));
    assert_eq!(read_ppid(stat), Some(7));
    assert_eq!(read_pid_start_time(stat), Some(123456));
    assert_eq!(read_stat("42 (a) S 7 42"), None);
    assert_eq!(read_stat("no parenthesis"), None);
    assert_eq!(read_ppid("42 (a)"), None);
}

#[test]
fn the_leader_of_a_thread_is_read_from_its_status() {
    assert_eq!(read_tgid_of_tid("Name:\ta\nTgid:\t77\nPid:\t78\n"), Some(77));
    assert_eq!(read_tgid_of_tid("Name:\ta\n"), None);
    assert_eq!(tgid_of(&Some("Tgid:\t77\n".to_string()), 78), 77);
    assert_eq!(tgid_of(&None, 78), 78);
}

#[test]
fn ids_are_lower_case_and_hyphenated() {
    let bytes = [0x67, 0xe5, 0x50, 0x44, 0x10, 0xb1, 0x42, 0x6f, 0x92, 0x47, 0xbb, 0x68, 0x0e, 0x5f, 0xe0, 0xc8];
    assert_eq!(canonical_id(bytes), "67e55044-10b1-426f-9247-bb680e5fe0c8");
    assert_eq!(id_form("67e55044-10b1-426f-9247-bb680e5fe0c8"), IdForm::Canonical);
    assert_eq!(id_form("67E55044-10B1-426F-9247-BB680E5FE0C8"), IdForm::NotCanonical);
    assert_eq!(id_form("67e5504410b1426f9247bb680e5fe0c8"), IdForm::NotCanonical);
    assert_eq!(id_form("not an id"), IdForm::Invalid);
}

#[test]
fn relative_paths_stay_below_their_root() {
    assert_eq!(RelPath::parse(b"a//b/./c").unwrap().to_bytes(), b"a/b/c".to_vec());
    assert!(RelPath::parse(b"../a").is_none());
    assert!(RelPath::parse(b"/a").is_none());
    assert!(RelPath::parse(b"").unwrap().is_root());
    let deep = RelPath::parse(b"a/b").unwrap();
    assert!(deep.lies_below_or_at(&RelPath::parse(b"a").unwrap()));
    assert!(!RelPath::parse(b"ab").unwrap().lies_below_or_at(&RelPath::parse(b"a").unwrap()));
    assert!(RelPath::parse(b"a/z").unwrap().precedes(&RelPath::parse(b"a.b").unwrap()));
}

#[test]
fn paths_are_taken_apart_by_their_components() {
    assert_eq!(components(b"/a/./b/../c").len(), 5);
    assert_eq!(NormPath::of(b"/a/../../b/.").to_bytes(), b"/b".to_vec());
    assert!(path_starts_with(b"/a/b", b"/a"));
    assert!(!path_starts_with(b"/ab", b"/a"));
    assert_eq!(file_name(b"/a/b/"), Some(b"b".to_vec()));
    assert_eq!(file_name(b"/a/.."), None);
    assert_eq!(join_path(b"/a", b"b"), b"/a/b".to_vec());
    assert!(same_path(b"/a//b/", b"/a/b"));
    assert_eq!(parent_path(b"/a/b"), Some(b"/a".to_vec()));
    assert_eq!(parent_path(b"/"), None);
    assert_eq!(strip_prefix(b"/a/b/c", b"/a"), Some(b"b/c".to_vec()));
    assert_eq!(strip_prefix(b"/a", b"/b"), None);
}

#[test]
fn byte_sets_and_maps_keep_their_order() {
    let mut set = ByteSet::new();
    assert!(set.insert(b"b"));
    assert!(set.insert(b"a"));
    assert!(!set.insert(b"b"));
    assert_eq!(set.to_list(), vec![b"a".to_vec(), b"b".to_vec()]);
    assert!(set.remove(b"a"));
    assert!(!set.contains(b"a"));
    let mut map = ByteMap::new();
    map.insert(b"k", b"1");
    map.insert(b"j", b"0");
    map.insert(b"k", b"2");
    assert_eq!(map.len(), 2);
    assert_eq!(map.item_at(1), (&b"k"[..], &b"2"[..]));
    map.remove(b"j");
    assert_eq!(map.item_at(0), (&b"k"[..], &b"2"[..]));
    let mut texts = TextSet::new();
    texts.insert("z");
    texts.insert("\u{e9}");
    texts.insert("z");
    assert_eq!(texts.to_list(), vec!["z", "\u{e9}"]);
    texts.remove("z");
    assert_eq!(texts.item_at(0), "\u{e9}");
}
