use std::collections::HashSet;
use std::sync::Mutex;

use password_sharder::classify::{
    alphabet, char_types, class_name, classify, create_dir2, create_dir_from_type, join, CharType,
};
use password_sharder::pipeline::{Admission, Dispatcher};
use password_sharder::record::{extract_password, parse_passwords};
use password_sharder::shard::{
    dir_paths, key_of_index, leaf_index, leaf_path, leaf_paths, shard_key, FileMap, ShardKey,
};
use password_sharder::text::chars_of;

fn key(a: char, b: char, c: char) -> ShardKey {
    ShardKey { k1: CharType::AlphaNumeric(a), k2: CharType::AlphaNumeric(b), k3: CharType::AlphaNumeric(c) }
}

fn lines(v: &[&str]) -> Vec<String> {
    v.iter().map(|s| s.to_string()).collect()
}

/// Writes each password into the in-memory shard it routes to.
fn write_all(map: &FileMap<Mutex<Vec<String>>>, passwords: &[String]) {
    for p in passwords {
        if let Some(h) = map.route(p) {
            h.lock().unwrap().push(p.clone());
        }
    }
}

fn memory_map(digits: bool) -> FileMap<Mutex<Vec<String>>> {
    let n = if digits { 37 * 37 * 37 } else { 27 * 27 * 27 };
    let handles: Vec<Mutex<Vec<String>>> = (0..n).map(|_| Mutex::new(Vec::new())).collect();
    FileMap::new(digits, handles).unwrap()
}

fn sorted_shards(map: &FileMap<Mutex<Vec<String>>>, digits: bool) -> Vec<Vec<String>> {
    let n = map.len();
    let mut out = Vec::new();
    for i in 0..n {
        let k = key_of_index(i, digits);
        let mut v = map.lookup(k).lock().unwrap().clone();
        v.sort();
        out.push(v);
    }
    out
}

#[test]
fn chars_of_keeps_characters() {
    assert_eq!(chars_of("aé:z"), vec!['a', 'é', ':', 'z']);
    assert_eq!(chars_of(""), Vec::<char>::new());
}

#[test]
fn extract_after_last_colon() {
    assert_eq!(extract_password("alice:Sunshine1"), "Sunshine1");
    assert_eq!(extract_password("a:b:Pass"), "Pass");
    assert_eq!(extract_password("user:"), "");
    assert_eq!(extract_password(":x"), "x");
    assert_eq!(extract_password("mail@x.org:pa:ss:Wörd"), "Wörd");
}

#[test]
fn extract_without_colon_is_lowercased() {
    assert_eq!(extract_password("NoDelimiterLine"), "nodelimiterline");
    assert_eq!(extract_password("ÄBC"), "äbc");
    assert_eq!(extract_password(""), "");
}

#[test]
fn parse_passwords_in_line_order() {
    let got = parse_passwords(&lines(&["alice:Sunshine1", "bob:apple", "nodelimiterline", "cc:xy"]));
    assert_eq!(got, lines(&["Sunshine1", "apple", "nodelimiterline", "xy"]));
    assert_eq!(parse_passwords(&Vec::new()), Vec::<String>::new());
}

#[test]
fn alphabet_is_a_to_z() {
    let a = alphabet();
    assert_eq!(a.len(), 26);
    assert_eq!(a[0], 'a');
    assert_eq!(a[25], 'z');
}

#[test]
fn char_types_order() {
    let t = char_types(false);
    assert_eq!(t.len(), 27);
    assert_eq!(t[0], CharType::AlphaNumeric('a'));
    assert_eq!(t[25], CharType::AlphaNumeric('z'));
    assert_eq!(t[26], CharType::Symbols);
    let t = char_types(true);
    assert_eq!(t.len(), 37);
    assert_eq!(t[26], CharType::AlphaNumeric('0'));
    assert_eq!(t[35], CharType::AlphaNumeric('9'));
    assert_eq!(t[36], CharType::Symbols);
}

#[test]
fn classify_classes() {
    assert_eq!(classify('q', false), CharType::AlphaNumeric('q'));
    assert_eq!(classify('Q', false), CharType::AlphaNumeric('q'));
    assert_eq!(classify('7', false), CharType::Symbols);
    assert_eq!(classify('7', true), CharType::AlphaNumeric('7'));
    assert_eq!(classify('!', true), CharType::Symbols);
    assert_eq!(classify(' ', true), CharType::Symbols);
    assert_eq!(classify('é', true), CharType::Symbols);
}

#[test]
fn classify_is_idempotent() {
    for c in ['a', 'Z', '5', '#', 'ß'] {
        for digits in [false, true] {
            let first = classify(c, digits);
            assert_eq!(first, classify(c, digits));
            if let CharType::AlphaNumeric(x) = first {
                assert_eq!(classify(x, digits), first);
            }
            assert!(char_types(digits).contains(&first));
        }
    }
    assert_eq!(char_types(true), char_types(true));
    assert_eq!(leaf_paths("r", false), leaf_paths("r", false));
}

#[test]
fn class_names_and_paths() {
    assert_eq!(class_name(CharType::AlphaNumeric('k')), "k");
    assert_eq!(class_name(CharType::Symbols), "symbols");
    assert_eq!(create_dir_from_type("out", CharType::Symbols), "out/symbols");
    assert_eq!(create_dir_from_type("out/", CharType::AlphaNumeric('a')), "out/a");
    assert_eq!(create_dir_from_type("", CharType::AlphaNumeric('a')), "a");
    assert_eq!(create_dir2("/tmp/o", 'x'), "/tmp/o/x");
    assert_eq!(join("a/b", "c"), "a/b/c");
}

#[test]
fn shard_key_of_passwords() {
    assert_eq!(shard_key("Sunshine1", false), Some(key('s', 'u', 'n')));
    assert_eq!(shard_key("apple", false), Some(key('a', 'p', 'p')));
    assert_eq!(shard_key("xy", false), None);
    assert_eq!(shard_key("", true), None);
    assert_eq!(
        shard_key("a1!", false),
        Some(ShardKey { k1: CharType::AlphaNumeric('a'), k2: CharType::Symbols, k3: CharType::Symbols })
    );
    assert_eq!(shard_key("a1!", true), Some(ShardKey {
        k1: CharType::AlphaNumeric('a'),
        k2: CharType::AlphaNumeric('1'),
        k3: CharType::Symbols,
    }));
}

#[test]
fn shard_key_folds_case_first() {
    // The Kelvin sign lowercases to the ASCII letter k.
    assert_eq!(shard_key("\u{212A}ey", false), Some(key('k', 'e', 'y')));
    assert_eq!(shard_key("ÀBC", false).unwrap().k1, CharType::Symbols);
    assert_eq!(shard_key("ABC", false), Some(key('a', 'b', 'c')));
}

#[test]
fn leaf_layout_has_every_shard_once() {
    for digits in [false, true] {
        let n: usize = if digits { 37 } else { 27 };
        let paths = leaf_paths("root", digits);
        assert_eq!(paths.len(), n * n * n);
        let distinct: HashSet<&String> = paths.iter().collect();
        assert_eq!(distinct.len(), n * n * n);
        for i in [0, 1, n, n * n, n * n * n - 1] {
            let k = key_of_index(i, digits);
            assert_eq!(leaf_index(k, digits), i);
            assert_eq!(paths[i], leaf_path("root", k));
        }
    }
    let paths = leaf_paths("root", false);
    assert_eq!(paths[0], "root/a/a/a");
    assert_eq!(paths[27 * 27 * 27 - 1], "root/symbols/symbols/symbols");
    assert_eq!(paths[leaf_index(key('s', 'u', 'n'), false)], "root/s/u/n");
}

#[test]
fn dir_layout_parents_first() {
    let dirs = dir_paths("o", false);
    assert_eq!(dirs.len(), 27 + 27 * 27);
    assert_eq!(dirs[0], "o/a");
    assert_eq!(dirs[26], "o/symbols");
    assert_eq!(dirs[27], "o/a/a");
    assert_eq!(dirs[27 + 27 * 27 - 1], "o/symbols/symbols");
    assert_eq!(dir_paths("o", true).len(), 37 + 37 * 37);
}

#[test]
fn file_map_needs_one_handle_per_shard() {
    assert!(FileMap::new(false, vec![0u8; 10]).is_none());
    assert!(FileMap::new(true, vec![0u8; 27 * 27 * 27]).is_none());
    let m = FileMap::new(false, (0..27 * 27 * 27).collect::<Vec<usize>>()).unwrap();
    assert_eq!(m.len(), 27 * 27 * 27);
    assert!(!m.digits());
    assert_eq!(*m.get_file('s', 'u', 'n'), leaf_index(key('s', 'u', 'n'), false));
    assert_eq!(*m.get_file('!', '?', 'a'), 26 * 27 * 27 + 26 * 27);
    assert_eq!(m.route("Sunshine1"), Some(&leaf_index(key('s', 'u', 'n'), false)));
    assert_eq!(m.route("xy"), None);
}

#[test]
fn end_to_end_scenario() {
    let map = memory_map(false);
    let passwords = parse_passwords(&lines(&["alice:Sunshine1", "bob:apple", "nodelimiterline", "cc:xy"]));
    write_all(&map, &passwords);
    assert_eq!(*map.lookup(key('s', 'u', 'n')).lock().unwrap(), lines(&["Sunshine1"]));
    assert_eq!(*map.lookup(key('a', 'p', 'p')).lock().unwrap(), lines(&["apple"]));
    assert_eq!(*map.lookup(key('n', 'o', 'd')).lock().unwrap(), lines(&["nodelimiterline"]));
    let total: usize = sorted_shards(&map, false).iter().map(|v| v.len()).sum();
    assert_eq!(total, 3);
    let paths = leaf_paths("out", false);
    assert_eq!(paths[leaf_index(key('n', 'o', 'd'), false)], "out/n/o/d");
}

#[test]
fn short_passwords_reach_no_shard() {
    let map = memory_map(true);
    write_all(&map, &lines(&["", "a", "ab", "Zz"]));
    assert!(sorted_shards(&map, true).iter().all(|v| v.is_empty()));
}

#[test]
fn worker_count_does_not_change_shards() {
    let files = vec![
        lines(&["Sunshine1", "sunny", "SUNDAY", "xy", "apple"]),
        lines(&["apple", "Apply", "!!!", "??x", "sun"]),
        lines(&["123456", "password", "Sunshine1"]),
    ];
    let one = memory_map(true);
    for f in &files {
        write_all(&one, f);
    }
    // Several workers: the files in another order, their records interleaved.
    let many = memory_map(true);
    let longest = files.iter().map(|f| f.len()).max().unwrap();
    for i in 0..longest {
        for f in files.iter().rev() {
            if let Some(p) = f.get(i) {
                write_all(&many, std::slice::from_ref(p));
            }
        }
    }
    assert_eq!(sorted_shards(&one, true), sorted_shards(&many, true));
    assert_eq!(
        sorted_shards(&one, true)[leaf_index(key('s', 'u', 'n'), true)],
        lines(&["SUNDAY", "Sunshine1", "Sunshine1", "sun", "sunny"])
    );
}

#[test]
fn low_memory_only_delays() {
    let mut d = Dispatcher::new(3, 1000);
    for _ in 0..5 {
        assert_eq!(d.poll(10), Admission::Wait);
    }
    assert_eq!(d.poll(1000), Admission::Run(0));
    assert_eq!(d.poll(999), Admission::Wait);
    assert_eq!(d.poll(5000), Admission::Run(1));
    assert_eq!(d.poll(0), Admission::Wait);
    assert_eq!(d.poll(u64::MAX), Admission::Run(2));
    assert_eq!(d.poll(u64::MAX), Admission::Drained);
    assert_eq!(d.poll(0), Admission::Wait);
    assert!(!d.is_finished());
    assert!(d.complete());
    assert!(d.complete());
    assert!(d.complete());
    assert!(!d.complete());
    assert_eq!(d.completed(), 3);
    assert_eq!(d.total(), 3);
    assert!(d.is_finished());
}

#[test]
fn completion_needs_a_file_handed_out() {
    let mut d = Dispatcher::new(2, 0);
    assert!(!d.complete());
    assert_eq!(d.completed(), 0);
    assert_eq!(d.poll(0), Admission::Run(0));
    assert!(d.complete());
    assert!(!d.complete());
    let mut empty = Dispatcher::new(0, 0);
    assert!(empty.is_finished());
    assert_eq!(empty.poll(1), Admission::Drained);
}
