use telegrep::cache::ContentCache;
use telegrep::search::ResultEntry;
use telegrep::session::results_changed;
use telegrep::session::KeyInput;
use telegrep::session::SessionState;

fn entry(file: &str, line: &str, ranges: &[(usize, usize)]) -> ResultEntry {
    ResultEntry {
        file: file.to_string(),
        display_line: line.as_bytes().to_vec(),
        display_ranges: ranges.to_vec(),
    }
}

#[test]
fn cache_eviction_keeps_most_recent() {
    let mut cache = ContentCache::new(3);
    let storage: Vec<(String, Vec<u8>)> = (0..5)
        .map(|i| (format!("f{}", i), vec![b'a' + i as u8]))
        .collect();
    for (path, _) in &storage {
        let got = cache.get_or_load(path, &storage);
        assert!(got.is_some());
    }
    assert_eq!(cache.len(), 3);
    assert_eq!(cache.capacity(), 3);
    assert!(!cache.contains(&"f0".to_string()));
    assert!(!cache.contains(&"f1".to_string()));
    assert!(cache.contains(&"f2".to_string()));
    assert!(cache.contains(&"f3".to_string()));
    assert!(cache.contains(&"f4".to_string()));
}

#[test]
fn cache_hit_marks_entry_recently_used() {
    let mut cache = ContentCache::new(2);
    let storage: Vec<(String, Vec<u8>)> = vec![
        ("a".to_string(), b"1".to_vec()),
        ("b".to_string(), b"2".to_vec()),
        ("c".to_string(), b"3".to_vec()),
    ];
    cache.get_or_load(&"a".to_string(), &storage);
    cache.get_or_load(&"b".to_string(), &storage);
    // touch "a" so that "b" is now least recently used
    assert_eq!(cache.get_or_load(&"a".to_string(), &storage), Some(b"1".to_vec()));
    cache.get_or_load(&"c".to_string(), &storage);
    assert!(cache.contains(&"a".to_string()));
    assert!(!cache.contains(&"b".to_string()));
    assert!(cache.contains(&"c".to_string()));
}

#[test]
fn cache_miss_with_absent_storage_changes_nothing() {
    let mut cache = ContentCache::new(2);
    let storage: Vec<(String, Vec<u8>)> = Vec::new();
    assert_eq!(cache.get_or_load(&"nope".to_string(), &storage), None);
    assert_eq!(cache.len(), 0);
}

#[test]
fn differ_detects_any_structural_change() {
    let a = vec![entry("f", "line", &[(0, 2)])];
    let same = vec![entry("f", "line", &[(0, 2)])];
    let other_file = vec![entry("g", "line", &[(0, 2)])];
    let other_line = vec![entry("f", "linx", &[(0, 2)])];
    let other_range = vec![entry("f", "line", &[(0, 3)])];
    let longer = vec![entry("f", "line", &[(0, 2)]), entry("g", "x", &[])];
    assert!(!results_changed(&a, &same));
    assert!(results_changed(&a, &other_file));
    assert!(results_changed(&a, &other_line));
    assert!(results_changed(&a, &other_range));
    assert!(results_changed(&a, &longer));
    assert!(!results_changed(&Vec::new(), &Vec::new()));
}

#[test]
fn session_edits_query_per_key() {
    let mut s = SessionState::new();
    assert_eq!(s.query, "");
    assert_eq!(s.results_start_row, 2);
    assert!(s.apply_key(KeyInput::Character('a')));
    assert!(s.apply_key(KeyInput::Character('b')));
    assert_eq!(s.query, "ab");
    assert!(s.apply_key(KeyInput::Backspace));
    assert_eq!(s.query, "a");
    assert!(s.apply_key(KeyInput::Backspace));
    assert!(s.apply_key(KeyInput::Backspace));
    assert_eq!(s.query, "");
    assert!(s.apply_key(KeyInput::Other));
    assert_eq!(s.query, "");
}

#[test]
fn session_commit_advances_row_and_clears() {
    let mut s = SessionState::new();
    s.apply_key(KeyInput::Character('x'));
    let fresh = vec![
        entry("a", "x1", &[(0, 1)]),
        entry("b", "x2", &[(0, 1)]),
    ];
    assert!(s.update_results(fresh));
    assert!(s.apply_key(KeyInput::Enter));
    assert_eq!(s.query, "");
    assert_eq!(s.current_results.len(), 0);
    // two entries were shown: the next block starts at row 2 + 3
    assert_eq!(s.results_start_row, 5);
}

#[test]
fn session_escape_terminates() {
    let mut s = SessionState::new();
    s.apply_key(KeyInput::Character('q'));
    assert!(!s.apply_key(KeyInput::Escape));
    assert_eq!(s.query, "q");
}

#[test]
fn update_results_reports_change_only_once() {
    let mut s = SessionState::new();
    let fresh = vec![entry("a", "hit", &[(0, 3)])];
    let same = vec![entry("a", "hit", &[(0, 3)])];
    assert!(s.update_results(fresh));
    assert!(!s.update_results(same));
    assert!(s.update_results(Vec::new()));
}
