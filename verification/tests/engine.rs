use telegrep::cache::ContentCache;
use telegrep::search::search_file_contents;
use telegrep::search::ResultEntry;

fn storage_of(entries: &[(&str, &str)]) -> Vec<(String, Vec<u8>)> {
    entries
        .iter()
        .map(|(p, c)| (p.to_string(), c.as_bytes().to_vec()))
        .collect()
}

fn paths_of(entries: &[(&str, &str)]) -> Vec<String> {
    entries.iter().map(|(p, _)| p.to_string()).collect()
}

fn run_search(
    files: &[(&str, &str)],
    query: &str,
    width: usize,
    case_insensitive: bool,
) -> Vec<ResultEntry> {
    let storage = storage_of(files);
    let paths = paths_of(files);
    let mut cache = ContentCache::new(100);
    search_file_contents(
        &paths,
        &query.to_string(),
        &mut cache,
        width,
        case_insensitive,
        &storage,
    )
}

#[test]
fn scenario_case_sensitive_word() {
    let files = [("a.txt", "hello world"), ("b.txt", "nothing here")];
    let results = run_search(&files, "wor", 113, false);
    assert_eq!(results.len(), 1);
    assert_eq!(results[0].file, "a.txt");
    assert_eq!(results[0].display_line, b"hello world".to_vec());
    assert_eq!(results[0].display_ranges, vec![(6, 9)]);
}

#[test]
fn scenario_invalid_pattern_sentinel() {
    let files = [("a.txt", "hello world")];
    let results = run_search(&files, "(", 113, false);
    assert_eq!(results.len(), 1);
    assert_eq!(results[0].file, "");
    assert_eq!(results[0].display_line, b"Invalid regex pattern".to_vec());
    assert_eq!(results[0].display_ranges, Vec::<(usize, usize)>::new());
}

#[test]
fn invalid_pattern_leaves_cache_untouched() {
    let files = [("a.txt", "hello world")];
    let storage = storage_of(&files);
    let paths = paths_of(&files);
    let mut cache = ContentCache::new(100);
    let results = search_file_contents(
        &paths,
        &"(".to_string(),
        &mut cache,
        113,
        false,
        &storage,
    );
    assert_eq!(results.len(), 1);
    assert_eq!(cache.len(), 0);
}

#[test]
fn empty_query_lists_every_file() {
    let files = [("a.txt", "hello world"), ("b.txt", "nothing here")];
    let storage = storage_of(&files);
    let paths = paths_of(&files);
    let mut cache = ContentCache::new(100);
    let results =
        search_file_contents(&paths, &String::new(), &mut cache, 113, false, &storage);
    assert_eq!(results.len(), 2);
    assert_eq!(results[0].file, "a.txt");
    assert_eq!(results[1].file, "b.txt");
    for r in &results {
        assert_eq!(r.display_line, Vec::<u8>::new());
        assert_eq!(r.display_ranges, Vec::<(usize, usize)>::new());
    }
    assert_eq!(cache.len(), 0);
}

#[test]
fn short_line_passes_through_unchanged() {
    let files = [("f.txt", "foo bar foo")];
    let results = run_search(&files, "foo", 113, false);
    assert_eq!(results.len(), 1);
    assert_eq!(results[0].display_line, b"foo bar foo".to_vec());
    assert_eq!(results[0].display_ranges, vec![(0, 3), (8, 11)]);
}

#[test]
fn long_line_window_remaps_first_match() {
    // A 200-byte line matching near position 150, with a width budget of
    // 50: the display starts with the ellipsis and the remapped range is
    // shifted by the 3-byte prefix.
    let mut line = String::new();
    for _ in 0..150 {
        line.push('x');
    }
    line.push_str("needle");
    for _ in 0..44 {
        line.push('y');
    }
    assert_eq!(line.len(), 200);
    let files = [("long.txt", line.as_str())];
    // terminal width 83 leaves a 50-byte text budget
    let results = run_search(&files, "needle", 83, false);
    assert_eq!(results.len(), 1);
    let display = &results[0].display_line;
    assert_eq!(&display[0..3], b"...");
    // window starts at 150 - 20 = 130, so the match lands at 20 + 3
    assert_eq!(results[0].display_ranges, vec![(23, 29)]);
    // 3 + 50 + 3: prefix, window, trailing marker
    assert_eq!(display.len(), 56);
    assert_eq!(&display[display.len() - 3..], b"...");
}

#[test]
fn case_insensitive_flag_widens_matches() {
    let files = [("a.txt", "Hello World")];
    assert_eq!(run_search(&files, "world", 113, false).len(), 0);
    let results = run_search(&files, "world", 113, true);
    assert_eq!(results.len(), 1);
    assert_eq!(results[0].display_ranges, vec![(6, 11)]);
}

#[test]
fn one_entry_per_matching_line_in_order() {
    let files = [
        ("a.txt", "alpha\nbeta\nalpha beta\n"),
        ("b.txt", "beta\n"),
    ];
    let results = run_search(&files, "beta", 113, false);
    assert_eq!(results.len(), 3);
    assert_eq!(results[0].file, "a.txt");
    assert_eq!(results[0].display_line, b"beta".to_vec());
    assert_eq!(results[1].file, "a.txt");
    assert_eq!(results[1].display_line, b"alpha beta".to_vec());
    assert_eq!(results[1].display_ranges, vec![(6, 10)]);
    assert_eq!(results[2].file, "b.txt");
}

#[test]
fn crlf_lines_are_stripped() {
    let files = [("w.txt", "one\r\ntwo\r\n")];
    let results = run_search(&files, "two", 113, false);
    assert_eq!(results.len(), 1);
    assert_eq!(results[0].display_line, b"two".to_vec());
}

#[test]
fn unreadable_file_is_skipped() {
    let storage = storage_of(&[("present.txt", "match here")]);
    let paths = vec!["missing.txt".to_string(), "present.txt".to_string()];
    let mut cache = ContentCache::new(100);
    let results = search_file_contents(
        &paths,
        &"match".to_string(),
        &mut cache,
        113,
        false,
        &storage,
    );
    assert_eq!(results.len(), 1);
    assert_eq!(results[0].file, "present.txt");
    assert_eq!(cache.len(), 1);
}

#[test]
fn recomputing_gives_identical_results() {
    let files = [("a.txt", "hello world"), ("b.txt", "more worlds")];
    let storage = storage_of(&files);
    let paths = paths_of(&files);
    let mut cache = ContentCache::new(100);
    let first = search_file_contents(
        &paths,
        &"wor".to_string(),
        &mut cache,
        113,
        false,
        &storage,
    );
    let again = search_file_contents(
        &paths,
        &"wor".to_string(),
        &mut cache,
        113,
        false,
        &storage,
    );
    assert_eq!(first.len(), again.len());
    for (x, y) in first.iter().zip(again.iter()) {
        assert_eq!(x.file, y.file);
        assert_eq!(x.display_line, y.display_line);
        assert_eq!(x.display_ranges, y.display_ranges);
    }
}

#[test]
fn line_exactly_at_budget_is_not_truncated() {
    // terminal width 43 leaves a 10-byte budget; the line is exactly 10
    let files = [("edge.txt", "abcmatchzz")];
    let results = run_search(&files, "match", 43, false);
    assert_eq!(results.len(), 1);
    assert_eq!(results[0].display_line, b"abcmatchzz".to_vec());
    assert_eq!(results[0].display_ranges, vec![(3, 8)]);
}

#[test]
fn line_one_past_budget_is_truncated() {
    // the same line with one byte more crosses the 10-byte budget
    let files = [("edge.txt", "abcmatchzzz")];
    let results = run_search(&files, "match", 43, false);
    assert_eq!(results.len(), 1);
    // window starts at the line head (match starts at 3, within context)
    assert_eq!(results[0].display_line, b"abcmatchzz...".to_vec());
    assert_eq!(results[0].display_ranges, vec![(3, 8)]);
}

#[test]
fn empty_file_yields_no_entries() {
    let files = [("empty.txt", ""), ("full.txt", "match")];
    let results = run_search(&files, "match", 113, false);
    assert_eq!(results.len(), 1);
    assert_eq!(results[0].file, "full.txt");
}

#[test]
fn duplicate_storage_paths_first_wins() {
    let storage: Vec<(String, Vec<u8>)> = vec![
        ("a.txt".to_string(), b"first match".to_vec()),
        ("a.txt".to_string(), b"second match".to_vec()),
    ];
    let paths = vec!["a.txt".to_string()];
    let mut cache = ContentCache::new(100);
    let results = search_file_contents(
        &paths,
        &"match".to_string(),
        &mut cache,
        113,
        false,
        &storage,
    );
    assert_eq!(results.len(), 1);
    assert_eq!(results[0].display_line, b"first match".to_vec());
}
