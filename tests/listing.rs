use lsd::{
    arrange_listing, decimal, format_stamp, index_entries, listing_lines, matches_any, name_less,
    pad_right, parse_index, passes, query_matches, readable_size, render_lines, resolve_target,
    sort_key_of, split_path_list, Entry, Lister, Listing, SortKey, Stamp,
};

fn stamp(secs: i64) -> Stamp {
    Stamp {
        secs,
        nanos: 0,
        year: 2024,
        month: 3,
        day: 5,
        hour: 7,
        minute: 8,
        second: 9,
    }
}

fn entry(name: &str, metric: u64, secs: i64) -> Entry {
    Entry {
        position: 0,
        name: name.to_string(),
        metric,
        modified: stamp(secs),
    }
}

fn names_and_positions(listing: &Listing) -> Vec<(String, usize)> {
    match listing {
        Listing::Table(t) => t.iter().map(|e| (e.name.clone(), e.position)).collect(),
        _ => panic!("expected a table"),
    }
}

fn no_queries() -> Vec<String> {
    Vec::new()
}

#[test]
fn size_sort_keeps_name_rank_positions() {
    let raw = vec![entry("b", 2, 10), entry("a", 5, 20), entry("c", 1, 30)];
    let ix = index_entries(raw);
    let listing = arrange_listing(ix, &no_queries(), sort_key_of("size"), false, None);
    assert_eq!(
        names_and_positions(&listing),
        vec![("a".to_string(), 1), ("b".to_string(), 2), ("c".to_string(), 3)]
    );
}

#[test]
fn size_sort_positions_differ_from_display_order() {
    let raw = vec![entry("b", 9, 10), entry("a", 1, 20), entry("c", 5, 30)];
    let ix = index_entries(raw);
    let listing = arrange_listing(ix, &no_queries(), SortKey::Metric, false, None);
    assert_eq!(
        names_and_positions(&listing),
        vec![("b".to_string(), 2), ("c".to_string(), 3), ("a".to_string(), 1)]
    );
}

#[test]
fn index_two_selects_beta_alone() {
    let raw = vec![entry("gamma", 0, 1), entry("alpha", 0, 2), entry("beta", 0, 3)];
    let lines = listing_lines(raw, &no_queries(), SortKey::Name, false, Some(2), Lister::Folders, false);
    assert_eq!(lines, vec!["beta".to_string()]);
}

#[test]
fn empty_directory_renders_header_only() {
    let lines = listing_lines(Vec::new(), &no_queries(), SortKey::Keep, false, None, Lister::Folders, false);
    assert_eq!(lines, vec!["Index | Folder Name | Items  | Modified At".to_string()]);
}

#[test]
fn positions_follow_names_despite_query() {
    let raw = vec![entry("zeta", 1, 1), entry("Beta", 2, 2), entry("alpha", 3, 3), entry("beth", 4, 4)];
    let ix = index_entries(raw);
    let positions: Vec<(String, usize)> = ix.iter().map(|e| (e.name.clone(), e.position)).collect();
    assert_eq!(
        positions,
        vec![
            ("Beta".to_string(), 1),
            ("alpha".to_string(), 2),
            ("beth".to_string(), 3),
            ("zeta".to_string(), 4)
        ]
    );
    let queries = vec!["be".to_string()];
    let listing = arrange_listing(ix, &queries, SortKey::Metric, false, None);
    assert_eq!(
        names_and_positions(&listing),
        vec![("beth".to_string(), 3), ("Beta".to_string(), 1)]
    );
}

#[test]
fn filter_keeps_any_matching_query() {
    let raw = vec![entry("Docs", 0, 1), entry("music", 0, 2), entry("photos", 0, 3), entry("src", 0, 4)];
    let ix = index_entries(raw);
    let queries = vec!["DOC".to_string(), "OTO".to_string()];
    let listing = arrange_listing(ix, &queries, SortKey::Name, false, None);
    assert_eq!(
        names_and_positions(&listing),
        vec![("Docs".to_string(), 1), ("photos".to_string(), 3)]
    );
}

#[test]
fn filter_with_no_match_gives_header_only() {
    let raw = vec![entry("one", 0, 1), entry("two", 0, 2)];
    let queries = vec!["xyz".to_string()];
    let lines = listing_lines(raw, &queries, SortKey::Name, false, None, Lister::Folders, true);
    assert_eq!(lines, vec!["S.n   | Folder Name |".to_string()]);
}

#[test]
fn metric_sort_reversed_ascends() {
    let raw = vec![entry("a", 3, 1), entry("b", 1, 2), entry("c", 2, 3)];
    let ix = index_entries(raw);
    let listing = arrange_listing(ix, &no_queries(), SortKey::Metric, true, None);
    assert_eq!(
        names_and_positions(&listing),
        vec![("b".to_string(), 2), ("c".to_string(), 3), ("a".to_string(), 1)]
    );
}

#[test]
fn name_sort_is_strictly_ascending() {
    let raw = vec![entry("pear", 0, 1), entry("apple", 0, 2), entry("fig", 0, 3)];
    let ix = index_entries(raw);
    let listing = arrange_listing(ix, &no_queries(), sort_key_of("name"), false, None);
    assert_eq!(
        names_and_positions(&listing),
        vec![("apple".to_string(), 1), ("fig".to_string(), 2), ("pear".to_string(), 3)]
    );
}

#[test]
fn modified_sort_puts_latest_first() {
    let raw = vec![entry("old", 0, 100), entry("new", 0, 300), entry("mid", 0, 200)];
    let ix = index_entries(raw);
    let listing = arrange_listing(ix, &no_queries(), sort_key_of("m"), false, None);
    assert_eq!(
        names_and_positions(&listing),
        vec![("new".to_string(), 2), ("mid".to_string(), 1), ("old".to_string(), 3)]
    );
}

#[test]
fn unknown_sort_key_keeps_name_order() {
    assert_eq!(sort_key_of("bogus"), SortKey::Keep);
    let raw = vec![entry("b", 5, 1), entry("a", 1, 2)];
    let ix = index_entries(raw);
    let listing = arrange_listing(ix, &no_queries(), sort_key_of("bogus"), true, None);
    assert_eq!(
        names_and_positions(&listing),
        vec![("b".to_string(), 2), ("a".to_string(), 1)]
    );
}

#[test]
fn sort_keys_by_name() {
    assert_eq!(sort_key_of("n"), SortKey::Name);
    assert_eq!(sort_key_of("s"), SortKey::Metric);
    assert_eq!(sort_key_of("metric"), SortKey::Metric);
    assert_eq!(sort_key_of("modified"), SortKey::Modified);
    assert_eq!(sort_key_of("Size"), SortKey::Keep);
}

#[test]
fn selection_is_one_line_without_header() {
    let raw = vec![entry("x", 1, 1), entry("y", 2, 2)];
    let lines = listing_lines(raw, &no_queries(), SortKey::Metric, true, Some(1), Lister::Files, false);
    assert_eq!(lines, vec!["x".to_string()]);
}

#[test]
fn selection_ignores_queries() {
    let raw = vec![entry("x", 1, 1), entry("y", 2, 2)];
    let queries = vec!["zzz".to_string()];
    let lines = listing_lines(raw, &queries, SortKey::Name, false, Some(2), Lister::Folders, false);
    assert_eq!(lines, vec!["y".to_string()]);
}

#[test]
fn index_zero_renders_empty_line() {
    let raw = vec![entry("x", 1, 1)];
    let lines = listing_lines(raw, &no_queries(), SortKey::Name, false, Some(0), Lister::Folders, false);
    assert_eq!(lines, vec![String::new()]);
}

#[test]
fn index_past_end_renders_empty_line() {
    let raw = vec![entry("x", 1, 1), entry("y", 1, 1)];
    let lines = listing_lines(raw, &no_queries(), SortKey::Name, false, Some(3), Lister::Folders, false);
    assert_eq!(lines, vec![String::new()]);
}

#[test]
fn absent_index_renders_full_table() {
    let raw = vec![entry("src", 12, 1), entry("a", 3, 2)];
    let lines = listing_lines(raw, &no_queries(), SortKey::Name, false, None, Lister::Folders, false);
    assert_eq!(
        lines,
        vec![
            "Index | Folder Name | Items    | Modified At".to_string(),
            "1     | a           | 3  items | 2024-03-05 07:08:09".to_string(),
            "2     | src         | 12 items | 2024-03-05 07:08:09".to_string(),
        ]
    );
}

#[test]
fn file_table_shows_readable_sizes() {
    let raw = vec![entry("notes.txt", 1536, 1), entry("a.bin", 512, 2)];
    let lines = listing_lines(raw, &no_queries(), SortKey::Metric, false, None, Lister::Files, false);
    assert_eq!(
        lines,
        vec![
            "Index | File Name | Size    | Modified At".to_string(),
            "2     | notes.txt | 1.50 KB | 2024-03-05 07:08:09".to_string(),
            "1     | a.bin     | 512 B   | 2024-03-05 07:08:09".to_string(),
        ]
    );
}

#[test]
fn minimal_file_table() {
    let raw = vec![entry("readme", 10, 1), entry("b", 20, 2)];
    let lines = listing_lines(raw, &no_queries(), SortKey::Name, true, None, Lister::Files, true);
    assert_eq!(
        lines,
        vec![
            "S.n   | File Name |".to_string(),
            "2     | readme    |".to_string(),
            "1     | b         |".to_string(),
        ]
    );
}

#[test]
fn render_nothing_and_selected() {
    assert_eq!(render_lines(&Listing::Nothing, Lister::Files, false), vec![String::new()]);
    assert_eq!(
        render_lines(&Listing::Selected("dir".to_string()), Lister::Folders, true),
        vec!["dir".to_string()]
    );
}

#[test]
fn readable_sizes() {
    assert_eq!(readable_size(0), "0 B");
    assert_eq!(readable_size(1023), "1023 B");
    assert_eq!(readable_size(1024), "1.00 KB");
    assert_eq!(readable_size(1536), "1.50 KB");
    assert_eq!(readable_size(1152), "1.12 KB");
    assert_eq!(readable_size(1048575), "1024.00 KB");
    assert_eq!(readable_size(1048576), "1.00 MB");
    assert_eq!(readable_size(5 * 1073741824 / 2), "2.50 GB");
    assert_eq!(readable_size(3 * 1099511627776), "3.00 TB");
    assert_eq!(readable_size(u64::MAX), "16777216.00 TB");
}

#[test]
fn stamps_format_as_date_and_time() {
    assert_eq!(format_stamp(&stamp(0)), "2024-03-05 07:08:09");
    let mut far = stamp(0);
    far.year = 12345;
    far.month = 12;
    far.day = 31;
    far.hour = 23;
    far.minute = 59;
    far.second = 58;
    assert_eq!(format_stamp(&far), "+12345-12-31 23:59:58");
    let mut early = stamp(0);
    early.year = -1;
    assert_eq!(format_stamp(&early), "-0001-03-05 07:08:09");
    early.year = 7;
    assert_eq!(format_stamp(&early), "0007-03-05 07:08:09");
}

#[test]
fn parse_index_reads_unsigned_integers() {
    assert_eq!(parse_index("3"), Some(3));
    assert_eq!(parse_index("+7"), Some(7));
    assert_eq!(parse_index("007"), Some(7));
    assert_eq!(parse_index("0"), Some(0));
    assert_eq!(parse_index(""), None);
    assert_eq!(parse_index("+"), None);
    assert_eq!(parse_index("-1"), None);
    assert_eq!(parse_index("12a"), None);
    assert_eq!(parse_index("src"), None);
    assert_eq!(parse_index("18446744073709551615"), Some(usize::MAX));
    assert_eq!(parse_index("18446744073709551616"), None);
}

#[test]
fn numeric_path_resolves_to_named_folder() {
    let here = index_entries(vec![entry("zoo", 0, 1), entry("apps", 0, 2), entry("docs", 0, 3)]);
    assert_eq!(resolve_target("3", &here), "./zoo");
    assert_eq!(resolve_target("1", &here), "./apps");
}

#[test]
fn numeric_path_out_of_range_stays_literal() {
    let here = index_entries(vec![entry("apps", 0, 1)]);
    assert_eq!(resolve_target("0", &here), "0");
    assert_eq!(resolve_target("2", &here), "2");
    assert_eq!(resolve_target("docs", &here), "docs");
}

#[test]
fn queries_match_case_insensitive_substrings() {
    assert!(query_matches("BE", "alpha beta"));
    assert!(query_matches("", "anything"));
    assert!(!query_matches("x", "abc"));
    assert!(query_matches("a.c", "xa.cx"));
    assert!(!query_matches("a.c", "abc"));
    assert!(query_matches("(", "f(x)"));
}

#[test]
fn matches_any_with_no_queries_passes() {
    assert!(matches_any(&Vec::new(), "whatever"));
    assert!(!matches_any(&vec!["q".to_string()], "whatever"));
    assert!(matches_any(&vec!["q".to_string(), "EVER".to_string()], "whatever"));
}

#[test]
fn name_order_is_by_code_point() {
    assert!(name_less("B", "a"));
    assert!(name_less("ab", "abc"));
    assert!(!name_less("abc", "abc"));
    assert!(!name_less("b", "a"));
}

#[test]
fn decimal_and_padding() {
    assert_eq!(decimal(0), "0");
    assert_eq!(decimal(1234567890), "1234567890");
    assert_eq!(pad_right("ab".to_string(), 4), "ab  ");
    assert_eq!(pad_right("abcdef".to_string(), 4), "abcdef");
}

#[test]
fn path_list_splits_at_colons() {
    assert_eq!(
        split_path_list("/usr/bin:/bin::/opt/x"),
        vec!["/usr/bin".to_string(), "/bin".to_string(), String::new(), "/opt/x".to_string()]
    );
    assert_eq!(split_path_list(""), vec![String::new()]);
    assert_eq!(split_path_list("a:"), vec!["a".to_string(), String::new()]);
}

#[test]
fn short_names_align_with_label() {
    let lines = listing_lines(vec![entry("a", 1, 1)], &no_queries(), SortKey::Name, false, None, Lister::Folders, true);
    assert_eq!(
        lines,
        vec!["S.n   | Folder Name |".to_string(), "1     | a           |".to_string()]
    );
}

#[test]
fn long_names_widen_the_name_column() {
    let raw = vec![entry("a-rather-long-name", 1, 1), entry("b", 22, 2)];
    let lines = listing_lines(raw, &no_queries(), SortKey::Name, false, None, Lister::Folders, false);
    assert_eq!(
        lines,
        vec![
            "Index | Folder Name        | Items    | Modified At".to_string(),
            "1     | a-rather-long-name | 1  items | 2024-03-05 07:08:09".to_string(),
            "2     | b                  | 22 items | 2024-03-05 07:08:09".to_string(),
        ]
    );
}

#[test]
fn wide_sizes_widen_the_size_column() {
    let raw = vec![entry("big", 1048565, 1), entry("tiny", 3, 2)];
    let lines = listing_lines(raw, &no_queries(), SortKey::Name, false, None, Lister::Files, false);
    assert_eq!(
        lines,
        vec![
            "Index | File Name | Size       | Modified At".to_string(),
            "1     | big       | 1023.99 KB | 2024-03-05 07:08:09".to_string(),
            "2     | tiny      | 3 B        | 2024-03-05 07:08:09".to_string(),
        ]
    );
}

#[test]
fn passes_needs_one_hit_unless_empty() {
    assert!(passes(&Vec::new()));
    assert!(!passes(&vec![false, false]));
    assert!(passes(&vec![false, true]));
}

#[test]
fn query_meta_characters_match_literally() {
    assert!(query_matches("a+b", "xA+By"));
    assert!(!query_matches("a+b", "aab"));
    assert!(query_matches("[x]", "f[X]"));
    assert!(!query_matches("[x]", "x"));
    assert!(query_matches("^a$", "b^a$c"));
    assert!(!query_matches("^a$", "a"));
}
