//! Tests over the indexing, ordering and string helpers.

use compare_it::{
    basename_of, build_entry, detect_file_kind, extension_of, line_count_from, relative_path,
    sanitize_filename, sanitize_for_filename, sort_entries_by_path, truncate_path, FileType,
};

#[test]
fn detect_kind_by_extension_and_content() {
    // A csv extension with a comma header names the kind directly.
    let (kind, cols) = detect_file_kind("csv", b"a,b\n1,2\n");
    assert_eq!(kind, FileType::Csv);
    assert_eq!(cols, Some(vec!["a".to_string(), "b".to_string()]));
    // A tab header under a tsv extension.
    let (kind, _) = detect_file_kind("tsv", b"a\tb\n1\t2\n");
    assert_eq!(kind, FileType::Tsv);
    // Content detection without a table extension.
    let (kind, _) = detect_file_kind("txt", b"x,y\n1,2\n");
    assert_eq!(kind, FileType::Csv);
    // A zero byte means binary.
    let (kind, cols) = detect_file_kind("csv", &[97, 0, 98]);
    assert_eq!(kind, FileType::Binary);
    assert!(cols.is_none());
    // Plain prose stays text.
    let (kind, _) = detect_file_kind("txt", b"just some words\n");
    assert_eq!(kind, FileType::Text);
}

#[test]
fn build_entry_fills_metadata() {
    let e = build_entry("dir/Data.CSV".to_string(), 8, b"a,b\n1,2\n", 2);
    assert_eq!(e.extension, "csv");
    assert_eq!(e.file_type, FileType::Csv);
    assert_eq!(e.line_count, 2);
    assert_eq!(e.content_hash, "");
    assert!(e.simhash.is_none());
    assert!(e.columns.is_some());
    let b = build_entry("blob".to_string(), 3, &[0u8, 1, 2], 7);
    assert_eq!(b.file_type, FileType::Binary);
    assert_eq!(b.line_count, 0);
    assert_eq!(b.extension, "");
}

#[test]
fn path_helpers() {
    assert_eq!(basename_of("a/b/c.txt"), "c.txt");
    assert_eq!(basename_of("c.txt"), "c.txt");
    assert_eq!(extension_of("a/b/c.TXT"), "txt");
    assert_eq!(extension_of("a/b/noext"), "");
    assert_eq!(extension_of("a/.hidden"), "");
    assert_eq!(relative_path("base/sub/f.txt", "base"), "sub/f.txt");
    assert_eq!(relative_path("other/f.txt", "base"), "other/f.txt");
    assert_eq!(relative_path("base", "base"), "");
}

#[test]
fn line_counts_from_newline_tallies() {
    assert_eq!(line_count_from(0, 0, false), 0);
    assert_eq!(line_count_from(2, 10, true), 2);
    assert_eq!(line_count_from(2, 11, false), 3);
}

#[test]
fn entries_sort_by_path() {
    let mk = |p: &str| build_entry(p.to_string(), 0, b"", 0);
    let sorted = sort_entries_by_path(vec![mk("b"), mk("a/x"), mk("c"), mk("a")]);
    let paths: Vec<String> = sorted.iter().map(|e| e.path.clone()).collect();
    assert_eq!(
        paths,
        vec!["a".to_string(), "a/x".to_string(), "b".to_string(), "c".to_string()]
    );
}

#[test]
fn sanitizers_replace_unsafe_characters() {
    assert_eq!(sanitize_filename("ab:cd/ef*g"), "ab_cd_ef_g");
    assert_eq!(sanitize_for_filename("h<i>|j?\"k\\"), "h_i__j__k_");
    assert_eq!(sanitize_filename("plain-name.txt"), "plain-name.txt");
}

#[test]
fn truncate_keeps_the_tail() {
    assert_eq!(truncate_path("short", 10), "short");
    assert_eq!(truncate_path("abcdefghij", 8), "...fghij");
}
