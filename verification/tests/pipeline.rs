//! End-to-end scenarios over the matching and comparison pipeline.

use compare_it::{
    build_entry, calculate_summary, compare_pair, compare_structured_files, compare_text_files,
    comparison_error, compute_fingerprint, estimate_similarity, files_identical,
    generate_candidates, match_by_name, match_by_path, passes_blocking_rules, CandidatePair,
    CompareConfig, CompareMode, ComparisonResult, FileEntry, FileType, NormalizationOptions,
    PairingStrategy, SimilarityAlgorithm, Tolerance, SCORE_UNIT,
};

fn entry(path: &str, content: &[u8]) -> FileEntry {
    let mut e = build_entry(path.to_string(), content.len() as u64, content, 0);
    let lines = content.iter().filter(|b| **b == 10).count()
        + if !content.is_empty() && content[content.len() - 1] != 10 { 1 } else { 0 };
    e.line_count = if e.file_type == FileType::Binary { 0 } else { lines };
    compute_fingerprint(&mut e, content, &NormalizationOptions::none());
    e
}

fn pair_of(e1: &FileEntry, e2: &FileEntry) -> CandidatePair {
    CandidatePair {
        file1: e1.clone(),
        file2: e2.clone(),
        estimated_similarity: estimate_similarity(e1, e2),
        exact_hash_match: files_identical(e1, e2),
    }
}

#[test]
fn same_path_identical_text_files() {
    // One identical text file at the same relative path on both sides.
    let content = b"hello\nworld\n";
    let e1 = entry("sub/file.txt", content);
    let e2 = entry("sub/file.txt", content);
    let pairs = match_by_path(&vec![e1], &vec![e2]);
    assert_eq!(pairs.len(), 1);
    assert!(pairs[0].exact_hash_match);
    assert_eq!(pairs[0].estimated_similarity, SCORE_UNIT);
    let config = CompareConfig::default();
    let result = compare_pair(&pairs[0], content, content, &config);
    match result {
        ComparisonResult::Text(t) => {
            assert!(t.identical);
            assert_eq!(t.similarity_score, SCORE_UNIT);
            assert_eq!(t.only_in_file1, 0);
            assert_eq!(t.only_in_file2, 0);
        },
        _ => panic!("expected a text result"),
    }
}

#[test]
fn text_diff_counts_and_body() {
    let a = b"x\ny\nz\n";
    let b = b"x\nY\nz\n";
    let e1 = entry("a.txt", a);
    let e2 = entry("b.txt", b);
    let config = CompareConfig::default();
    let r = compare_text_files(&e1, &e2, a, b, &config);
    assert_eq!(r.common_lines, 2);
    assert_eq!(r.only_in_file1, 1);
    assert_eq!(r.only_in_file2, 1);
    // Diff similarity is 2 / 4.
    assert_eq!(r.similarity_score, SCORE_UNIT / 2);
    assert!(!r.identical);
    assert!(r.detailed_diff.contains("-y"));
    assert!(r.detailed_diff.contains("+Y"));
    assert!(r.detailed_diff.starts_with("--- a.txt\n+++ b.txt\n"));
}

#[test]
fn normalization_hides_eol_and_trailing_ws() {
    let a = b"alpha\nbeta\n";
    let b = b"alpha \r\nbeta \r\n";
    let e1 = entry("a.txt", a);
    let e2 = entry("b.txt", b);
    let mut config = CompareConfig::default();
    config.normalization.ignore_eol = true;
    config.normalization.ignore_trailing_ws = true;
    let r = compare_text_files(&e1, &e2, a, b, &config);
    assert!(r.identical);
    assert_eq!(r.similarity_score, SCORE_UNIT);
}

#[test]
fn normalization_case_and_whitespace_fold() {
    // Case folding covers non-ASCII letters; whitespace collapse covers
    // non-ASCII spaces.
    let a = "\u{c4}BC\none\u{a0}two\n".as_bytes();
    let b = "\u{e4}bc\none two\n".as_bytes();
    let e1 = entry("a.txt", a);
    let e2 = entry("b.txt", b);
    let mut config = CompareConfig::default();
    config.normalization.ignore_case = true;
    config.normalization.ignore_all_ws = true;
    let r = compare_text_files(&e1, &e2, a, b, &config);
    assert!(r.identical);
}

#[test]
fn csv_tolerance_decides_mismatches() {
    let a = b"id,name,amount\n1,alice,1.0000\n";
    let b = b"id,name,amount\n1,alice,1.0001\n";
    let e1 = entry("a.csv", a);
    let e2 = entry("b.csv", b);
    assert_eq!(e1.file_type, FileType::Csv);
    let mut config = CompareConfig::default();
    config.key_columns = vec!["id".to_string()];
    config.numeric_tolerance = Tolerance { num: 1, exp10: 3 };
    let r = compare_structured_files(&e1, &e2, a, b, &config);
    assert_eq!(r.total_field_mismatches, 0);
    assert!(r.identical);
    assert_eq!(r.similarity_score, SCORE_UNIT);

    config.numeric_tolerance = Tolerance { num: 1, exp10: 5 };
    let r2 = compare_structured_files(&e1, &e2, a, b, &config);
    assert_eq!(r2.total_field_mismatches, 1);
    assert!(!r2.identical);
    assert_eq!(r2.field_mismatches.len(), 1);
    assert_eq!(r2.field_mismatches[0].column_name, "amount");
    assert_eq!(r2.field_mismatches[0].mismatch_count, 1);
    assert_eq!(r2.field_mismatches[0].sample_mismatches.len(), 1);
    assert_eq!(r2.field_mismatches[0].sample_mismatches[0].key, "1");
}

#[test]
fn csv_disjoint_columns() {
    let a = b"id,name,age\n1,alice,30\n2,bob,40\n";
    let b = b"id,name,email\n1,alice,a@x\n2,bob,b@x\n";
    let e1 = entry("a.csv", a);
    let e2 = entry("b.csv", b);
    let mut config = CompareConfig::default();
    config.key_columns = vec!["id".to_string()];
    let r = compare_structured_files(&e1, &e2, a, b, &config);
    assert_eq!(r.common_columns, vec!["id".to_string(), "name".to_string()]);
    assert_eq!(r.columns_only_in_file1, vec!["age".to_string()]);
    assert_eq!(r.columns_only_in_file2, vec!["email".to_string()]);
    assert_eq!(r.total_field_mismatches, 0);
    assert_eq!(r.common_records, 2);
    assert_eq!(r.only_in_file1, 0);
    assert_eq!(r.only_in_file2, 0);
}

#[test]
fn table_compared_against_itself_is_identical() {
    let a = b"k,v\n1,x\n2,y\n";
    let e = entry("t.csv", a);
    let config = CompareConfig::default();
    let r = compare_structured_files(&e, &e, a, a, &config);
    assert!(r.identical);
    assert_eq!(r.only_in_file1, 0);
    assert_eq!(r.only_in_file2, 0);
    assert_eq!(r.total_field_mismatches, 0);
    assert_eq!(r.similarity_score, SCORE_UNIT);
}

#[test]
fn all_vs_all_respects_blocking_topk_and_order() {
    // One hundred files per side, no hash matches, top three per file.
    let mut files1: Vec<FileEntry> = Vec::new();
    let mut files2: Vec<FileEntry> = Vec::new();
    for i in 0..100u32 {
        let mut e1 = entry(&format!("left/f{}.txt", i), format!("data {}\n", i).as_bytes());
        let mut e2 = entry(&format!("right/g{}.txt", i), format!("data {} more\n", i).as_bytes());
        // Erase the hashes so the similarity pass does all the work.
        e1.content_hash = String::new();
        e1.simhash = None;
        e2.content_hash = String::new();
        e2.simhash = None;
        files1.push(e1);
        files2.push(e2);
    }
    let mut config = CompareConfig::default();
    config.pairing = PairingStrategy::AllVsAll;
    config.top_k = 3;
    let pairs = generate_candidates(&files1, &files2, &config);
    assert!(pairs.len() <= 300);
    assert!(pairs.len() > 0);
    for w in pairs.windows(2) {
        assert!(w[0].estimated_similarity >= w[1].estimated_similarity);
    }
    for p in &pairs {
        assert!(p.exact_hash_match || passes_blocking_rules(&p.file1, &p.file2));
    }
    // No source path heads more than three pairs.
    for p in &pairs {
        let n = pairs.iter().filter(|q| q.file1.path == p.file1.path).count();
        assert!(n <= 3);
    }
}

#[test]
fn all_vs_all_hash_pass_pairs_exactly() {
    let content = b"same bytes\n";
    let e1 = entry("one/a.txt", content);
    let e2 = entry("two/b.txt", content);
    let mut config = CompareConfig::default();
    config.pairing = PairingStrategy::AllVsAll;
    let pairs = generate_candidates(&vec![e1], &vec![e2], &config);
    assert_eq!(pairs.len(), 1);
    assert!(pairs[0].exact_hash_match);
    assert_eq!(pairs[0].estimated_similarity, SCORE_UNIT);
}

#[test]
fn match_by_name_picks_best_same_basename() {
    let content = b"shared text here\n";
    let e1 = entry("left/data.txt", content);
    let far = entry("right/other.txt", b"unrelated\n");
    let near = entry("right/sub/data.txt", content);
    let decoy = entry("right/data.txt", b"totally different words\n");
    let pairs = match_by_name(&vec![e1], &vec![far, decoy, near]);
    assert_eq!(pairs.len(), 1);
    // Of the two same-basename candidates the identical one wins.
    assert_eq!(pairs[0].file2.path, "right/sub/data.txt");
}

#[test]
fn binary_pairs_are_hash_only() {
    let blob1 = [0u8, 1, 2, 3, 0, 5];
    let e1 = entry("a.bin", &blob1);
    let e2 = entry("b.bin", &blob1);
    assert_eq!(e1.file_type, FileType::Binary);
    assert_eq!(e1.line_count, 0);
    let p = pair_of(&e1, &e2);
    assert!(p.exact_hash_match);
    let r = compare_pair(&p, &blob1, &blob1, &CompareConfig::default());
    match r {
        ComparisonResult::HashOnly { identical, .. } => assert!(identical),
        _ => panic!("expected a hash-only result"),
    }
}

#[test]
fn fingerprints_fill_every_field() {
    let e = entry("table.csv", b"a,b\n1,2\n");
    assert_eq!(e.content_hash.len(), 64);
    assert!(e.schema_signature.is_some());
    assert!(e.simhash.is_some());
    assert_eq!(e.schema_signature.unwrap().len(), 16);
    let t = entry("plain.txt", b"words\n");
    assert_eq!(t.content_hash.len(), 64);
    assert!(t.simhash.is_some());
    assert!(t.schema_signature.is_none());
    let b = entry("raw.bin", &[1u8, 0, 2]);
    assert!(b.simhash.is_none());
    assert_eq!(b.content_hash.len(), 64);
}

#[test]
fn content_hash_matches_published_digest() {
    // The digest of the empty input is a published blake3 constant.
    let e = entry("empty.txt", b"");
    assert_eq!(
        e.content_hash,
        "af1349b9f5f9a1a6a0404dea36dcc9499bcb25c9adc112b7cc9a93cae41f3262"
    );
}

#[test]
fn estimate_similarity_cases() {
    let e1 = entry("a.txt", b"one two three\n");
    let e2 = entry("b.txt", b"one two three\n");
    // Equal non-empty hashes estimate as one.
    assert_eq!(estimate_similarity(&e1, &e2), SCORE_UNIT);
    // Size-ratio fallback: sizes 1 and 2 give three tenths of one half.
    let mut s1 = entry("c.txt", b"a");
    let mut s2 = entry("d.txt", b"ab");
    s1.content_hash = String::new();
    s1.simhash = None;
    s2.content_hash = String::new();
    s2.simhash = None;
    assert_eq!(estimate_similarity(&s1, &s2), 150000);
}

#[test]
fn summary_counts_and_extremes() {
    let a = b"x\n";
    let b = b"y\n";
    let e1 = entry("a.txt", a);
    let e2 = entry("b.txt", b);
    let config = CompareConfig::default();
    let identical = compare_pair(&pair_of(&e1, &e1), a, a, &config);
    let different = compare_pair(&pair_of(&e1, &e2), a, b, &config);
    let err = comparison_error(&pair_of(&e1, &e2), "read failed".to_string());
    let results = vec![identical, different, err];
    let s = calculate_summary(&results, 2, 2);
    assert_eq!(s.pairs_compared, 3);
    assert_eq!(s.identical_pairs, 1);
    assert_eq!(s.different_pairs, 1);
    assert_eq!(s.error_pairs, 1);
    assert_eq!(s.max_similarity, SCORE_UNIT);
    assert_eq!(s.min_similarity, 0);
    assert_eq!(s.average_similarity, SCORE_UNIT / 2);
}

#[test]
fn forced_modes_override_auto() {
    let a = b"k,v\n1,2\n";
    let e1 = entry("a.csv", a);
    let e2 = entry("b.csv", a);
    let mut p = pair_of(&e1, &e2);
    p.exact_hash_match = false;
    let mut config = CompareConfig::default();
    config.mode = CompareMode::Text;
    assert!(matches!(
        compare_pair(&p, a, a, &config),
        ComparisonResult::Text(_)
    ));
    config.mode = CompareMode::Structured;
    assert!(matches!(
        compare_pair(&p, a, a, &config),
        ComparisonResult::Structured(_)
    ));
}

#[test]
fn error_results_count_nothing_else() {
    let e1 = entry("a.txt", b"x\n");
    let e2 = entry("b.txt", b"y\n");
    let err = comparison_error(&pair_of(&e1, &e2), "io".to_string());
    match &err {
        ComparisonResult::Error { file1_path, file2_path, error } => {
            assert_eq!(file1_path, "a.txt");
            assert_eq!(file2_path, "b.txt");
            assert_eq!(error, "io");
        },
        _ => panic!("expected an error result"),
    }
    assert!(!err.is_identical());
    assert_eq!(err.similarity_score(), 0);
}

#[test]
fn char_jaro_scoring() {
    let a = b"martha";
    let b = b"marhta";
    let e1 = entry("a.txt", a);
    let e2 = entry("b.txt", b);
    let mut config = CompareConfig::default();
    config.similarity_algorithm = SimilarityAlgorithm::CharJaro;
    let r = compare_text_files(&e1, &e2, a, b, &config);
    // Jaro 17/18 with a three-character prefix boost, in floored
    // parts per million.
    assert_eq!(r.similarity_score, 961110);
    // Equal texts score one under either algorithm.
    let r2 = compare_text_files(&e1, &e1, a, a, &config);
    assert_eq!(r2.similarity_score, SCORE_UNIT);
}

#[test]
fn diff_body_truncates_with_marker() {
    let a = b"a\nb\nc\nd\ne\nf\ng\nh\n";
    let b = b"1\n2\n3\n4\n5\n6\n7\n8\n";
    let e1 = entry("a.txt", a);
    let e2 = entry("b.txt", b);
    let mut config = CompareConfig::default();
    config.max_diff_bytes = 24;
    let r = compare_text_files(&e1, &e2, a, b, &config);
    assert!(r.diff_truncated);
    assert!(r.detailed_diff.ends_with("\n... [diff truncated] ...\n"));
    assert!(r.detailed_diff.starts_with("--- a.txt\n+++ b.txt\n"));
}

#[test]
fn invalid_utf8_decodes_lossily() {
    let a = [b'o', b'k', 0xFF, b'\n'];
    let e1 = entry("a.txt", &a);
    let e2 = entry("b.txt", &a);
    assert_eq!(e1.file_type, FileType::Text);
    let r = compare_text_files(&e1, &e2, &a, &a, &CompareConfig::default());
    assert!(r.identical);
}
