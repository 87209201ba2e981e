//! Unit tests over the individual pipeline stages.

use compare_it::{
    compute_schema_signature, compute_simhash, encode_ranges, extensions_compatible,
    hamming_distance, parse_header, simhash_similarity, try_detect_structured, values_equal,
    NormalizationOptions, Tolerance, SCORE_UNIT,
};

#[test]
fn test_parse_header() {
    let header = "id,name,value";
    let columns = parse_header(header, ',');
    assert_eq!(
        columns,
        Some(vec!["id".to_string(), "name".to_string(), "value".to_string()])
    );
}

#[test]
fn test_try_detect_structured() {
    assert!(try_detect_structured("a,b,c", ',').is_some());
    assert!(try_detect_structured("single_column", ',').is_none());
}

#[test]
fn test_encode_ranges() {
    assert_eq!(encode_ranges(&[1, 2, 3, 5, 7, 8, 9]), "1-3,5,7-9");
    assert_eq!(encode_ranges(&[1]), "1");
    assert_eq!(encode_ranges(&[]), "");
}

#[test]
fn test_hamming_distance() {
    assert_eq!(hamming_distance(0, 0), 0);
    assert_eq!(hamming_distance(0, 1), 1);
    assert_eq!(hamming_distance(0b1111, 0b0000), 4);
}

#[test]
fn test_simhash_similarity() {
    assert_eq!(simhash_similarity(0, 0), SCORE_UNIT);
    assert!(simhash_similarity(0, u64::MAX) < SCORE_UNIT / 10);
}

#[test]
fn test_schema_signature() {
    let cols1 = vec!["a".to_string(), "b".to_string(), "c".to_string()];
    let cols2 = vec!["c".to_string(), "b".to_string(), "a".to_string()];
    // Same columns, different order should produce same signature.
    assert_eq!(
        compute_schema_signature(&cols1),
        compute_schema_signature(&cols2)
    );
}

#[test]
fn test_extensions_compatible() {
    assert!(extensions_compatible("csv", "csv"));
    assert!(extensions_compatible("csv", "tsv"));
    assert!(!extensions_compatible("csv", "py"));
    assert!(extensions_compatible("rs", "py"));
}

#[test]
fn test_values_equal() {
    let tol4 = Tolerance { num: 1, exp10: 4 };
    let tol3 = Tolerance { num: 1, exp10: 3 };
    assert!(values_equal("hello", "hello", &tol4));
    assert!(!values_equal("hello", "world", &tol4));
    assert!(values_equal("1.0", "1.0", &tol4));
    assert!(values_equal("1.0000", "1.0001", &tol3));
    assert!(!values_equal("1.0", "2.0", &tol4));
}

#[test]
fn values_equal_handles_signs_exponents_and_relative_tolerance() {
    let tol3 = Tolerance { num: 1, exp10: 3 };
    let zero = Tolerance { num: 0, exp10: 0 };
    // Trailing zeros and an explicit plus sign do not matter.
    assert!(values_equal("1.0", "1", &zero));
    assert!(values_equal("+2.50", "2.5", &zero));
    // Exponent notation is recognized.
    assert!(values_equal("1e2", "100", &zero));
    assert!(values_equal("-1.5e1", "-15", &zero));
    // Relative tolerance: 1001000 vs 1000000 differ by 0.1 percent.
    assert!(values_equal("1001000", "1000000", &tol3));
    assert!(!values_equal("1002000", "1000000", &tol3));
    // Non-numeric values only compare byte for byte.
    assert!(!values_equal("abc", "abd", &tol3));
}

#[test]
fn simhash_is_deterministic() {
    let text = "alpha beta gamma\ndelta epsilon zeta\neta theta iota\n";
    let opts = NormalizationOptions::none();
    assert_eq!(compute_simhash(text, &opts), compute_simhash(text, &opts));
}

#[test]
fn simhash_small_edit_keeps_small_distance() {
    // A 200-word document; replacing one word must stay within a small
    // Hamming distance of the original fingerprint.
    let mut words: Vec<String> = Vec::new();
    for i in 0..200u32 {
        words.push(format!("word{}", i));
    }
    let original = words.join(" ");
    words[100] = "changed".to_string();
    let edited = words.join(" ");
    let opts = NormalizationOptions::none();
    let h1 = compute_simhash(&original, &opts);
    let h2 = compute_simhash(&edited, &opts);
    assert!(hamming_distance(h1, h2) <= 16);
}

#[test]
fn schema_signature_is_short_hex() {
    let cols = vec!["x".to_string(), "y".to_string()];
    let sig = compute_schema_signature(&cols);
    assert_eq!(sig.len(), 16);
    assert!(sig.chars().all(|c| c.is_ascii_hexdigit()));
    // Different column sets give different signatures.
    let other = vec!["x".to_string(), "z".to_string()];
    assert_ne!(sig, compute_schema_signature(&other));
}

#[test]
fn hamming_similarity_stays_in_range() {
    let pairs = [(0u64, 0u64), (0, u64::MAX), (0b1010, 0b0101), (7, 9)];
    for (a, b) in pairs {
        let s = simhash_similarity(a, b);
        assert!(s <= SCORE_UNIT);
    }
    // Two differing bits: 62/64 of the unit.
    assert_eq!(simhash_similarity(0, 3), (64 - 2) * (SCORE_UNIT / 64));
}
