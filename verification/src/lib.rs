//! A verified core for a file-tree comparison pipeline.
//!
//! The pipeline turns two sets of indexed files into a bounded set of
//! candidate pairs and runs a line-level or key-based table comparison
//! on each pair: indexing classifies files from an extension hint and a
//! bounded content probe; fingerprinting attaches content hashes,
//! simhashes and schema signatures; the matcher pairs the two sets by
//! path, basename or all-vs-all with blocking rules and top-K
//! selection; and the per-pair comparators produce tagged results.
//!
//! Similarity values are exact integers scaled to parts per million
//! (`SCORE_UNIT` is one), so every score is deterministic and fully
//! specified.  Reading directories and files, command lines and export
//! files are the embedding application's concern: the library works on
//! the paths, bytes and values it is handed.

pub mod charsim;
pub mod dispatch;
pub mod fingerprint;
pub mod index;
pub mod matcher;
pub mod normalize;
pub mod numeric;
pub mod order;
pub mod sanitize;
pub mod summary;
pub mod tablecmp;
pub mod text;
pub mod textcmp;
pub mod types;

pub use dispatch::{auto_detect_mode, compare_pair, comparison_error, create_identical_result};
pub use fingerprint::{
    compute_fingerprint, compute_schema_signature, compute_simhash, hamming_distance,
    simhash_similarity,
};
pub use index::{
    basename_of, build_entry, count_newline_bytes, detect_file_kind, extension_of,
    line_count_from, parse_header, sort_entries_by_path, try_detect_structured,
};
pub use matcher::{
    all_vs_all_match, estimate_similarity, extensions_compatible, files_hash_match,
    generate_candidates, match_by_name, match_by_path, passes_blocking_rules,
};
pub use numeric::{parse_decimal, values_equal, Decimal};
pub use sanitize::{relative_path, sanitize_filename, sanitize_for_filename, truncate_path};
pub use summary::calculate_summary;
pub use tablecmp::{compare_structured_files, get_delimiter, parse_table, Table};
pub use textcmp::{compare_text_files, encode_ranges, files_identical, make_linked_id};
pub use types::{
    CandidatePair, CompareConfig, CompareMode, ComparisonResult, ComparisonSummary, ColumnMismatch,
    FieldMismatch, FileEntry, FileType, NormalizationOptions, PairingStrategy,
    SimilarityAlgorithm, StructuredComparisonResult, TextComparisonResult, Tolerance, SCORE_UNIT,
};
