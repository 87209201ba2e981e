//! Shared data types of the comparison pipeline.

use vstd::prelude::*;

verus! {

/// Scores are exact integers scaled to parts per million: `SCORE_UNIT`
/// stands for a similarity of one (identical), `0` for no similarity.
pub const SCORE_UNIT: u64 = 1000000;

/// A well-formed score never exceeds one.
pub open spec fn valid_score(s: u64) -> bool {
    s <= SCORE_UNIT
}

/// File kind detected during indexing.
#[derive(Debug, Clone, Copy, PartialEq, Eq, Structural)]
pub enum FileType {
    /// Plain text file (line-based comparison).
    Text,
    /// Comma-delimited table (structured comparison).
    Csv,
    /// Tab-delimited table (structured comparison).
    Tsv,
    /// Binary file (hash-only comparison).
    Binary,
    /// Unknown or unreadable.
    Unknown,
}

impl FileType {
    /// Whether entries of this kind are compared as keyed tables.
    pub fn is_structured(&self) -> (r: bool)
        ensures
            r == (*self is Csv || *self is Tsv),
    {
        match self {
            FileType::Csv | FileType::Tsv => true,
            _ => false,
        }
    }

    /// Whether entries of this kind are compared line by line.
    pub fn is_text(&self) -> (r: bool)
        ensures
            r == (*self is Text),
    {
        match self {
            FileType::Text => true,
            _ => false,
        }
    }
}

/// One indexed file: metadata collected by the indexer, fingerprints
/// added later by the fingerprinter.
#[derive(Debug)]
pub struct FileEntry {
    /// Path of the file, as handed to the indexer.
    pub path: String,
    /// File size in bytes.
    pub size: u64,
    /// Detected file kind.
    pub file_type: FileType,
    /// File extension, lowercased and without the dot.
    pub extension: String,
    /// Hex digest of the file contents; empty until fingerprinting.
    pub content_hash: String,
    /// Locality-sensitive 64-bit fingerprint for text-like files.
    pub simhash: Option<u64>,
    /// Order-independent signature of a table's column names.
    pub schema_signature: Option<String>,
    /// Number of lines (text) or rows (tables).
    pub line_count: usize,
    /// Column names of a table's header.
    pub columns: Option<Vec<String>>,
}

impl FileEntry {
    /// Structural invariant established by the indexer: tables carry a
    /// header of at least two columns, binary files have no simhash.
    pub open spec fn wf(&self) -> bool {
        &&& (self.file_type is Csv || self.file_type is Tsv) ==> {
            &&& self.columns is Some
            &&& self.columns->Some_0@.len() >= 2
        }
        &&& self.file_type is Binary ==> self.simhash is None
    }

    /// Invariant after fingerprinting: the content hash is a 64-digit
    /// hex string, and tables have a schema signature.
    pub open spec fn fingerprinted(&self) -> bool {
        &&& self.wf()
        &&& self.content_hash@.len() == 64
        &&& (self.file_type is Csv || self.file_type is Tsv) ==> self.schema_signature is Some
        &&& (self.file_type is Text || self.file_type is Csv || self.file_type is Tsv)
            ==> self.simhash is Some
    }
}

/// Two entries that agree in every observable field.
pub open spec fn entry_like(a: FileEntry, b: FileEntry) -> bool {
    &&& a.path@ == b.path@
    &&& a.size == b.size
    &&& a.file_type == b.file_type
    &&& a.extension@ == b.extension@
    &&& a.content_hash@ == b.content_hash@
    &&& a.simhash == b.simhash
    &&& a.schema_signature is Some <==> b.schema_signature is Some
    &&& a.schema_signature is Some ==> a.schema_signature->Some_0@
        == b.schema_signature->Some_0@
    &&& a.line_count == b.line_count
    &&& a.columns is Some <==> b.columns is Some
    &&& a.columns is Some ==> a.columns->Some_0.deep_view() == b.columns->Some_0.deep_view()
}

impl Clone for FileEntry {
    /// A copy that agrees with the original in every field.
    fn clone(&self) -> (res: Self)
        ensures
            entry_like(res, *self),
            res.wf() == self.wf(),
            res.fingerprinted() == self.fingerprinted(),
    {
        let columns = match &self.columns {
            None => None,
            Some(cols) => {
                let mut out: Vec<String> = Vec::new();
                let mut i: usize = 0;
                let n = cols.len();
                while i < n
                    invariant
                        0 <= i <= n == cols@.len(),
                        out.deep_view() == cols.deep_view().take(i as int),
                    decreases n - i,
                {
                    let c = cols[i].clone();
                    let ghost before = out.deep_view();
                    out.push(c);
                    i = i + 1;
                    proof {
                        assert(out.deep_view() =~~= before.push(cols.deep_view()[i - 1]));
                        assert(cols.deep_view().take(i as int) =~= cols.deep_view().take(
                            i - 1,
                        ).push(cols.deep_view()[i - 1]));
                    }
                }
                proof {
                    assert(cols.deep_view().take(n as int) =~= cols.deep_view());
                    assert(out@.len() == cols@.len());
                }
                Some(out)
            },
        };
        let schema_signature = match &self.schema_signature {
            None => None,
            Some(s) => Some(s.clone()),
        };
        FileEntry {
            path: self.path.clone(),
            size: self.size,
            file_type: self.file_type,
            extension: self.extension.clone(),
            content_hash: self.content_hash.clone(),
            simhash: self.simhash,
            schema_signature,
            line_count: self.line_count,
            columns,
        }
    }
}

/// Comparison mode selection.
#[derive(Debug, Clone, Copy, PartialEq, Eq, Structural)]
pub enum CompareMode {
    /// Pick text or structured comparison from the file kinds.
    Auto,
    /// Force line-based comparison.
    Text,
    /// Force structured table comparison.
    Structured,
}

/// Similarity scoring algorithm for text comparison.
#[derive(Debug, Clone, Copy, PartialEq, Eq, Structural)]
pub enum SimilarityAlgorithm {
    /// Diff-based: common / (common + only_in_1 + only_in_2).
    Diff,
    /// Character-level Jaro-Winkler similarity.
    CharJaro,
}

/// Pairing strategy for folder comparison.
#[derive(Debug, Clone, Copy, PartialEq, Eq, Structural)]
pub enum PairingStrategy {
    /// Match files with the same path.
    SamePath,
    /// Match files with the same basename only.
    SameName,
    /// Best matches by similarity, all-vs-all with pruning.
    AllVsAll,
}

/// Text normalization switches, independently toggleable.
#[derive(Debug, Clone, PartialEq, Eq, Structural)]
pub struct NormalizationOptions {
    /// Treat CRLF and LF as the same terminator.  Line splitting always
    /// strips both, so this switch does not change the result.
    pub ignore_eol: bool,
    /// Right-trim each line before comparing.
    pub ignore_trailing_ws: bool,
    /// Collapse whitespace runs within a line to a single space.
    pub ignore_all_ws: bool,
    /// Lowercase lines before comparing.
    pub ignore_case: bool,
    /// Drop lines that are empty after the other switches.
    pub skip_empty_lines: bool,
}

impl NormalizationOptions {
    /// All switches off: compare lines as they are.
    pub fn none() -> (r: NormalizationOptions)
        ensures
            !r.ignore_eol,
            !r.ignore_trailing_ws,
            !r.ignore_all_ws,
            !r.ignore_case,
            !r.skip_empty_lines,
    {
        NormalizationOptions {
            ignore_eol: false,
            ignore_trailing_ws: false,
            ignore_all_ws: false,
            ignore_case: false,
            skip_empty_lines: false,
        }
    }
}

impl Default for NormalizationOptions {
    /// The default leaves every switch off.
    fn default() -> (r: NormalizationOptions)
        ensures
            r == (NormalizationOptions {
                ignore_eol: false,
                ignore_trailing_ws: false,
                ignore_all_ws: false,
                ignore_case: false,
                skip_empty_lines: false,
            }),
    {
        NormalizationOptions::none()
    }
}

/// A decimal tolerance `num / 10^exp10` for numeric field comparison.
/// The bounds keep every comparison within 128-bit arithmetic.
#[derive(Debug, Clone, Copy, PartialEq, Eq, Structural)]
pub struct Tolerance {
    /// Numerator; strictly below `10^9`.
    pub num: u64,
    /// Power-of-ten denominator; at most `9`.
    pub exp10: u32,
}

impl Tolerance {
    /// Bounds under which tolerance comparisons cannot overflow.
    pub open spec fn wf(&self) -> bool {
        self.num < 1000000000 && self.exp10 <= 9
    }

    /// The tolerance as a rational number, numerator over denominator.
    pub open spec fn as_rational(&self) -> (int, int) {
        (self.num as int, vstd::arithmetic::power::pow(10, self.exp10 as nat))
    }

    /// Tolerance of exactly zero: values are equal only if their
    /// numeric values are equal.
    pub fn zero() -> (r: Tolerance)
        ensures
            r.num == 0,
            r.exp10 == 0,
            r.wf(),
    {
        Tolerance { num: 0, exp10: 0 }
    }

    /// Builds a tolerance, rejecting out-of-range parts.
    pub fn new(num: u64, exp10: u32) -> (r: Option<Tolerance>)
        ensures
            r is Some <==> (num < 1000000000 && exp10 <= 9),
            r is Some ==> r->Some_0 == (Tolerance { num, exp10 }) && r->Some_0.wf(),
    {
        if num < 1000000000 && exp10 <= 9 {
            Some(Tolerance { num, exp10 })
        } else {
            None
        }
    }
}

/// Configuration for one comparison run.
#[derive(Debug, Clone)]
pub struct CompareConfig {
    /// Comparison mode.
    pub mode: CompareMode,
    /// Pairing strategy for folders.
    pub pairing: PairingStrategy,
    /// Candidates kept per file in all-vs-all mode.
    pub top_k: usize,
    /// Cap on the number of emitted pairs.
    pub max_pairs: Option<usize>,
    /// Key columns for structured comparison.
    pub key_columns: Vec<String>,
    /// Numeric tolerance for structured comparison.
    pub numeric_tolerance: Tolerance,
    /// Text normalization switches.
    pub normalization: NormalizationOptions,
    /// Similarity algorithm for text comparison.
    pub similarity_algorithm: SimilarityAlgorithm,
    /// Cap in bytes on the emitted diff body.
    pub max_diff_bytes: usize,
}

impl Default for CompareConfig {
    /// Default run: auto mode, all-vs-all pairing with top-3 selection,
    /// tolerance 0.0001, diff scoring, 1 MiB diff cap.
    fn default() -> (r: CompareConfig)
        ensures
            r.mode is Auto,
            r.pairing is AllVsAll,
            r.top_k == 3,
            r.max_pairs is None,
            r.key_columns@ =~= Seq::<String>::empty(),
            r.numeric_tolerance == (Tolerance { num: 1, exp10: 4 }),
            r.numeric_tolerance.wf(),
            r.normalization == (NormalizationOptions {
                ignore_eol: false,
                ignore_trailing_ws: false,
                ignore_all_ws: false,
                ignore_case: false,
                skip_empty_lines: false,
            }),
            r.similarity_algorithm is Diff,
            r.max_diff_bytes == 1048576,
    {
        CompareConfig {
            mode: CompareMode::Auto,
            pairing: PairingStrategy::AllVsAll,
            top_k: 3,
            max_pairs: None,
            key_columns: Vec::new(),
            numeric_tolerance: Tolerance { num: 1, exp10: 4 },
            normalization: NormalizationOptions::none(),
            similarity_algorithm: SimilarityAlgorithm::Diff,
            max_diff_bytes: 1048576,
        }
    }
}

/// Result of comparing two files line by line.
#[derive(Debug, Clone)]
pub struct TextComparisonResult {
    /// Stable identifier derived from both content hashes.
    pub linked_id: String,
    /// The two paths, as indexed.
    pub file1_path: String,
    pub file2_path: String,
    /// Line counts after normalization.
    pub file1_line_count: usize,
    pub file2_line_count: usize,
    /// Diff statistics over the edit transcript.
    pub common_lines: usize,
    pub only_in_file1: usize,
    pub only_in_file2: usize,
    /// Similarity score in parts per million.
    pub similarity_score: u64,
    /// Transcript positions of differences, as closed ranges.
    pub different_positions: String,
    /// Unified diff body, possibly truncated.
    pub detailed_diff: String,
    /// Whether the diff body hit the byte cap.
    pub diff_truncated: bool,
    /// Whether the files are identical under the normalization.
    pub identical: bool,
}

/// One sampled field mismatch of a table comparison.
#[derive(Debug, Clone, PartialEq, Eq)]
pub struct FieldMismatch {
    pub key: String,
    pub value1: String,
    pub value2: String,
}

/// Per-column mismatch statistics of a table comparison.
#[derive(Debug, Clone)]
pub struct ColumnMismatch {
    pub column_name: String,
    pub mismatch_count: usize,
    pub sample_mismatches: Vec<FieldMismatch>,
}

/// Result of comparing two delimited files by key.
#[derive(Debug, Clone)]
pub struct StructuredComparisonResult {
    /// Stable identifier derived from both content hashes.
    pub linked_id: String,
    /// The two paths, as indexed.
    pub file1_path: String,
    pub file2_path: String,
    /// Keyed row counts.
    pub file1_row_count: usize,
    pub file2_row_count: usize,
    /// Key statistics.
    pub common_records: usize,
    pub only_in_file1: usize,
    pub only_in_file2: usize,
    /// Similarity score in parts per million.
    pub similarity_score: u64,
    /// Per-column mismatch details.
    pub field_mismatches: Vec<ColumnMismatch>,
    /// Total field-level mismatches.
    pub total_field_mismatches: usize,
    /// Column set analysis.
    pub columns_only_in_file1: Vec<String>,
    pub columns_only_in_file2: Vec<String>,
    pub common_columns: Vec<String>,
    /// Whether the files are identical under the key and tolerance.
    pub identical: bool,
}

/// Tagged union over the comparison outcomes.
#[derive(Debug, Clone)]
pub enum ComparisonResult {
    Text(TextComparisonResult),
    Structured(StructuredComparisonResult),
    /// Hash-only comparison for binary files.
    HashOnly {
        linked_id: String,
        file1_path: String,
        file2_path: String,
        file1_size: u64,
        file2_size: u64,
        identical: bool,
    },
    /// A comparator failure isolated to its pair.
    Error {
        file1_path: String,
        file2_path: String,
        error: String,
    },
}

impl ComparisonResult {
    /// The stable identifier of the result; error results fall back to
    /// the first path.
    pub fn linked_id(&self) -> (r: &String)
        ensures
            r@ == match self {
                ComparisonResult::Text(t) => t.linked_id@,
                ComparisonResult::Structured(s) => s.linked_id@,
                ComparisonResult::HashOnly { linked_id, .. } => linked_id@,
                ComparisonResult::Error { file1_path, .. } => file1_path@,
            },
    {
        match self {
            ComparisonResult::Text(r) => &r.linked_id,
            ComparisonResult::Structured(r) => &r.linked_id,
            ComparisonResult::HashOnly { linked_id, .. } => linked_id,
            ComparisonResult::Error { file1_path, .. } => file1_path,
        }
    }

    /// The score of the result in parts per million; hash-only results
    /// score one or zero by identity, errors score zero.
    pub fn similarity_score(&self) -> (r: u64)
        ensures
            r == self.spec_similarity_score(),
    {
        match self {
            ComparisonResult::Text(r) => r.similarity_score,
            ComparisonResult::Structured(r) => r.similarity_score,
            ComparisonResult::HashOnly { identical, .. } => {
                if *identical {
                    SCORE_UNIT
                } else {
                    0
                }
            },
            ComparisonResult::Error { .. } => 0,
        }
    }

    /// Specification of `similarity_score`.
    pub open spec fn spec_similarity_score(&self) -> u64 {
        match self {
            ComparisonResult::Text(t) => t.similarity_score,
            ComparisonResult::Structured(s) => s.similarity_score,
            ComparisonResult::HashOnly { identical, .. } => if *identical {
                SCORE_UNIT
            } else {
                0
            },
            ComparisonResult::Error { .. } => 0,
        }
    }

    /// Whether the result reports identical files; errors never do.
    pub fn is_identical(&self) -> (r: bool)
        ensures
            r == self.spec_is_identical(),
    {
        match self {
            ComparisonResult::Text(r) => r.identical,
            ComparisonResult::Structured(r) => r.identical,
            ComparisonResult::HashOnly { identical, .. } => *identical,
            ComparisonResult::Error { .. } => false,
        }
    }

    /// Specification of `is_identical`.
    pub open spec fn spec_is_identical(&self) -> bool {
        match self {
            ComparisonResult::Text(t) => t.identical,
            ComparisonResult::Structured(s) => s.identical,
            ComparisonResult::HashOnly { identical, .. } => *identical,
            ComparisonResult::Error { .. } => false,
        }
    }

    /// Both paths carried by the result.
    pub fn file_paths(&self) -> (r: (&String, &String))
        ensures
            r.0@ == self.spec_file1_path(),
            r.1@ == self.spec_file2_path(),
    {
        match self {
            ComparisonResult::Text(r) => (&r.file1_path, &r.file2_path),
            ComparisonResult::Structured(r) => (&r.file1_path, &r.file2_path),
            ComparisonResult::HashOnly { file1_path, file2_path, .. } => (file1_path, file2_path),
            ComparisonResult::Error { file1_path, file2_path, .. } => (file1_path, file2_path),
        }
    }

    /// The first path of the result.
    pub open spec fn spec_file1_path(&self) -> Seq<char> {
        match self {
            ComparisonResult::Text(t) => t.file1_path@,
            ComparisonResult::Structured(s) => s.file1_path@,
            ComparisonResult::HashOnly { file1_path, .. } => file1_path@,
            ComparisonResult::Error { file1_path, .. } => file1_path@,
        }
    }

    /// The message of an error result; empty for the other variants.
    pub open spec fn spec_error_message(&self) -> Seq<char> {
        match self {
            ComparisonResult::Error { error, .. } => error@,
            _ => Seq::empty(),
        }
    }

    /// The second path of the result.
    pub open spec fn spec_file2_path(&self) -> Seq<char> {
        match self {
            ComparisonResult::Text(t) => t.file2_path@,
            ComparisonResult::Structured(s) => s.file2_path@,
            ComparisonResult::HashOnly { file2_path, .. } => file2_path@,
            ComparisonResult::Error { file2_path, .. } => file2_path@,
        }
    }
}

/// A candidate pair produced by the matcher.
#[derive(Debug, Clone)]
pub struct CandidatePair {
    pub file1: FileEntry,
    pub file2: FileEntry,
    /// Estimated similarity from fingerprints, in parts per million.
    pub estimated_similarity: u64,
    /// Whether the content hashes matched exactly.
    pub exact_hash_match: bool,
}

/// Aggregate statistics of one comparison run.  All similarity fields
/// are in parts per million; empty runs report zero.
#[derive(Debug, Clone)]
pub struct ComparisonSummary {
    pub total_files_set1: usize,
    pub total_files_set2: usize,
    pub pairs_compared: usize,
    pub identical_pairs: usize,
    pub different_pairs: usize,
    pub error_pairs: usize,
    pub average_similarity: u64,
    pub min_similarity: u64,
    pub max_similarity: u64,
}

} // verus!
