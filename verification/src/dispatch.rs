//! Per-pair dispatch: route each candidate pair to the hash-only, text
//! or table comparator and never let one pair's failure spread.

use vstd::prelude::*;
use crate::tablecmp::table_result_spec;
use crate::textcmp::{linked_id_of, text_result_spec};
use crate::types::{
    CandidatePair, CompareConfig, CompareMode, ComparisonResult, FileEntry, FileType,
    StructuredComparisonResult, TextComparisonResult, SCORE_UNIT,
};

verus! {

/// The mode an auto pair resolves to: structured when both sides are
/// tables, text otherwise.
pub open spec fn auto_mode_spec(f1: FileEntry, f2: FileEntry) -> CompareMode {
    if (f1.file_type is Csv || f1.file_type is Tsv) && (f2.file_type is Csv
        || f2.file_type is Tsv) {
        CompareMode::Structured
    } else {
        CompareMode::Text
    }
}

/// Resolves the comparison mode for a pair of entries.
pub fn auto_detect_mode(file1: &FileEntry, file2: &FileEntry) -> (r: CompareMode)
    ensures
        r == auto_mode_spec(*file1, *file2),
{
    let s1 = file1.file_type.is_structured();
    let s2 = file2.file_type.is_structured();
    if s1 && s2 {
        CompareMode::Structured
    } else {
        CompareMode::Text
    }
}

/// What the result of an exact hash match looks like, variant by
/// variant: hash-only with both sizes for binary pairs; an
/// all-identical table result carrying the first file's columns for
/// structured pairs; an all-identical text result otherwise.  Every
/// variant carries both paths, the linked identifier, full similarity
/// and the identity flag.
pub open spec fn identical_result_spec(r: ComparisonResult, f1: FileEntry, f2: FileEntry) -> bool {
    match r {
        ComparisonResult::HashOnly {
            linked_id,
            file1_path,
            file2_path,
            file1_size,
            file2_size,
            identical,
        } => {
            &&& f1.file_type is Binary || f2.file_type is Binary
            &&& linked_id@ == linked_id_of(f1.content_hash@, f2.content_hash@)
            &&& file1_path@ == f1.path@
            &&& file2_path@ == f2.path@
            &&& file1_size == f1.size
            &&& file2_size == f2.size
            &&& identical
        },
        ComparisonResult::Structured(t) => {
            &&& !(f1.file_type is Binary || f2.file_type is Binary)
            &&& (f1.file_type is Csv || f1.file_type is Tsv)
            &&& (f2.file_type is Csv || f2.file_type is Tsv)
            &&& t.linked_id@ == linked_id_of(f1.content_hash@, f2.content_hash@)
            &&& t.file1_path@ == f1.path@
            &&& t.file2_path@ == f2.path@
            &&& t.file1_row_count == f1.line_count
            &&& t.file2_row_count == f2.line_count
            &&& t.common_records == f1.line_count
            &&& t.only_in_file1 == 0
            &&& t.only_in_file2 == 0
            &&& t.similarity_score == SCORE_UNIT
            &&& t.field_mismatches@.len() == 0
            &&& t.total_field_mismatches == 0
            &&& t.columns_only_in_file1@.len() == 0
            &&& t.columns_only_in_file2@.len() == 0
            &&& t.common_columns.deep_view() == (if f1.columns is Some {
                f1.columns->Some_0.deep_view()
            } else {
                Seq::<Seq<char>>::empty()
            })
            &&& t.identical
        },
        ComparisonResult::Text(t) => {
            &&& !(f1.file_type is Binary || f2.file_type is Binary)
            &&& !((f1.file_type is Csv || f1.file_type is Tsv) && (f2.file_type is Csv
                || f2.file_type is Tsv))
            &&& t.linked_id@ == linked_id_of(f1.content_hash@, f2.content_hash@)
            &&& t.file1_path@ == f1.path@
            &&& t.file2_path@ == f2.path@
            &&& t.file1_line_count == f1.line_count
            &&& t.file2_line_count == f2.line_count
            &&& t.common_lines == f1.line_count
            &&& t.only_in_file1 == 0
            &&& t.only_in_file2 == 0
            &&& t.similarity_score == SCORE_UNIT
            &&& t.different_positions@.len() == 0
            &&& t.detailed_diff@.len() == 0
            &&& !t.diff_truncated
            &&& t.identical
        },
        ComparisonResult::Error { .. } => false,
    }
}

/// Builds the result of an exact hash match without re-reading either
/// file: hash-only for binary pairs, an all-identical table result for
/// structured pairs, an all-identical text result otherwise.
pub fn create_identical_result(file1: &FileEntry, file2: &FileEntry) -> (r: ComparisonResult)
    ensures
        identical_result_spec(r, *file1, *file2),
        r.spec_is_identical(),
        r.spec_similarity_score() == SCORE_UNIT,
        !(r is Error),
        r.spec_file1_path() == file1.path@,
        r.spec_file2_path() == file2.path@,
        (file1.file_type is Binary || file2.file_type is Binary) <==> r is HashOnly,
        !(file1.file_type is Binary || file2.file_type is Binary) && (file1.file_type is Csv
            || file1.file_type is Tsv) && (file2.file_type is Csv || file2.file_type is Tsv)
            <==> r is Structured,
{
    let linked_id = crate::textcmp::make_linked_id(
        file1.content_hash.as_str(),
        file2.content_hash.as_str(),
    );
    let b1 = matches!(file1.file_type, FileType::Binary);
    let b2 = matches!(file2.file_type, FileType::Binary);
    if b1 || b2 {
        ComparisonResult::HashOnly {
            linked_id,
            file1_path: file1.path.clone(),
            file2_path: file2.path.clone(),
            file1_size: file1.size,
            file2_size: file2.size,
            identical: true,
        }
    } else {
        let s1 = file1.file_type.is_structured();
        let s2 = file2.file_type.is_structured();
        if s1 && s2 {
            let common_columns = match &file1.columns {
                Some(cols) => crate::tablecmp::clone_columns(cols),
                None => Vec::new(),
            };
            proof {
                assert(common_columns.deep_view() =~~= (if file1.columns is Some {
                    file1.columns->Some_0.deep_view()
                } else {
                    Seq::<Seq<char>>::empty()
                }));
            }
            ComparisonResult::Structured(
                StructuredComparisonResult {
                    linked_id,
                    file1_path: file1.path.clone(),
                    file2_path: file2.path.clone(),
                    file1_row_count: file1.line_count,
                    file2_row_count: file2.line_count,
                    common_records: file1.line_count,
                    only_in_file1: 0,
                    only_in_file2: 0,
                    similarity_score: SCORE_UNIT,
                    field_mismatches: Vec::new(),
                    total_field_mismatches: 0,
                    columns_only_in_file1: Vec::new(),
                    columns_only_in_file2: Vec::new(),
                    common_columns,
                    identical: true,
                },
            )
        } else {
            ComparisonResult::Text(
                TextComparisonResult {
                    linked_id,
                    file1_path: file1.path.clone(),
                    file2_path: file2.path.clone(),
                    file1_line_count: file1.line_count,
                    file2_line_count: file2.line_count,
                    common_lines: file1.line_count,
                    only_in_file1: 0,
                    only_in_file2: 0,
                    similarity_score: SCORE_UNIT,
                    different_positions: String::new(),
                    detailed_diff: String::new(),
                    diff_truncated: false,
                    identical: true,
                },
            )
        }
    }
}

/// Builds the error result of a pair whose comparison failed outside
/// the library, carrying both paths and the message.
pub fn comparison_error(pair: &CandidatePair, error: String) -> (r: ComparisonResult)
    ensures
        r is Error,
        r.spec_file1_path() == pair.file1.path@,
        r.spec_file2_path() == pair.file2.path@,
        r.spec_error_message() == error@,
        !r.spec_is_identical(),
        r.spec_similarity_score() == 0,
{
    ComparisonResult::Error {
        file1_path: pair.file1.path.clone(),
        file2_path: pair.file2.path.clone(),
        error,
    }
}

/// Compares one candidate pair over the files' contents.  An exact
/// hash match short-circuits to an identical result; otherwise the
/// configured or auto-detected mode picks the comparator.
pub fn compare_pair(
    pair: &CandidatePair,
    content1: &[u8],
    content2: &[u8],
    config: &CompareConfig,
) -> (r: ComparisonResult)
    requires
        config.numeric_tolerance.wf(),
    ensures
        !(r is Error),
        r.spec_file1_path() == pair.file1.path@,
        r.spec_file2_path() == pair.file2.path@,
        pair.exact_hash_match ==> identical_result_spec(r, pair.file1, pair.file2)
            && r.spec_is_identical() && r.spec_similarity_score() == SCORE_UNIT,
        !pair.exact_hash_match ==> {
            let mode = match config.mode {
                CompareMode::Auto => auto_mode_spec(pair.file1, pair.file2),
                m => m,
            };
            &&& (mode is Structured <==> r is Structured)
            &&& (!(mode is Structured) <==> r is Text)
            &&& (mode is Structured ==> (r matches ComparisonResult::Structured(t)
                && table_result_spec(t, pair.file1, pair.file2, content1@, content2@, *config)))
            &&& (!(mode is Structured) ==> (r matches ComparisonResult::Text(t)
                && text_result_spec(t, pair.file1, pair.file2, content1@, content2@, *config)))
        },
{
    if pair.exact_hash_match {
        return create_identical_result(&pair.file1, &pair.file2);
    }
    let mode = match config.mode {
        CompareMode::Auto => auto_detect_mode(&pair.file1, &pair.file2),
        CompareMode::Text => CompareMode::Text,
        CompareMode::Structured => CompareMode::Structured,
    };
    match mode {
        CompareMode::Structured => {
            let res = crate::tablecmp::compare_structured_files(
                &pair.file1,
                &pair.file2,
                content1,
                content2,
                config,
            );
            ComparisonResult::Structured(res)
        },
        _ => {
            let res = crate::textcmp::compare_text_files(
                &pair.file1,
                &pair.file2,
                content1,
                content2,
                config,
            );
            ComparisonResult::Text(res)
        },
    }
}

} // verus!
