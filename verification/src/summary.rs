//! Aggregate statistics over a result batch.

use vstd::prelude::*;
use crate::types::{valid_score, ComparisonResult, ComparisonSummary, SCORE_UNIT};

verus! {

/// How many results are errors.
pub open spec fn count_errors(rs: Seq<ComparisonResult>) -> nat
    decreases rs.len(),
{
    if rs.len() == 0 {
        0
    } else {
        count_errors(rs.drop_last()) + (if rs.last() is Error {
            1nat
        } else {
            0nat
        })
    }
}

/// How many non-error results report identical files.
pub open spec fn count_identical(rs: Seq<ComparisonResult>) -> nat
    decreases rs.len(),
{
    if rs.len() == 0 {
        0
    } else {
        count_identical(rs.drop_last()) + (if !(rs.last() is Error)
            && rs.last().spec_is_identical() {
            1nat
        } else {
            0nat
        })
    }
}

/// The summed similarity of the non-error results.
pub open spec fn score_sum(rs: Seq<ComparisonResult>) -> nat
    decreases rs.len(),
{
    if rs.len() == 0 {
        0
    } else {
        score_sum(rs.drop_last()) + (if rs.last() is Error {
            0nat
        } else {
            rs.last().spec_similarity_score() as nat
        })
    }
}

/// The least similarity among the non-error results, or zero with none.
pub open spec fn score_min(rs: Seq<ComparisonResult>) -> u64
    decreases rs.len(),
{
    if rs.len() == 0 {
        0u64
    } else if rs.last() is Error {
        score_min(rs.drop_last())
    } else if count_errors(rs.drop_last()) == rs.len() - 1 {
        rs.last().spec_similarity_score()
    } else if rs.last().spec_similarity_score() < score_min(rs.drop_last()) {
        rs.last().spec_similarity_score()
    } else {
        score_min(rs.drop_last())
    }
}

/// The greatest similarity among the non-error results, or zero.
pub open spec fn score_max(rs: Seq<ComparisonResult>) -> u64
    decreases rs.len(),
{
    if rs.len() == 0 {
        0u64
    } else if rs.last() is Error {
        score_max(rs.drop_last())
    } else if rs.last().spec_similarity_score() > score_max(rs.drop_last()) {
        rs.last().spec_similarity_score()
    } else {
        score_max(rs.drop_last())
    }
}

/// Aggregates a result batch: counts by outcome, and the average, least
/// and greatest similarity in parts per million, all zero on an empty
/// or all-error batch.
pub fn calculate_summary(
    results: &Vec<ComparisonResult>,
    total1: usize,
    total2: usize,
) -> (r: ComparisonSummary)
    ensures
        r.total_files_set1 == total1,
        r.total_files_set2 == total2,
        r.pairs_compared == results@.len(),
        r.error_pairs == count_errors(results@),
        r.identical_pairs == count_identical(results@),
        r.identical_pairs + r.different_pairs + r.error_pairs == results@.len(),
        results@.len() > count_errors(results@) ==> r.average_similarity as nat == score_sum(
            results@,
        ) / ((results@.len() - count_errors(results@)) as nat),
        results@.len() == count_errors(results@) ==> r.average_similarity == 0,
        r.min_similarity == score_min(results@),
        r.max_similarity == score_max(results@),
{
    let mut identical: usize = 0;
    let mut errors: usize = 0;
    let mut sum: u128 = 0;
    let mut mn: u64 = 0;
    let mut mx: u64 = 0;
    let mut seen: usize = 0;
    let mut i: usize = 0;
    let n = results.len();
    proof {
        assert(results@.take(0) =~= Seq::<ComparisonResult>::empty());
    }
    while i < n
        invariant
            0 <= i <= n == results@.len(),
            errors == count_errors(results@.take(i as int)),
            identical == count_identical(results@.take(i as int)),
            errors + seen == i,
            identical <= seen,
            sum == score_sum(results@.take(i as int)),
            mn == score_min(results@.take(i as int)),
            mx == score_max(results@.take(i as int)),
            seen == 0 ==> mn == 0 && mx == 0,
            sum <= (seen as u128) * 0xFFFFFFFFFFFFFFFFu128,
        decreases n - i,
    {
        proof {
            assert(results@.take(i + 1).drop_last() =~= results@.take(i as int));
            assert(results@.take(i + 1).last() == results@[i as int]);
            assert((seen as u128 + 1) * 0xFFFFFFFFFFFFFFFFu128 == (seen as u128)
                * 0xFFFFFFFFFFFFFFFFu128 + 0xFFFFFFFFFFFFFFFFu128) by (nonlinear_arith);
        }
        let res = &results[i];
        let is_err = matches!(res, ComparisonResult::Error { .. });
        if is_err {
            errors = errors + 1;
        } else {
            let sc = res.similarity_score();
            if res.is_identical() {
                identical = identical + 1;
            }
            sum = sum + (sc as u128);
            if seen == 0 {
                mn = sc;
                mx = sc;
            } else {
                if sc < mn {
                    mn = sc;
                }
                if sc > mx {
                    mx = sc;
                }
            }
            seen = seen + 1;
        }
        i = i + 1;
    }
    proof {
        assert(results@.take(n as int) =~= results@);
    }
    proof {
        if seen > 0 {
            assert(sum / (seen as u128) <= 0xFFFFFFFFFFFFFFFFu128) by (nonlinear_arith)
                requires
                    seen > 0,
                    sum <= (seen as u128) * 0xFFFFFFFFFFFFFFFFu128,
            ;
        }
    }
    let average: u64 = if seen == 0 {
        0
    } else {
        (sum / (seen as u128)) as u64
    };
    proof {
        if seen > 0 {
            assert(seen == results@.len() - count_errors(results@));
        }
    }
    ComparisonSummary {
        total_files_set1: total1,
        total_files_set2: total2,
        pairs_compared: results.len(),
        identical_pairs: identical,
        different_pairs: seen - identical,
        error_pairs: errors,
        average_similarity: average,
        min_similarity: mn,
        max_similarity: mx,
    }
}

} // verus!
