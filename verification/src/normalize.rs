//! Line normalization: the five switches applied to each line of a text.
//!
//! One routine serves both the fingerprinter and the comparators, so
//! fingerprints and diffs always see the same lines.

use vstd::prelude::*;
use crate::text::{
    case_fold, fold_case, is_blank, join, join_with, split_lines, split_text_lines,
    split_ws_tokens, trim_end, trim_end_ws, trim_ws, ws_tokens,
};
use crate::types::NormalizationOptions;

verus! {

/// One line after normalization: right-trim, whitespace collapse and
/// case folding, in that order, each applied only when switched on.
/// Splitting already treats CRLF and LF alike, so `ignore_eol` has no
/// further effect here.
pub open spec fn normal_line(l: Seq<char>, o: NormalizationOptions) -> Seq<char> {
    let a = if o.ignore_trailing_ws {
        trim_end_ws(l)
    } else {
        l
    };
    let b = if o.ignore_all_ws {
        join_with(split_ws_tokens(a), seq![' '])
    } else {
        a
    };
    if o.ignore_case {
        case_fold(b)
    } else {
        b
    }
}

/// Whether a normalized line is kept: with `skip_empty_lines` on, lines
/// that are blank after normalization are dropped.
pub open spec fn keep_line(l: Seq<char>, o: NormalizationOptions) -> bool {
    !o.skip_empty_lines || trim_ws(l).len() > 0
}

/// The normalized lines of a whole text: split, normalize each line,
/// then drop the lines that are not kept.
pub open spec fn normal_lines(t: Seq<char>, o: NormalizationOptions) -> Seq<Seq<char>> {
    split_lines(t).map_values(|l: Seq<char>| normal_line(l, o)).filter(
        |l: Seq<char>| keep_line(l, o),
    )
}

/// Normalizes one line.
pub fn normalize_line(line: &Vec<char>, o: &NormalizationOptions) -> (r: Vec<char>)
    ensures
        r@ == normal_line(line@, *o),
{
    let a = if o.ignore_trailing_ws {
        trim_end(line)
    } else {
        let mut c: Vec<char> = Vec::new();
        let mut i: usize = 0;
        let n = line.len();
        while i < n
            invariant
                0 <= i <= n == line@.len(),
                c@ == line@.take(i as int),
            decreases n - i,
        {
            c.push(line[i]);
            i = i + 1;
            proof {
                assert(c@ =~= line@.take(i as int));
            }
        }
        proof {
            assert(line@.take(n as int) =~= line@);
        }
        c
    };
    let b = if o.ignore_all_ws {
        let tokens = ws_tokens(&a);
        let mut space: Vec<char> = Vec::new();
        space.push(' ');
        proof {
            assert(space@ =~= seq![' ']);
        }
        join(&tokens, &space)
    } else {
        a
    };
    if o.ignore_case {
        fold_case(&b)
    } else {
        b
    }
}

/// Splits a text into lines and normalizes them.
pub fn normalize_text_lines(text: &Vec<char>, o: &NormalizationOptions) -> (r: Vec<Vec<char>>)
    ensures
        r.deep_view() == normal_lines(text@, *o),
{
    let lines = split_text_lines(text);
    let ghost mapped = split_lines(text@).map_values(|l: Seq<char>| normal_line(l, *o));
    let ghost kept = |l: Seq<char>| keep_line(l, *o);
    let mut r: Vec<Vec<char>> = Vec::new();
    let mut i: usize = 0;
    let n = lines.len();
    proof {
        assert(lines.deep_view().len() == lines@.len());
        assert(mapped.take(0) =~= Seq::<Seq<char>>::empty());
        assert(r.deep_view() =~= mapped.take(0).filter(kept));
    }
    while i < n
        invariant
            0 <= i <= n == lines@.len(),
            lines.deep_view() == split_lines(text@),
            mapped == split_lines(text@).map_values(|l: Seq<char>| normal_line(l, *o)),
            kept == (|l: Seq<char>| keep_line(l, *o)),
            r.deep_view() == mapped.take(i as int).filter(kept),
        decreases n - i,
    {
        let line = normalize_line(&lines[i], o);
        proof {
            assert(lines.deep_view()[i as int] == lines@[i as int].deep_view());
            assert(lines@[i as int].deep_view() =~= lines@[i as int]@);
            assert(line@ == normal_line(split_lines(text@)[i as int], *o));
            assert(mapped[i as int] == line@);
            assert(mapped.take(i + 1) =~= mapped.take(i as int).push(mapped[i as int]));
        }
        let ghost old_dv = r.deep_view();
        let keep = if o.skip_empty_lines {
            !is_blank(&line)
        } else {
            true
        };
        proof {
            mapped.take(i as int).lemma_filter_push(mapped[i as int], kept);
        }
        if keep {
            r.push(line);
            proof {
                assert(r.deep_view() =~~= old_dv.push(mapped[i as int]));
                assert(kept(mapped[i as int]));
                assert(mapped.take(i + 1).filter(kept) == mapped.take(i as int).push(
                    mapped[i as int],
                ).filter(kept));
                assert(r.deep_view() =~~= mapped.take(i + 1).filter(kept));
            }
        } else {
            proof {
                assert(!kept(mapped[i as int]));
                assert(mapped.take(i + 1).filter(kept) == mapped.take(i as int).push(
                    mapped[i as int],
                ).filter(kept));
                assert(r.deep_view() =~~= mapped.take(i + 1).filter(kept));
            }
        }
        i = i + 1;
    }
    proof {
        assert(mapped.take(n as int) =~= mapped);
    }
    r
}

} // verus!
