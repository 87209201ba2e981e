//! Line-level text comparison: edit transcript, counts, range-encoded
//! difference positions, similarity score and a bounded unified diff.

use vstd::prelude::*;
use crate::charsim::{jaro_winkler, jaro_winkler_ppm};
use crate::normalize::{normal_lines, normalize_text_lines};
use crate::text::{
    chars_of, dec_chars, dec_digits, decode_lossy, join, join_with, lossy_chars_of, split_lines,
    string_of, sub_chars,
};
use crate::types::{
    valid_score, CompareConfig, FileEntry, SimilarityAlgorithm, TextComparisonResult, SCORE_UNIT,
};

verus! {

/// One entry of an edit transcript.
#[derive(Debug, Clone, Copy, PartialEq, Eq, Structural)]
pub enum DiffTag {
    /// The line is present on both sides.
    Equal,
    /// The line is only in the first file.
    Delete,
    /// The line is only in the second file.
    Insert,
}

/// One tagged line of an edit transcript.
#[derive(Debug)]
pub struct DiffChange {
    pub tag: DiffTag,
    pub text: String,
}

/// The first file's text: what the non-insert entries spell out.
pub open spec fn concat_keep_old(tr: Seq<DiffChange>) -> Seq<char>
    decreases tr.len(),
{
    if tr.len() == 0 {
        Seq::empty()
    } else {
        concat_keep_old(tr.drop_last()) + (if tr.last().tag is Insert {
            Seq::<char>::empty()
        } else {
            tr.last().text@
        })
    }
}

/// The second file's text: what the non-delete entries spell out.
pub open spec fn concat_keep_new(tr: Seq<DiffChange>) -> Seq<char>
    decreases tr.len(),
{
    if tr.len() == 0 {
        Seq::empty()
    } else {
        concat_keep_new(tr.drop_last()) + (if tr.last().tag is Delete {
            Seq::<char>::empty()
        } else {
            tr.last().text@
        })
    }
}

/// A valid edit transcript of the two texts: reading it without the
/// insertions yields the old text, and without the deletions the new.
pub open spec fn valid_transcript(tr: Seq<DiffChange>, t1: Seq<char>, t2: Seq<char>) -> bool {
    concat_keep_old(tr) == t1 && concat_keep_new(tr) == t2
}

/// The edit transcript that similar's line differ computes for two
/// texts: a function of the texts alone, named so that counts and
/// positions derived from it are fixed by the inputs.
pub uninterp spec fn diff_of(old: Seq<char>, new: Seq<char>) -> Seq<(DiffTag, Seq<char>)>;

/// The transcript as tagged text values.
pub open spec fn change_views(tr: Seq<DiffChange>) -> Seq<(DiffTag, Seq<char>)> {
    tr.map_values(|c: DiffChange| (c.tag, c.text@))
}

/// Relies on similar's TextDiff::from_lines and iter_all_changes: the
/// emitted changes form an edit transcript of the two texts, with line
/// tokens that keep their terminators.
#[verifier::external_body]
fn diff_transcript(old_text: &str, new_text: &str) -> (r: Vec<DiffChange>)
    ensures
        valid_transcript(r@, old_text@, new_text@),
        change_views(r@) == diff_of(old_text@, new_text@),
{
    let diff = similar::TextDiff::from_lines(old_text, new_text);
    let mut out = Vec::new();
    for change in diff.iter_all_changes() {
        let tag = match change.tag() {
            similar::ChangeTag::Equal => DiffTag::Equal,
            similar::ChangeTag::Delete => DiffTag::Delete,
            similar::ChangeTag::Insert => DiffTag::Insert,
        };
        out.push(DiffChange { tag, text: change.value().to_string() });
    }
    out
}

/// How many entries carry the tag.
pub open spec fn count_tag(tr: Seq<DiffChange>, tag: DiffTag) -> nat
    decreases tr.len(),
{
    if tr.len() == 0 {
        0
    } else {
        count_tag(tr.drop_last(), tag) + (if tr.last().tag == tag {
            1nat
        } else {
            0nat
        })
    }
}

/// How many named-transcript entries carry the tag.
pub open spec fn count_tag_of(d: Seq<(DiffTag, Seq<char>)>, tag: DiffTag) -> nat
    decreases d.len(),
{
    if d.len() == 0 {
        0
    } else {
        count_tag_of(d.drop_last(), tag) + (if d.last().0 == tag {
            1nat
        } else {
            0nat
        })
    }
}

/// The difference positions of a named transcript, ascending.
pub open spec fn positions_of(d: Seq<(DiffTag, Seq<char>)>) -> Seq<usize>
    decreases d.len(),
{
    if d.len() == 0 {
        Seq::empty()
    } else if d.last().0 is Equal {
        positions_of(d.drop_last())
    } else {
        positions_of(d.drop_last()).push((d.len() - 1) as usize)
    }
}

/// Tag counts and positions agree between a transcript and its view.
pub proof fn lemma_views_counts(tr: Seq<DiffChange>)
    ensures
        forall|tag: DiffTag| count_tag(tr, tag) == count_tag_of(#[trigger] change_views(tr), tag),
        change_positions(tr) == positions_of(change_views(tr)),
    decreases tr.len(),
{
    if tr.len() == 0 {
        assert(change_views(tr) =~= Seq::<(DiffTag, Seq<char>)>::empty());
    } else {
        lemma_views_counts(tr.drop_last());
        assert(change_views(tr).drop_last() =~= change_views(tr.drop_last()));
        assert(change_views(tr).last() == (tr.last().tag, tr.last().text@));
        assert forall|tag: DiffTag| count_tag(tr, tag) == count_tag_of(
            #[trigger] change_views(tr),
            tag,
        ) by {
            assert(count_tag(tr.drop_last(), tag) == count_tag_of(
                change_views(tr.drop_last()),
                tag,
            ));
        }
    }
}

/// The transcript positions of the differences, ascending.
pub open spec fn change_positions(tr: Seq<DiffChange>) -> Seq<usize>
    decreases tr.len(),
{
    if tr.len() == 0 {
        Seq::empty()
    } else if tr.last().tag is Equal {
        change_positions(tr.drop_last())
    } else {
        change_positions(tr.drop_last()).push((tr.len() - 1) as usize)
    }
}

/// The length of the leading run of consecutive values.
pub open spec fn run_len(ps: Seq<usize>) -> nat
    decreases ps.len(),
{
    if ps.len() <= 1 {
        ps.len()
    } else if ps[1] == ps[0] + 1 {
        1 + run_len(ps.drop_first())
    } else {
        1
    }
}

/// The leading run spans at least one and at most all entries.
pub proof fn lemma_run_len_bounds(ps: Seq<usize>)
    requires
        ps.len() > 0,
    ensures
        1 <= run_len(ps) <= ps.len(),
    decreases ps.len(),
{
    if ps.len() > 1 && ps[1] == ps[0] + 1 {
        lemma_run_len_bounds(ps.drop_first());
    }
}

/// The run length is determined by where consecution first fails.
pub proof fn lemma_run_len_is(ps: Seq<usize>, r: int)
    requires
        1 <= r <= ps.len(),
        forall|m: int| 0 <= m < r - 1 ==> ps[m + 1] == (#[trigger] ps[m]) + 1,
        r == ps.len() || ps[r] != ps[r - 1] + 1,
    ensures
        run_len(ps) == r,
    decreases ps.len(),
{
    if ps.len() > 1 && ps[1] == ps[0] + 1 {
        let t = ps.drop_first();
        assert(forall|m: int| 0 <= m < t.len() ==> t[m] == ps[m + 1]);
        lemma_run_len_is(t, r - 1);
    }
}

/// The positions compressed to closed ranges: consecutive runs become
/// `a-b`, single positions stand alone, and runs are joined by commas.
pub open spec fn encode_ranges_spec(ps: Seq<usize>) -> Seq<char>
    decreases ps.len(),
{
    if ps.len() == 0 {
        Seq::empty()
    } else {
        let rl = run_len(ps);
        let piece = if rl == 1 {
            dec_digits(ps[0] as nat)
        } else {
            dec_digits(ps[0] as nat) + seq!['-'] + dec_digits(ps[rl - 1] as nat)
        };
        if rl >= ps.len() {
            piece
        } else {
            piece + seq![','] + encode_ranges_spec(ps.skip(rl as int))
        }
    }
}

/// Encodes a position list as comma-separated closed ranges; the empty
/// list encodes as the empty string.
#[verifier::rlimit(60)]
pub fn encode_ranges(positions: &[usize]) -> (r: String)
    ensures
        r@ == encode_ranges_spec(positions@),
{
    let mut out: Vec<char> = Vec::new();
    let mut start: usize = 0;
    let n = positions.len();
    proof {
        assert(positions@.skip(0) =~= positions@);
        assert(out@ + encode_ranges_spec(positions@) =~= encode_ranges_spec(positions@));
    }
    while start < n
        invariant
            0 <= start <= n == positions@.len(),
            encode_ranges_spec(positions@) == out@ + encode_ranges_spec(
                positions@.skip(start as int),
            ),
        decreases n - start,
    {
        let ghost rest = positions@.skip(start as int);
        let mut j = start;
        while j + 1 < n && positions[j] < usize::MAX && positions[j + 1] == positions[j] + 1
            invariant
                start <= j < n == positions@.len(),
                forall|m: int| start <= m < j ==> positions@[m + 1] == (#[trigger] positions@[m]) + 1,
            decreases n - j,
        {
            j = j + 1;
        }
        proof {
            assert(forall|m: int| 0 <= m < rest.len() ==> rest[m] == positions@[start + m]);
            lemma_run_len_bounds(rest);
            assert(j - start + 1 == rest.len() || rest[j - start + 1] != rest[j - start] + 1);
            lemma_run_len_is(rest, j - start + 1);
        }
        let ghost old_out = out@;
        let first = dec_chars(positions[start] as u64);
        let mut k: usize = 0;
        while k < first.len()
            invariant
                0 <= k <= first@.len(),
                out@ == old_out + first@.take(k as int),
            decreases first@.len() - k,
        {
            out.push(first[k]);
            k = k + 1;
            proof {
                assert(out@ =~= old_out + first@.take(k as int));
            }
        }
        proof {
            assert(first@.take(first@.len() as int) =~= first@);
        }
        if j > start {
            out.push('-');
            let lastd = dec_chars(positions[j] as u64);
            let ghost mid_out = out@;
            let mut k2: usize = 0;
            while k2 < lastd.len()
                invariant
                    0 <= k2 <= lastd@.len(),
                    out@ == mid_out + lastd@.take(k2 as int),
                decreases lastd@.len() - k2,
            {
                out.push(lastd[k2]);
                k2 = k2 + 1;
                proof {
                    assert(out@ =~= mid_out + lastd@.take(k2 as int));
                }
            }
            proof {
                assert(lastd@.take(lastd@.len() as int) =~= lastd@);
            }
        }
        proof {
            let rl = run_len(rest);
            assert(rl == j - start + 1);
            assert(rest[0] == positions@[start as int]);
            if j > start {
                assert(rest[rl - 1] == positions@[j as int]);
                assert(out@ =~= old_out + (dec_digits(positions@[start as int] as nat)
                    + seq!['-'] + dec_digits(positions@[j as int] as nat)));
            } else {
                assert(out@ =~= old_out + dec_digits(positions@[start as int] as nat));
            }
        }
        if j + 1 < n {
            out.push(',');
            proof {
                let rl = run_len(rest);
                assert(rest.skip(rl as int) =~= positions@.skip(j + 1));
                assert(encode_ranges_spec(rest) == (if rl == 1 {
                    dec_digits(rest[0] as nat)
                } else {
                    dec_digits(rest[0] as nat) + seq!['-'] + dec_digits(rest[rl - 1] as nat)
                }) + seq![','] + encode_ranges_spec(positions@.skip(j + 1)));
                assert(encode_ranges_spec(positions@) =~= out@ + encode_ranges_spec(
                    positions@.skip(j + 1),
                ));
            }
            start = j + 1;
        } else {
            proof {
                let rl = run_len(rest);
                assert(rl >= rest.len());
                assert(encode_ranges_spec(rest) == (if rl == 1 {
                    dec_digits(rest[0] as nat)
                } else {
                    dec_digits(rest[0] as nat) + seq!['-'] + dec_digits(rest[rl - 1] as nat)
                }));
                assert(positions@.skip(n as int) =~= Seq::<usize>::empty());
                assert(encode_ranges_spec(positions@) =~= out@ + encode_ranges_spec(
                    positions@.skip(n as int),
                ));
            }
            start = n;
        }
    }
    proof {
        assert(positions@.skip(n as int) =~= Seq::<usize>::empty());
        assert(out@ + Seq::<char>::empty() =~= out@);
    }
    string_of(&out)
}

/// The linked identifier of a pair: the first sixteen characters of
/// each content hash (or all of a shorter hash), joined by a colon.
pub open spec fn linked_id_of(h1: Seq<char>, h2: Seq<char>) -> Seq<char> {
    let p1 = if h1.len() <= 16 {
        h1
    } else {
        h1.take(16)
    };
    let p2 = if h2.len() <= 16 {
        h2
    } else {
        h2.take(16)
    };
    p1 + seq![':'] + p2
}

/// Builds the linked identifier from two hash strings.
pub fn make_linked_id(h1: &str, h2: &str) -> (r: String)
    ensures
        r@ == linked_id_of(h1@, h2@),
{
    let c1 = chars_of(h1);
    let c2 = chars_of(h2);
    let e1 = if c1.len() <= 16 {
        c1.len()
    } else {
        16
    };
    let e2 = if c2.len() <= 16 {
        c2.len()
    } else {
        16
    };
    let mut out = sub_chars(&c1, 0, e1);
    out.push(':');
    let p2 = sub_chars(&c2, 0, e2);
    let mut k: usize = 0;
    let ghost mid = out@;
    while k < p2.len()
        invariant
            0 <= k <= p2@.len(),
            out@ == mid + p2@.take(k as int),
        decreases p2@.len() - k,
    {
        out.push(p2[k]);
        k = k + 1;
        proof {
            assert(out@ =~= mid + p2@.take(k as int));
        }
    }
    proof {
        assert(p2@.take(p2@.len() as int) =~= p2@);
        if c1@.len() <= 16 {
            assert(c1@.subrange(0, e1 as int) =~= c1@);
        }
        if c2@.len() <= 16 {
            assert(c2@.subrange(0, e2 as int) =~= c2@);
        }
        assert(out@ =~= linked_id_of(h1@, h2@));
    }
    string_of(&out)
}

/// The diff-based similarity in parts per million: common lines over
/// all transcript lines, or one when the transcript is empty.
pub open spec fn diff_score_ppm(common: nat, only1: nat, only2: nat) -> u64 {
    let total = common + only1 + only2;
    if total == 0 {
        SCORE_UNIT
    } else {
        ((common * (SCORE_UNIT as nat)) / total) as u64
    }
}

/// Computes the diff-based similarity score.
pub fn diff_score(common: usize, only1: usize, only2: usize) -> (r: u64)
    ensures
        r == diff_score_ppm(common as nat, only1 as nat, only2 as nat),
        valid_score(r),
{
    proof {
        assert(SCORE_UNIT == 1000000);
    }
    let total = (common as u128) + (only1 as u128) + (only2 as u128);
    if total == 0 {
        SCORE_UNIT
    } else {
        let scaled = ((common as u128) * 1000000) / total;
        proof {
            assert((common as nat * 1000000) / (total as nat) <= 1000000) by (nonlinear_arith)
                requires
                    0 < total as nat,
                    common as nat <= total as nat,
            ;
        }
        scaled as u64
    }
}

/// The `---`/`+++` header of a unified diff.
pub open spec fn diff_header(p1: Seq<char>, p2: Seq<char>) -> Seq<char> {
    seq!['-', '-', '-', ' '] + p1 + seq!['\n', '+', '+', '+', ' '] + p2 + seq!['\n']
}

/// The literal marker appended to a truncated diff.
pub open spec fn trunc_marker() -> Seq<char> {
    seq![
        '\n',
        '.',
        '.',
        '.',
        ' ',
        '[',
        'd',
        'i',
        'f',
        'f',
        ' ',
        't',
        'r',
        'u',
        'n',
        'c',
        'a',
        't',
        'e',
        'd',
        ']',
        ' ',
        '.',
        '.',
        '.',
        '\n',
    ]
}

/// The UTF-8 length in bytes of one character.
pub open spec fn utf8_len_char(c: char) -> nat {
    if (c as u32) < 0x80 {
        1
    } else if (c as u32) < 0x800 {
        2
    } else if (c as u32) < 0x10000 {
        3
    } else {
        4
    }
}

/// The UTF-8 length in bytes of a text.
pub open spec fn utf8_len(s: Seq<char>) -> nat
    decreases s.len(),
{
    if s.len() == 0 {
        0
    } else {
        utf8_len(s.drop_last()) + utf8_len_char(s.last())
    }
}

/// Appends a piece to the output, tallying its byte length; the tally
/// saturates a little above the largest byte budget, which is already
/// past any cap a caller can set.
fn push_piece(out: &mut Vec<char>, bytes: &mut u128, piece: &Vec<char>)
    requires
        *old(bytes) <= 0x10000000000000010u128,
    ensures
        final(out)@ == old(out)@ + piece@,
        *old(bytes) <= *final(bytes) <= 0x10000000000000010u128,
{
    let ghost base = out@;
    let mut k: usize = 0;
    let n = piece.len();
    proof {
        assert(piece@.take(0) =~= Seq::<char>::empty());
        assert(base + piece@.take(0) =~= base);
    }
    while k < n
        invariant
            0 <= k <= n == piece@.len(),
            out@ == base + piece@.take(k as int),
            *old(bytes) <= *bytes <= 0x10000000000000010u128,
        decreases n - k,
    {
        let c = piece[k];
        let cl: u128 = if (c as u32) < 0x80 {
            1
        } else if (c as u32) < 0x800 {
            2
        } else if (c as u32) < 0x10000 {
            3
        } else {
            4
        };
        out.push(c);
        if *bytes <= 0xFFFFFFFFFFFFFFFF {
            *bytes = *bytes + cl;
        }
        k = k + 1;
        proof {
            assert(out@ =~= base + piece@.take(k as int));
        }
    }
    proof {
        assert(piece@.take(n as int) =~= piece@);
    }
}

/// The difference positions number exactly the non-equal entries.
pub proof fn lemma_positions_len(tr: Seq<DiffChange>)
    ensures
        change_positions(tr).len() == count_tag(tr, DiffTag::Delete) + count_tag(
            tr,
            DiffTag::Insert,
        ),
    decreases tr.len(),
{
    if tr.len() > 0 {
        lemma_positions_len(tr.drop_last());
    }
}

/// Every difference position indexes into the transcript.
pub proof fn lemma_positions_bounds(tr: Seq<DiffChange>)
    ensures
        forall|k: int|
            0 <= k < change_positions(tr).len() ==> (#[trigger] change_positions(tr)[k])
                < tr.len(),
    decreases tr.len(),
{
    if tr.len() > 0 {
        lemma_positions_bounds(tr.drop_last());
        let ps = change_positions(tr);
        let pt = change_positions(tr.drop_last());
        assert(forall|k: int| 0 <= k < pt.len() ==> pt[k] == ps[k]);
    }
}

/// Tallies the transcript: common, only-in-first, only-in-second.
fn tally_changes(changes: &Vec<DiffChange>) -> (r: (usize, usize, usize))
    ensures
        r.0 == count_tag(changes@, DiffTag::Equal),
        r.1 == count_tag(changes@, DiffTag::Delete),
        r.2 == count_tag(changes@, DiffTag::Insert),
{
    let mut eq: usize = 0;
    let mut del: usize = 0;
    let mut ins: usize = 0;
    let mut i: usize = 0;
    let n = changes.len();
    proof {
        assert(changes@.take(0) =~= Seq::<DiffChange>::empty());
    }
    while i < n
        invariant
            0 <= i <= n == changes@.len(),
            eq == count_tag(changes@.take(i as int), DiffTag::Equal),
            del == count_tag(changes@.take(i as int), DiffTag::Delete),
            ins == count_tag(changes@.take(i as int), DiffTag::Insert),
            eq + del + ins == i,
        decreases n - i,
    {
        proof {
            assert(changes@.take(i + 1).drop_last() =~= changes@.take(i as int));
            assert(changes@.take(i + 1).last() == changes@[i as int]);
        }
        match changes[i].tag {
            DiffTag::Equal => {
                eq = eq + 1;
            },
            DiffTag::Delete => {
                del = del + 1;
            },
            DiffTag::Insert => {
                ins = ins + 1;
            },
        }
        i = i + 1;
    }
    proof {
        assert(changes@.take(n as int) =~= changes@);
    }
    (eq, del, ins)
}

/// Collects the transcript positions of the differences.
fn collect_positions(changes: &Vec<DiffChange>) -> (r: Vec<usize>)
    ensures
        r@ == change_positions(changes@),
{
    let mut r: Vec<usize> = Vec::new();
    let mut i: usize = 0;
    let n = changes.len();
    proof {
        assert(changes@.take(0) =~= Seq::<DiffChange>::empty());
        assert(r@ =~= change_positions(changes@.take(0)));
    }
    while i < n
        invariant
            0 <= i <= n == changes@.len(),
            r@ == change_positions(changes@.take(i as int)),
        decreases n - i,
    {
        proof {
            assert(changes@.take(i + 1).drop_last() =~= changes@.take(i as int));
            assert(changes@.take(i + 1).last() == changes@[i as int]);
        }
        match changes[i].tag {
            DiffTag::Equal => {},
            _ => {
                r.push(i);
            },
        }
        i = i + 1;
        proof {
            assert(r@ =~= change_positions(changes@.take(i as int)));
        }
    }
    proof {
        assert(changes@.take(n as int) =~= changes@);
    }
    r
}

/// How many entries among the first `upto` are not inserts (the old
/// side) or not deletes (the new side).
fn count_side_upto(changes: &Vec<DiffChange>, upto: usize, old_side: bool) -> (r: usize)
    requires
        upto <= changes@.len(),
    ensures
        r <= upto,
{
    let mut c: usize = 0;
    let mut i: usize = 0;
    while i < upto
        invariant
            0 <= i <= upto <= changes@.len(),
            c <= i,
        decreases upto - i,
    {
        let skip = match changes[i].tag {
            DiffTag::Insert => old_side,
            DiffTag::Delete => !old_side,
            DiffTag::Equal => false,
        };
        if !skip {
            c = c + 1;
        }
        i = i + 1;
    }
    c
}

/// Builds the unified diff body: the `---`/`+++` header, hunks with a
/// context radius of three lines, and a truncation marker once the byte
/// budget is reached.  The contract pins the envelope of the body: the
/// header prefix, the exact all-equal case, and the marker suffix of a
/// truncated body.  The hunk interiors (the `@@` headers, prefixed
/// lines and context radius) and the converse truncation direction are
/// rendered by this verified code but are not pinned by the contract;
/// the runtime tests check them on concrete diffs.
#[verifier::rlimit(80)]
pub fn build_unified_diff(
    p1: &str,
    p2: &str,
    changes: &Vec<DiffChange>,
    max_bytes: usize,
) -> (r: (Vec<char>, bool))
    ensures
        r.0@.len() >= diff_header(p1@, p2@).len(),
        r.0@.take(diff_header(p1@, p2@).len() as int) == diff_header(p1@, p2@),
        (count_tag(changes@, DiffTag::Delete) + count_tag(changes@, DiffTag::Insert) == 0) ==> (
        r.0@ == diff_header(p1@, p2@) && !r.1),
        r.1 ==> r.0@.len() >= trunc_marker().len() && r.0@.skip(
            r.0@.len() - trunc_marker().len() as int,
        ) == trunc_marker(),
{
    let ghost header_seq = diff_header(p1@, p2@);
    let mut out: Vec<char> = Vec::new();
    let mut bytes: u128 = 0;
    out.push('-');
    out.push('-');
    out.push('-');
    out.push(' ');
    let p1c = chars_of(p1);
    push_piece(&mut out, &mut bytes, &p1c);
    out.push('\n');
    out.push('+');
    out.push('+');
    out.push('+');
    out.push(' ');
    let p2c = chars_of(p2);
    push_piece(&mut out, &mut bytes, &p2c);
    out.push('\n');
    let ghost hlen = header_seq.len() as int;
    proof {
        assert(out@ =~= header_seq);
    }
    if bytes <= 0xFFFFFFFFFFFFFFFF {
        bytes = bytes + 10;
    }
    let positions = collect_positions(changes);
    proof {
        lemma_positions_len(changes@);
        lemma_positions_bounds(changes@);
    }
    if positions.len() == 0 {
        return (out, false);
    }
    let mut truncated = false;
    let pn = positions.len();
    let cn = changes.len();
    let mut gs: usize = 0;
    while gs < pn
        invariant_except_break
            !truncated,
        invariant
            0 <= gs <= pn == positions@.len(),
            cn == changes@.len(),
            positions@ == change_positions(changes@),
            forall|k: int| 0 <= k < pn ==> (#[trigger] positions@[k]) < cn,
            out@.len() >= hlen,
            out@.take(hlen) == header_seq,
            hlen == header_seq.len(),
            header_seq == diff_header(p1@, p2@),
            bytes <= 0x10000000000000010u128,
        decreases pn - gs,
    {
        if bytes >= max_bytes as u128 {
            truncated = true;
            break;
        }
        let mut ge = gs;
        while ge + 1 < pn && positions[ge + 1] >= positions[ge] && positions[ge + 1] - positions[ge]
            <= 7
            invariant
                gs <= ge < pn == positions@.len(),
            decreases pn - ge,
        {
            ge = ge + 1;
        }
        let ps = positions[gs];
        let pe = positions[ge];
        let hs = if ps > 3 {
            ps - 3
        } else {
            0
        };
        let he = if cn - 1 <= pe || cn - 1 - pe <= 3 {
            cn - 1
        } else {
            pe + 3
        };
        let hs2 = if hs > he {
            he
        } else {
            hs
        };
        let old_start = count_side_upto(changes, hs2, true);
        let new_start = count_side_upto(changes, hs2, false);
        let old_upto = count_side_upto(changes, he + 1, true);
        let new_upto = count_side_upto(changes, he + 1, false);
        let old_len = if old_upto >= old_start {
            old_upto - old_start
        } else {
            0
        };
        let new_len = if new_upto >= new_start {
            new_upto - new_start
        } else {
            0
        };
        let mut hunk: Vec<char> = Vec::new();
        hunk.push('@');
        hunk.push('@');
        hunk.push(' ');
        hunk.push('-');
        let d1 = dec_chars((old_start as u64) + 1);
        append_chars(&mut hunk, &d1);
        hunk.push(',');
        let d2 = dec_chars(old_len as u64);
        append_chars(&mut hunk, &d2);
        hunk.push(' ');
        hunk.push('+');
        let d3 = dec_chars((new_start as u64) + 1);
        append_chars(&mut hunk, &d3);
        hunk.push(',');
        let d4 = dec_chars(new_len as u64);
        append_chars(&mut hunk, &d4);
        hunk.push(' ');
        hunk.push('@');
        hunk.push('@');
        hunk.push('\n');
        let ghost pre_hunk = out@;
        push_piece(&mut out, &mut bytes, &hunk);
        proof {
            assert(out@.take(hlen) =~= pre_hunk.take(hlen));
        }
        let mut t = hs2;
        while t <= he
            invariant_except_break
                !truncated,
            invariant
                0 <= t,
                hs2 <= t <= he + 1,
                he < cn == changes@.len(),
                out@.len() >= hlen,
                out@.take(hlen) == header_seq,
                hlen == header_seq.len(),
                bytes <= 0x10000000000000010u128,
            decreases he + 1 - t,
        {
            if bytes >= max_bytes as u128 {
                truncated = true;
                break;
            }
            let prefix = match changes[t].tag {
                DiffTag::Equal => ' ',
                DiffTag::Delete => '-',
                DiffTag::Insert => '+',
            };
            let mut line: Vec<char> = Vec::new();
            line.push(prefix);
            let tc = chars_of(changes[t].text.as_str());
            append_chars(&mut line, &tc);
            if line.len() == 0 || line[line.len() - 1] != '\n' {
                line.push('\n');
            }
            let ghost pre_line = out@;
            push_piece(&mut out, &mut bytes, &line);
            proof {
                assert(out@.take(hlen) =~= pre_line.take(hlen));
            }
            t = t + 1;
        }
        if truncated {
            break;
        }
        gs = ge + 1;
    }
    if truncated {
        let ghost pre_marker = out@;
        let marker = marker_chars();
        let mut k: usize = 0;
        while k < marker.len()
            invariant
                0 <= k <= marker@.len(),
                out@ == pre_marker + marker@.take(k as int),
            decreases marker@.len() - k,
        {
            out.push(marker[k]);
            k = k + 1;
            proof {
                assert(out@ =~= pre_marker + marker@.take(k as int));
            }
        }
        proof {
            assert(marker@.take(marker@.len() as int) =~= marker@);
            assert(out@ =~= pre_marker + trunc_marker());
            assert(out@.skip(out@.len() - trunc_marker().len() as int) =~= trunc_marker());
            assert(out@.take(hlen) =~= pre_marker.take(hlen));
        }
        (out, true)
    } else {
        (out, false)
    }
}

/// The truncation marker as characters.
fn marker_chars() -> (r: Vec<char>)
    ensures
        r@ == trunc_marker(),
{
    let m = "\n... [diff truncated] ...\n";
    let v = chars_of(m);
    proof {
        reveal_strlit("\n... [diff truncated] ...\n");
        assert(v@ =~= trunc_marker());
    }
    v
}

/// Appends characters to a vector.
fn append_chars(out: &mut Vec<char>, piece: &Vec<char>)
    ensures
        final(out)@ == old(out)@ + piece@,
{
    let ghost base = out@;
    let mut k: usize = 0;
    let n = piece.len();
    proof {
        assert(base + piece@.take(0) =~= base);
    }
    while k < n
        invariant
            0 <= k <= n == piece@.len(),
            out@ == base + piece@.take(k as int),
        decreases n - k,
    {
        out.push(piece[k]);
        k = k + 1;
        proof {
            assert(out@ =~= base + piece@.take(k as int));
        }
    }
    proof {
        assert(piece@.take(n as int) =~= piece@);
    }
}

/// Whether two entries are identical by content hash alone.
pub fn files_identical(file1: &FileEntry, file2: &FileEntry) -> (r: bool)
    ensures
        r == crate::matcher::hash_match_spec(*file1, *file2),
{
    crate::matcher::files_hash_match(file1, file2)
}

/// Compares two text files line by line over their decoded and
/// normalized contents.  The counts, positions and score describe one
/// edit transcript of the two normalized texts; equal texts always
/// compare identical with full similarity.
#[verifier::rlimit(80)]
/// The full postcondition of the text comparator, as one predicate so
/// that the dispatcher can promise it too.  The counts, positions and
/// score of two unequal normalized texts are fixed by the named diff of
/// the texts; equal texts short-circuit to an identical result.
pub open spec fn text_result_spec(
    r: TextComparisonResult,
    file1: FileEntry,
    file2: FileEntry,
    c1: Seq<u8>,
    c2: Seq<u8>,
    config: CompareConfig,
) -> bool {
    let l1 = normal_lines(lossy_chars_of(c1), config.normalization);
    let l2 = normal_lines(lossy_chars_of(c2), config.normalization);
    let t1 = join_with(l1, seq!['\n']);
    let t2 = join_with(l2, seq!['\n']);
    &&& r.file1_path@ == file1.path@
    &&& r.file2_path@ == file2.path@
    &&& r.linked_id@ == linked_id_of(file1.content_hash@, file2.content_hash@)
    &&& r.file1_line_count == l1.len()
    &&& r.file2_line_count == l2.len()
    &&& r.identical == (r.only_in_file1 == 0 && r.only_in_file2 == 0)
    &&& valid_score(r.similarity_score)
    &&& r.similarity_score == match config.similarity_algorithm {
        SimilarityAlgorithm::Diff => diff_score_ppm(
            r.common_lines as nat,
            r.only_in_file1 as nat,
            r.only_in_file2 as nat,
        ),
        SimilarityAlgorithm::CharJaro => if t1 == t2 {
            SCORE_UNIT
        } else {
            jaro_winkler_ppm(t1, t2)
        },
    }
    &&& t1 == t2 ==> {
        &&& r.identical
        &&& r.only_in_file1 == 0
        &&& r.only_in_file2 == 0
        &&& r.common_lines == split_lines(t1).len()
        &&& r.similarity_score == SCORE_UNIT
        &&& r.different_positions@.len() == 0
        &&& !r.diff_truncated
        &&& r.detailed_diff@ == diff_header(file1.path@, file2.path@)
    }
    &&& t1 != t2 ==> {
        &&& r.common_lines == count_tag_of(diff_of(t1, t2), DiffTag::Equal)
        &&& r.only_in_file1 == count_tag_of(diff_of(t1, t2), DiffTag::Delete)
        &&& r.only_in_file2 == count_tag_of(diff_of(t1, t2), DiffTag::Insert)
        &&& r.different_positions@ == encode_ranges_spec(positions_of(diff_of(t1, t2)))
        &&& exists|tr: Seq<DiffChange>|
            {
                &&& #[trigger] valid_transcript(tr, t1, t2)
                &&& change_views(tr) == diff_of(t1, t2)
            }
    }
    &&& r.detailed_diff@.len() >= diff_header(file1.path@, file2.path@).len()
    &&& r.detailed_diff@.take(diff_header(file1.path@, file2.path@).len() as int) == diff_header(
        file1.path@,
        file2.path@,
    )
    &&& r.diff_truncated ==> r.detailed_diff@.len() >= trunc_marker().len()
        && r.detailed_diff@.skip(r.detailed_diff@.len() - trunc_marker().len() as int)
        == trunc_marker()
}

pub fn compare_text_files(
    file1: &FileEntry,
    file2: &FileEntry,
    content1: &[u8],
    content2: &[u8],
    config: &CompareConfig,
) -> (r: TextComparisonResult)
    ensures
        text_result_spec(r, *file1, *file2, content1@, content2@, *config),
{
    let text1 = decode_lossy(content1);
    let text2 = decode_lossy(content2);
    let lines1 = normalize_text_lines(&text1, &config.normalization);
    let lines2 = normalize_text_lines(&text2, &config.normalization);
    let mut sep: Vec<char> = Vec::new();
    sep.push('\n');
    proof {
        assert(sep@ =~= seq!['\n']);
    }
    let t1 = join(&lines1, &sep);
    let t2 = join(&lines2, &sep);
    let linked_id = make_linked_id(file1.content_hash.as_str(), file2.content_hash.as_str());
    let file1_path = file1.path.clone();
    let file2_path = file2.path.clone();
    if crate::text::chars_eq(&t1, &t2) {
        let toks = crate::text::split_text_lines(&t1);
        let empty_changes: Vec<DiffChange> = Vec::new();
        let (body, truncated) = build_unified_diff(
            file1.path.as_str(),
            file2.path.as_str(),
            &empty_changes,
            config.max_diff_bytes,
        );
        proof {
            assert(count_tag(empty_changes@, DiffTag::Delete) == 0);
            assert(count_tag(empty_changes@, DiffTag::Insert) == 0);
            assert(toks.deep_view().len() == toks@.len());
            assert(SCORE_UNIT == 1000000);
            let c = toks@.len() as nat;
            if c > 0 {
                assert((c * 1000000nat) / c == 1000000) by (nonlinear_arith)
                    requires
                        c > 0,
                ;
            }
        }
        TextComparisonResult {
            linked_id,
            file1_path,
            file2_path,
            file1_line_count: lines1.len(),
            file2_line_count: lines2.len(),
            common_lines: toks.len(),
            only_in_file1: 0,
            only_in_file2: 0,
            similarity_score: SCORE_UNIT,
            different_positions: String::new(),
            detailed_diff: string_of(&body),
            diff_truncated: truncated,
            identical: true,
        }
    } else {
        let s1 = string_of(&t1);
        let s2 = string_of(&t2);
        let changes = diff_transcript(s1.as_str(), s2.as_str());
        let (common, only1, only2) = tally_changes(&changes);
        let positions = collect_positions(&changes);
        let positions_str = encode_ranges(positions.as_slice());
        let (body, truncated) = build_unified_diff(
            file1.path.as_str(),
            file2.path.as_str(),
            &changes,
            config.max_diff_bytes,
        );
        let score = match config.similarity_algorithm {
            SimilarityAlgorithm::Diff => diff_score(common, only1, only2),
            SimilarityAlgorithm::CharJaro => jaro_winkler(&t1, &t2),
        };
        let identical = only1 == 0 && only2 == 0;
        let r = TextComparisonResult {
            linked_id,
            file1_path,
            file2_path,
            file1_line_count: lines1.len(),
            file2_line_count: lines2.len(),
            common_lines: common,
            only_in_file1: only1,
            only_in_file2: only2,
            similarity_score: score,
            different_positions: positions_str,
            detailed_diff: string_of(&body),
            diff_truncated: truncated,
            identical,
        };
        proof {
            let gl1 = normal_lines(lossy_chars_of(content1@), config.normalization);
            let gl2 = normal_lines(lossy_chars_of(content2@), config.normalization);
            let gt1 = join_with(gl1, seq!['\n']);
            let gt2 = join_with(gl2, seq!['\n']);
            assert(t1@ == gt1 && t2@ == gt2);
            assert(valid_transcript(changes@, gt1, gt2));
            assert(change_views(changes@) == diff_of(gt1, gt2));
            lemma_views_counts(changes@);
            assert(r.common_lines == count_tag_of(diff_of(gt1, gt2), DiffTag::Equal));
            assert(r.only_in_file1 == count_tag_of(diff_of(gt1, gt2), DiffTag::Delete));
            assert(r.only_in_file2 == count_tag_of(diff_of(gt1, gt2), DiffTag::Insert));
            assert(r.different_positions@ == encode_ranges_spec(positions_of(diff_of(gt1, gt2))));
            assert(exists|tr: Seq<DiffChange>|
                {
                    &&& #[trigger] valid_transcript(tr, gt1, gt2)
                    &&& change_views(tr) == diff_of(gt1, gt2)
                });
        }
        r
    }
}

} // verus!
