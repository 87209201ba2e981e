//! Candidate generation: pairing two file sets by path, by basename, or
//! all-vs-all with blocking rules and top-K selection.

use vstd::prelude::*;
use vstd::multiset::Multiset;
use crate::fingerprint::popcount64;
use crate::index::basename_spec;
use crate::text::chars_of;
use crate::types::{
    entry_like, CandidatePair, CompareConfig, FileEntry, PairingStrategy, SCORE_UNIT, valid_score,
};

verus! {

/// Extensions treated as plain text files.
pub open spec fn text_group(e: Seq<char>) -> bool {
    e == "txt"@ || e == "log"@ || e == "md"@ || e == "rst"@ || e.len() == 0
}

/// Extensions of delimited tables.
pub open spec fn table_group(e: Seq<char>) -> bool {
    e == "csv"@ || e == "tsv"@ || e == "tab"@
}

/// Extensions of source code files.
pub open spec fn code_group(e: Seq<char>) -> bool {
    e == "rs"@ || e == "py"@ || e == "js"@ || e == "ts"@ || e == "java"@ || e == "c"@ || e
        == "cpp"@ || e == "h"@ || e == "hpp"@ || e == "go"@
}

/// Extensions of configuration files.
pub open spec fn config_group(e: Seq<char>) -> bool {
    e == "json"@ || e == "yaml"@ || e == "yml"@ || e == "toml"@ || e == "ini"@ || e == "cfg"@
}

/// Two extensions are compatible when they are equal or lie in the same
/// predeclared group.
pub open spec fn extensions_compatible_spec(e1: Seq<char>, e2: Seq<char>) -> bool {
    ||| e1 == e2
    ||| (text_group(e1) && text_group(e2))
    ||| (table_group(e1) && table_group(e2))
    ||| (code_group(e1) && code_group(e2))
    ||| (config_group(e1) && config_group(e2))
}

/// String equality through character views.
fn str_eq(a: &str, b: &str) -> (r: bool)
    ensures
        r == (a@ == b@),
{
    let ca = chars_of(a);
    let cb = chars_of(b);
    crate::text::chars_eq(&ca, &cb)
}

/// Decides whether two extensions are compatible for pairing.
pub fn extensions_compatible(ext1: &str, ext2: &str) -> (r: bool)
    ensures
        r == extensions_compatible_spec(ext1@, ext2@),
{
    if str_eq(ext1, ext2) {
        return true;
    }
    let t1 = str_eq(ext1, "txt") || str_eq(ext1, "log") || str_eq(ext1, "md") || str_eq(
        ext1,
        "rst",
    ) || ext1.is_empty();
    let t2 = str_eq(ext2, "txt") || str_eq(ext2, "log") || str_eq(ext2, "md") || str_eq(
        ext2,
        "rst",
    ) || ext2.is_empty();
    if t1 && t2 {
        return true;
    }
    let c1 = str_eq(ext1, "csv") || str_eq(ext1, "tsv") || str_eq(ext1, "tab");
    let c2 = str_eq(ext2, "csv") || str_eq(ext2, "tsv") || str_eq(ext2, "tab");
    if c1 && c2 {
        return true;
    }
    let k1 = str_eq(ext1, "rs") || str_eq(ext1, "py") || str_eq(ext1, "js") || str_eq(ext1, "ts")
        || str_eq(ext1, "java") || str_eq(ext1, "c") || str_eq(ext1, "cpp") || str_eq(ext1, "h")
        || str_eq(ext1, "hpp") || str_eq(ext1, "go");
    let k2 = str_eq(ext2, "rs") || str_eq(ext2, "py") || str_eq(ext2, "js") || str_eq(ext2, "ts")
        || str_eq(ext2, "java") || str_eq(ext2, "c") || str_eq(ext2, "cpp") || str_eq(ext2, "h")
        || str_eq(ext2, "hpp") || str_eq(ext2, "go");
    if k1 && k2 {
        return true;
    }
    let g1 = str_eq(ext1, "json") || str_eq(ext1, "yaml") || str_eq(ext1, "yml") || str_eq(
        ext1,
        "toml",
    ) || str_eq(ext1, "ini") || str_eq(ext1, "cfg");
    let g2 = str_eq(ext2, "json") || str_eq(ext2, "yaml") || str_eq(ext2, "yml") || str_eq(
        ext2,
        "toml",
    ) || str_eq(ext2, "ini") || str_eq(ext2, "cfg");
    g1 && g2
}

/// The size-ratio blocking rule: when both sizes are positive, the
/// smaller must be at least a tenth of the larger.
pub open spec fn size_ratio_ok(s1: u64, s2: u64) -> bool {
    let mn = if s1 <= s2 {
        s1
    } else {
        s2
    };
    let mx = if s1 <= s2 {
        s2
    } else {
        s1
    };
    mn * 10 >= mx
}

/// The blocking rules of all-vs-all candidate consideration: compatible
/// extensions, a bounded size ratio, and never binary against
/// non-binary.  A schema mismatch does not block.
pub open spec fn passes_blocking_spec(f1: FileEntry, f2: FileEntry) -> bool {
    &&& extensions_compatible_spec(f1.extension@, f2.extension@)
    &&& (f1.size > 0 && f2.size > 0) ==> size_ratio_ok(f1.size, f2.size)
    &&& !(f1.file_type is Binary && !(f2.file_type is Binary))
    &&& !(!(f1.file_type is Binary) && f2.file_type is Binary)
}

/// Decides the blocking rules for one ordered pair of entries.
pub fn passes_blocking_rules(f1: &FileEntry, f2: &FileEntry) -> (r: bool)
    ensures
        r == passes_blocking_spec(*f1, *f2),
{
    if !extensions_compatible(f1.extension.as_str(), f2.extension.as_str()) {
        return false;
    }
    if f1.size > 0 && f2.size > 0 {
        let mn = if f1.size <= f2.size {
            f1.size
        } else {
            f2.size
        };
        let mx = if f1.size <= f2.size {
            f2.size
        } else {
            f1.size
        };
        if (mn as u128) * 10 < (mx as u128) {
            return false;
        }
    }
    let b1 = matches!(f1.file_type, crate::types::FileType::Binary);
    let b2 = matches!(f2.file_type, crate::types::FileType::Binary);
    b1 == b2
}

/// The estimated similarity of two entries, in parts per million:
/// one for an exact hash match; else the simhash similarity; else one
/// half for matching schema signatures; else three tenths of the size
/// ratio; else zero.
pub open spec fn estimate_spec(f1: FileEntry, f2: FileEntry) -> u64 {
    if f1.content_hash@.len() > 0 && f1.content_hash@ == f2.content_hash@ {
        SCORE_UNIT
    } else if f1.simhash is Some && f2.simhash is Some {
        ((64 - popcount64(f1.simhash->Some_0 ^ f2.simhash->Some_0)) * (SCORE_UNIT / 64)) as u64
    } else if f1.schema_signature is Some && f2.schema_signature is Some
        && f1.schema_signature->Some_0@ == f2.schema_signature->Some_0@ {
        (SCORE_UNIT / 2) as u64
    } else if f1.size > 0 && f2.size > 0 {
        ((min_u64(f1.size, f2.size) as int * ((SCORE_UNIT / 10) * 3)) / (max_u64(f1.size, f2.size) as int)) as u64
    } else {
        0
    }
}

/// The smaller of two sizes.
pub open spec fn min_u64(a: u64, b: u64) -> u64 {
    if a <= b {
        a
    } else {
        b
    }
}

/// The larger of two sizes.
pub open spec fn max_u64(a: u64, b: u64) -> u64 {
    if a <= b {
        b
    } else {
        a
    }
}

/// An estimate never exceeds one.
pub proof fn lemma_estimate_bounded(f1: FileEntry, f2: FileEntry)
    ensures
        valid_score(estimate_spec(f1, f2)),
{
    assert(SCORE_UNIT == 1000000);
    assert((SCORE_UNIT / 10) * 3 == 300000);
    assert(SCORE_UNIT / 64 == 15625);
    crate::fingerprint::lemma_count_bits_bound(f1.simhash->Some_0 ^ f2.simhash->Some_0, 64);
    if !(f1.content_hash@.len() > 0 && f1.content_hash@ == f2.content_hash@) && !(
    f1.simhash is Some && f2.simhash is Some) && !(f1.schema_signature is Some
        && f2.schema_signature is Some && f1.schema_signature->Some_0@
        == f2.schema_signature->Some_0@) && f1.size > 0 && f2.size > 0 {
        let mn = min_u64(f1.size, f2.size);
        let mx = max_u64(f1.size, f2.size);
        assert((mn as int * 300000) / (mx as int) <= 300000) by (nonlinear_arith)
            requires
                0 < mx,
                mn <= mx,
        ;
        assert(0 <= (mn as int * 300000) / (mx as int)) by (nonlinear_arith)
            requires
                0 < mx,
                0 <= mn,
        ;
    }
}

/// The estimate depends only on the observable fields, so it carries
/// over to copies of the entries.
pub proof fn lemma_estimate_like(a1: FileEntry, a2: FileEntry, b1: FileEntry, b2: FileEntry)
    requires
        entry_like(a1, a2),
        entry_like(b1, b2),
    ensures
        estimate_spec(a1, b1) == estimate_spec(a2, b2),
        passes_blocking_spec(a1, b1) == passes_blocking_spec(a2, b2),
{
}

/// Computes the estimated similarity of two entries.
pub fn estimate_similarity(f1: &FileEntry, f2: &FileEntry) -> (r: u64)
    ensures
        r == estimate_spec(*f1, *f2),
        valid_score(r),
{
    proof {
        lemma_estimate_bounded(*f1, *f2);
        assert(SCORE_UNIT == 1000000);
    }
    if !f1.content_hash.as_str().is_empty() && f1.content_hash == f2.content_hash {
        return SCORE_UNIT;
    }
    if let (Some(h1), Some(h2)) = (f1.simhash, f2.simhash) {
        return crate::fingerprint::simhash_similarity(h1, h2);
    }
    match (&f1.schema_signature, &f2.schema_signature) {
        (Some(s1), Some(s2)) => {
            if str_eq(s1.as_str(), s2.as_str()) {
                return SCORE_UNIT / 2;
            }
        },
        _ => {},
    }
    if f1.size > 0 && f2.size > 0 {
        let mn = if f1.size <= f2.size {
            f1.size
        } else {
            f2.size
        };
        let mx = if f1.size <= f2.size {
            f2.size
        } else {
            f1.size
        };
        proof {
            assert(mn as int * 300000 < 0x100000000000000000000000000000000) by (nonlinear_arith)
                requires
                    mn < 0x10000000000000000,
            ;
        }
        let scaled = (mn as u128) * 300000 / (mx as u128);
        proof {
            assert((mn as int * 300000) / (mx as int) <= 300000) by (nonlinear_arith)
                requires
                    0 < mx,
                    mn <= mx,
            ;
            assert(0 <= (mn as int * 300000) / (mx as int)) by (nonlinear_arith)
                requires
                    0 < mx,
                    0 <= mn,
            ;
            assert(scaled == (mn as int * 300000) / (mx as int));
            assert(SCORE_UNIT / 10 * 3 == 300000);
        }
        return scaled as u64;
    }
    0
}

/// Whether two entries count as an exact hash match: both hashes known
/// and equal.
pub open spec fn hash_match_spec(f1: FileEntry, f2: FileEntry) -> bool {
    f1.content_hash@.len() > 0 && f1.content_hash@ == f2.content_hash@
}

/// Every pair a matcher emits satisfies this: a valid score; a flagged
/// pair really has matching hashes and full score; an unflagged
/// all-vs-all pair passes the blocking rules and carries the exact
/// estimate of its two entries.
pub open spec fn sound_pair(p: CandidatePair) -> bool {
    &&& valid_score(p.estimated_similarity)
    &&& p.exact_hash_match ==> hash_match_spec(p.file1, p.file2)
        && p.estimated_similarity == SCORE_UNIT
    &&& !p.exact_hash_match ==> p.estimated_similarity == estimate_spec(p.file1, p.file2)
}

/// A sound pair that moreover passes blocking when not an exact match:
/// what the all-vs-all similarity pass guarantees.
pub open spec fn sound_avsa_pair(p: CandidatePair) -> bool {
    &&& sound_pair(p)
    &&& !p.exact_hash_match ==> passes_blocking_spec(p.file1, p.file2)
}

/// How many emitted pairs carry the given first path.
pub open spec fn cnt_path(s: Seq<CandidatePair>, p: Seq<char>) -> nat
    decreases s.len(),
{
    if s.len() == 0 {
        0
    } else {
        cnt_path(s.drop_last(), p) + (if s.last().file1.path@ == p {
            1nat
        } else {
            0nat
        })
    }
}

/// The count of a single pair.
pub proof fn lemma_cnt_singleton(x: CandidatePair, p: Seq<char>)
    ensures
        cnt_path(seq![x], p) == (if x.file1.path@ == p {
            1nat
        } else {
            0nat
        }),
{
    let s = seq![x];
    assert(s.len() == 1);
    assert(s.last() == x);
    assert(s.drop_last() =~= Seq::<CandidatePair>::empty());
    assert(cnt_path(s.drop_last(), p) == 0);
}

/// Path counts distribute over concatenation.
pub proof fn lemma_cnt_concat(a: Seq<CandidatePair>, b: Seq<CandidatePair>, p: Seq<char>)
    ensures
        cnt_path(a + b, p) == cnt_path(a, p) + cnt_path(b, p),
    decreases b.len(),
{
    if b.len() == 0 {
        assert(a + b =~= a);
    } else {
        assert((a + b).drop_last() =~= a + b.drop_last());
        assert((a + b).last() == b.last());
        lemma_cnt_concat(a, b.drop_last(), p);
    }
}

/// Inserting one pair raises exactly its own path count by one.
pub proof fn lemma_cnt_insert(s: Seq<CandidatePair>, i: int, x: CandidatePair, p: Seq<char>)
    requires
        0 <= i <= s.len(),
    ensures
        cnt_path(s.insert(i, x), p) == cnt_path(s, p) + (if x.file1.path@ == p {
            1nat
        } else {
            0nat
        }),
{
    assert(s.insert(i, x) =~= s.take(i) + (seq![x] + s.skip(i)));
    assert(s =~= s.take(i) + s.skip(i));
    lemma_cnt_concat(s.take(i), seq![x] + s.skip(i), p);
    lemma_cnt_concat(seq![x], s.skip(i), p);
    lemma_cnt_concat(s.take(i), s.skip(i), p);
    lemma_cnt_singleton(x, p);
}

/// A prefix never counts more than the whole.
pub proof fn lemma_cnt_prefix(s: Seq<CandidatePair>, m: int, p: Seq<char>)
    requires
        0 <= m <= s.len(),
    ensures
        cnt_path(s.take(m), p) <= cnt_path(s, p),
{
    assert(s =~= s.take(m) + s.skip(m));
    lemma_cnt_concat(s.take(m), s.skip(m), p);
}

/// Appending one pair raises exactly its own path count by one.
pub proof fn lemma_cnt_push(s: Seq<CandidatePair>, x: CandidatePair, p: Seq<char>)
    ensures
        cnt_path(s.push(x), p) == cnt_path(s, p) + (if x.file1.path@ == p {
            1nat
        } else {
            0nat
        }),
{
    assert(s.push(x).drop_last() =~= s);
}

/// Pairs sorted by descending estimated similarity.
pub open spec fn sorted_desc(s: Seq<CandidatePair>) -> bool {
    forall|k1: int, k2: int|
        0 <= k1 < k2 < s.len() ==> (#[trigger] s[k1].estimated_similarity)
            >= #[trigger] s[k2].estimated_similarity
}

/// Sorts pairs by descending estimated similarity, stably; every pair
/// keeps its identity, and every path keeps its count.
fn sort_pairs_desc(pairs: Vec<CandidatePair>) -> (r: Vec<CandidatePair>)
    ensures
        sorted_desc(r@),
        r@.to_multiset() == pairs@.to_multiset(),
        forall|p: Seq<char>| #[trigger] cnt_path(r@, p) == cnt_path(pairs@, p),
        r@.len() == pairs@.len(),
{
    let ghost orig = pairs@;
    let mut src = pairs;
    let mut r: Vec<CandidatePair> = Vec::new();
    proof {
        r@.to_multiset_ensures();
        orig.to_multiset_ensures();
        src@.to_multiset_ensures();
        assert(r@.to_multiset().add(src@.to_multiset()) =~= orig.to_multiset());
        assert forall|p: Seq<char>| #[trigger] cnt_path(r@, p) + cnt_path(src@, p) == cnt_path(
            orig,
            p,
        ) by {}
    }
    while src.len() > 0
        invariant
            orig.to_multiset() == r@.to_multiset().add(src@.to_multiset()),
            sorted_desc(r@),
            r@.len() + src@.len() == orig.len(),
            forall|p: Seq<char>| #[trigger] cnt_path(r@, p) + cnt_path(src@, p) == cnt_path(
                orig,
                p,
            ),
        decreases src@.len(),
    {
        let ghost old_src = src@;
        let x = src.remove(0);
        proof {
            assert(x == old_src[0]);
            assert(src@ =~= old_src.remove(0));
            vstd::seq_lib::to_multiset_remove(old_src, 0);
            old_src.to_multiset_ensures();
            assert(old_src.to_multiset().count(x) > 0);
            assert(old_src =~= seq![x] + src@);
            assert forall|p: Seq<char>| #[trigger] cnt_path(old_src, p) == cnt_path(src@, p) + (
            if x.file1.path@ == p {
                1nat
            } else {
                0nat
            }) by {
                lemma_cnt_concat(seq![x], src@, p);
                lemma_cnt_singleton(x, p);
            }
        }
        let mut pos: usize = 0;
        let rn = r.len();
        loop
            invariant
                0 <= pos <= rn == r@.len(),
                forall|k: int|
                    0 <= k < pos ==> (#[trigger] r@[k].estimated_similarity)
                        >= x.estimated_similarity,
            ensures
                0 <= pos <= rn,
                forall|k: int|
                    0 <= k < pos ==> (#[trigger] r@[k].estimated_similarity)
                        >= x.estimated_similarity,
                pos < rn ==> r@[pos as int].estimated_similarity < x.estimated_similarity,
            decreases rn - pos,
        {
            if pos >= rn {
                break;
            }
            if r[pos].estimated_similarity < x.estimated_similarity {
                break;
            }
            pos = pos + 1;
        }
        let ghost old_r = r@;
        r.insert(pos, x);
        proof {
            assert(r@ == old_r.insert(pos as int, x));
            assert(sorted_desc(r@)) by {
                assert forall|k1: int, k2: int|
                    0 <= k1 < k2 < r@.len() implies (#[trigger] r@[k1].estimated_similarity)
                    >= #[trigger] r@[k2].estimated_similarity by {
                    if k1 < pos && k2 == pos {
                    } else if k1 == pos && k2 > pos {
                        assert(r@[k2] == old_r[k2 - 1]);
                        if pos < k2 - 1 {
                            assert(old_r[pos as int].estimated_similarity >= old_r[k2
                                - 1].estimated_similarity);
                        }
                    } else if k1 < pos && k2 > pos {
                        assert(r@[k1] == old_r[k1] && r@[k2] == old_r[k2 - 1]);
                    } else if k2 < pos {
                        assert(r@[k1] == old_r[k1] && r@[k2] == old_r[k2]);
                    } else {
                        assert(r@[k1] == old_r[k1 - 1] && r@[k2] == old_r[k2 - 1]);
                    }
                }
            }
            vstd::seq_lib::to_multiset_insert(old_r, pos as int, x);
            assert forall|e: CandidatePair| true implies r@.to_multiset().add(
                src@.to_multiset(),
            ).count(e) == orig.to_multiset().count(e) by {
                assert(old_r.to_multiset().add(old_src.to_multiset()) == orig.to_multiset());
            }
            assert(r@.to_multiset().add(src@.to_multiset()) =~= orig.to_multiset());
            assert forall|p: Seq<char>| #[trigger] cnt_path(r@, p) + cnt_path(src@, p) == cnt_path(
                orig,
                p,
            ) by {
                lemma_cnt_insert(old_r, pos as int, x, p);
            }
        }
    }
    proof {
        assert(src@ =~= Seq::<CandidatePair>::empty());
        src@.to_multiset_ensures();
        assert forall|e: CandidatePair| true implies src@.to_multiset().count(e) == Multiset::<
            CandidatePair,
        >::empty().count(e) by {
            assert(!src@.contains(e));
        }
        assert(src@.to_multiset() =~= Multiset::<CandidatePair>::empty());
        assert(r@.to_multiset().add(src@.to_multiset()) =~= r@.to_multiset());
    }
    r
}

/// Everything in a multiset-equal rearrangement satisfies the same
/// pointwise property.
pub proof fn lemma_rearrangement_pointwise(
    a: Seq<CandidatePair>,
    b: Seq<CandidatePair>,
    prop: spec_fn(CandidatePair) -> bool,
)
    requires
        a.to_multiset() == b.to_multiset(),
        forall|k: int| 0 <= k < b.len() ==> prop(#[trigger] b[k]),
    ensures
        forall|k: int| 0 <= k < a.len() ==> prop(#[trigger] a[k]),
{
    a.to_multiset_ensures();
    b.to_multiset_ensures();
    assert forall|k: int| 0 <= k < a.len() implies prop(#[trigger] a[k]) by {
        assert(a.contains(a[k]));
        assert(a.to_multiset().count(a[k]) > 0);
        assert(b.contains(a[k]));
        let j = choose|j: int| 0 <= j < b.len() && b[j] == a[k];
        assert(prop(b[j]));
    }
}

/// No two entries share a path: what an indexed tree guarantees.
pub open spec fn distinct_paths(fs: Seq<FileEntry>) -> bool {
    forall|i: int, j: int|
        0 <= i < j < fs.len() ==> (#[trigger] fs[i].path@) != (#[trigger] fs[j].path@)
}

/// A path count is zero exactly when no pair carries the path.
pub proof fn lemma_cnt_zero_iff(s: Seq<CandidatePair>, p: Seq<char>)
    ensures
        cnt_path(s, p) == 0 <==> forall|k: int|
            0 <= k < s.len() ==> (#[trigger] s[k].file1.path@) != p,
    decreases s.len(),
{
    if s.len() > 0 {
        lemma_cnt_zero_iff(s.drop_last(), p);
        assert(forall|k: int| 0 <= k < s.len() - 1 ==> s[k] == s.drop_last()[k]);
        assert(s.last() == s[s.len() - 1]);
    }
}

/// Pairwise-distinct first paths keep every count at one or below.
pub proof fn lemma_cnt_distinct(s: Seq<CandidatePair>, p: Seq<char>)
    requires
        forall|k1: int, k2: int|
            0 <= k1 < k2 < s.len() ==> (#[trigger] s[k1].file1.path@) != (
            #[trigger] s[k2].file1.path@),
    ensures
        cnt_path(s, p) <= 1,
    decreases s.len(),
{
    if s.len() > 0 {
        let t = s.drop_last();
        assert(forall|k: int| 0 <= k < t.len() ==> t[k] == s[k]);
        lemma_cnt_distinct(t, p);
        if s.last().file1.path@ == p {
            assert(forall|k: int| 0 <= k < t.len() ==> (#[trigger] t[k].file1.path@) != p) by {
                assert(forall|k: int|
                    0 <= k < t.len() ==> (#[trigger] s[k]).file1.path@ != s[s.len()
                        - 1].file1.path@);
            }
            lemma_cnt_zero_iff(t, p);
        }
    }
}

/// The per-source cap: at least one pair may come from the hash pass
/// even when `top_k` is zero.
pub open spec fn cap_of(top_k: usize) -> nat {
    if top_k == 0 {
        1nat
    } else {
        top_k as nat
    }
}

/// A pair drawn from the two sets: each side agrees with some entry of
/// its set in every observable field.
pub open spec fn pair_from(p: CandidatePair, fs1: Seq<FileEntry>, fs2: Seq<FileEntry>) -> bool {
    exists|i: int, j: int|
        0 <= i < fs1.len() && 0 <= j < fs2.len() && entry_like(p.file1, #[trigger] fs1[i])
            && entry_like(p.file2, #[trigger] fs2[j])
}

/// Whether the entries' content hashes match exactly.
pub fn files_hash_match(f1: &FileEntry, f2: &FileEntry) -> (r: bool)
    ensures
        r == hash_match_spec(*f1, *f2),
{
    !f1.content_hash.as_str().is_empty() && f1.content_hash == f2.content_hash
}

/// The first position of a path in a file list, or -1.
pub open spec fn first_path_index(fs2: Seq<FileEntry>, p: Seq<char>) -> int
    decreases fs2.len(),
{
    if fs2.len() == 0 {
        -1
    } else if fs2[0].path@ == p {
        0
    } else {
        let r = first_path_index(fs2.drop_first(), p);
        if r < 0 {
            -1
        } else {
            r + 1
        }
    }
}

/// A first hit with nothing before it fixes `first_path_index`.
pub proof fn lemma_first_path_index_at(fs2: Seq<FileEntry>, p: Seq<char>, j: int)
    requires
        0 <= j < fs2.len(),
        fs2[j].path@ == p,
        forall|k: int| 0 <= k < j ==> (#[trigger] fs2[k]).path@ != p,
    ensures
        first_path_index(fs2, p) == j,
    decreases fs2.len(),
{
    if j > 0 {
        assert(forall|k: int|
            0 <= k < fs2.drop_first().len() ==> #[trigger] fs2.drop_first()[k] == fs2[k + 1]);
        lemma_first_path_index_at(fs2.drop_first(), p, j - 1);
    }
}

/// With no hit at all, `first_path_index` is -1.
pub proof fn lemma_first_path_index_none(fs2: Seq<FileEntry>, p: Seq<char>)
    requires
        forall|k: int| 0 <= k < fs2.len() ==> (#[trigger] fs2[k]).path@ != p,
    ensures
        first_path_index(fs2, p) == -1,
    decreases fs2.len(),
{
    if fs2.len() > 0 {
        assert(forall|k: int|
            0 <= k < fs2.drop_first().len() ==> #[trigger] fs2.drop_first()[k] == fs2[k + 1]);
        lemma_first_path_index_none(fs2.drop_first(), p);
    }
}

/// The index pairs the same-path strategy emits: for each side-1 entry
/// in order, the first side-2 position with the same path, if any.
pub open spec fn same_path_indices(fs1: Seq<FileEntry>, fs2: Seq<FileEntry>) -> Seq<(int, int)>
    decreases fs1.len(),
{
    if fs1.len() == 0 {
        Seq::empty()
    } else {
        let rest = same_path_indices(fs1.drop_last(), fs2);
        let j = first_path_index(fs2, fs1.last().path@);
        if j >= 0 {
            rest.push((fs1.len() - 1, j))
        } else {
            rest
        }
    }
}

/// An emitted pair realizes one index pair: both sides agree field for
/// field with the indexed entries, and the estimate and hash flag are
/// exactly those of the indexed entries.
pub open spec fn pair_at(
    p: CandidatePair,
    fs1: Seq<FileEntry>,
    fs2: Seq<FileEntry>,
    i: int,
    j: int,
) -> bool {
    &&& 0 <= i < fs1.len()
    &&& 0 <= j < fs2.len()
    &&& entry_like(p.file1, fs1[i])
    &&& entry_like(p.file2, fs2[j])
    &&& p.estimated_similarity == estimate_spec(fs1[i], fs2[j])
    &&& p.exact_hash_match == hash_match_spec(fs1[i], fs2[j])
}

/// Matches entries of the first set with entries of the second that
/// carry the same path: exactly one pair for each side-1 entry whose
/// path occurs on side 2 (joined to its first occurrence), in side-1
/// order, with the exact estimate and hash-match flag.
pub fn match_by_path(files1: &Vec<FileEntry>, files2: &Vec<FileEntry>) -> (r: Vec<CandidatePair>)
    ensures
        r@.len() == same_path_indices(files1@, files2@).len(),
        forall|k: int|
            0 <= k < r@.len() ==> pair_at(
                #[trigger] r@[k],
                files1@,
                files2@,
                same_path_indices(files1@, files2@)[k].0,
                same_path_indices(files1@, files2@)[k].1,
            ),
        r@.len() <= files1@.len(),
        forall|k: int| 0 <= k < r@.len() ==> sound_pair(#[trigger] r@[k]),
        forall|k: int|
            0 <= k < r@.len() ==> (#[trigger] r@[k]).file1.path@ == r@[k].file2.path@,
        forall|k: int| 0 <= k < r@.len() ==> pair_from(#[trigger] r@[k], files1@, files2@),
{
    let mut r: Vec<CandidatePair> = Vec::new();
    let mut i: usize = 0;
    let n1 = files1.len();
    let n2 = files2.len();
    proof {
        assert(files1@.take(0) =~= Seq::<FileEntry>::empty());
    }
    while i < n1
        invariant
            0 <= i <= n1 == files1@.len(),
            n2 == files2@.len(),
            r@.len() == same_path_indices(files1@.take(i as int), files2@).len(),
            forall|k: int|
                0 <= k < r@.len() ==> pair_at(
                    #[trigger] r@[k],
                    files1@,
                    files2@,
                    same_path_indices(files1@.take(i as int), files2@)[k].0,
                    same_path_indices(files1@.take(i as int), files2@)[k].1,
                ),
            r@.len() <= i,
            forall|k: int| 0 <= k < r@.len() ==> sound_pair(#[trigger] r@[k]),
            forall|k: int|
                0 <= k < r@.len() ==> (#[trigger] r@[k]).file1.path@ == r@[k].file2.path@,
            forall|k: int| 0 <= k < r@.len() ==> pair_from(#[trigger] r@[k], files1@, files2@),
        decreases n1 - i,
    {
        let ghost pre = same_path_indices(files1@.take(i as int), files2@);
        let mut j: usize = 0;
        let mut found: Option<usize> = None;
        loop
            invariant_except_break
                found is None,
            invariant
                0 <= j <= n2 == files2@.len(),
                i < files1@.len(),
                forall|k: int|
                    0 <= k < j ==> (#[trigger] files2@[k]).path@ != files1@[i as int].path@,
            ensures
                found is None ==> forall|k: int|
                    0 <= k < n2 ==> (#[trigger] files2@[k]).path@ != files1@[i as int].path@,
                found is Some ==> {
                    &&& found->Some_0 < files2@.len()
                    &&& files2@[found->Some_0 as int].path@ == files1@[i as int].path@
                    &&& forall|k: int|
                        0 <= k < found->Some_0 ==> (#[trigger] files2@[k]).path@
                            != files1@[i as int].path@
                },
            decreases n2 - j,
        {
            if j >= n2 {
                break;
            }
            if str_eq(files1[i].path.as_str(), files2[j].path.as_str()) {
                found = Some(j);
                break;
            }
            j = j + 1;
        }
        proof {
            assert(files1@.take(i + 1).drop_last() =~= files1@.take(i as int));
            assert(files1@.take(i + 1).last() == files1@[i as int]);
        }
        if let Some(j2) = found {
            proof {
                lemma_first_path_index_at(files2@, files1@[i as int].path@, j2 as int);
            }
            let est = estimate_similarity(&files1[i], &files2[j2]);
            let exact = files_hash_match(&files1[i], &files2[j2]);
            let pair = CandidatePair {
                file1: files1[i].clone(),
                file2: files2[j2].clone(),
                estimated_similarity: est,
                exact_hash_match: exact,
            };
            proof {
                lemma_estimate_like(
                    pair.file1,
                    files1@[i as int],
                    pair.file2,
                    files2@[j2 as int],
                );
                lemma_estimate_bounded(pair.file1, pair.file2);
                assert(sound_pair(pair));
                assert(pair_at(pair, files1@, files2@, i as int, j2 as int));
            }
            let ghost old_r = r@;
            r.push(pair);
            proof {
                assert(forall|k: int| 0 <= k < old_r.len() ==> r@[k] == old_r[k]);
                assert(same_path_indices(files1@.take(i + 1), files2@) =~= pre.push(
                    (i as int, j2 as int),
                ));
                assert(pair_from(r@[r@.len() - 1], files1@, files2@));
            }
        } else {
            proof {
                lemma_first_path_index_none(files2@, files1@[i as int].path@);
                assert(same_path_indices(files1@.take(i + 1), files2@) =~= pre);
            }
        }
        i = i + 1;
    }
    proof {
        assert(files1@.take(n1 as int) =~= files1@);
    }
    r
}

/// The side-2 position the same-name strategy picks for one entry: the
/// first same-basename candidate of maximal estimate, or -1 with none.
pub open spec fn best_name_index(f1: FileEntry, fs2: Seq<FileEntry>) -> int
    decreases fs2.len(),
{
    if fs2.len() == 0 {
        -1
    } else {
        let b = best_name_index(f1, fs2.drop_last());
        let j = fs2.len() - 1;
        if basename_spec(fs2[j].path@) == basename_spec(f1.path@) && (b < 0 || estimate_spec(
            f1,
            fs2[j],
        ) > estimate_spec(f1, fs2[b])) {
            j
        } else {
            b
        }
    }
}

/// The picked position is in range, names a same-basename candidate,
/// and is absent only when no candidate has the basename.
pub proof fn lemma_best_name_index(f1: FileEntry, fs2: Seq<FileEntry>)
    ensures
        -1 <= best_name_index(f1, fs2) < fs2.len(),
        best_name_index(f1, fs2) >= 0 ==> basename_spec(fs2[best_name_index(f1, fs2)].path@)
            == basename_spec(f1.path@),
        best_name_index(f1, fs2) < 0 ==> forall|k: int|
            0 <= k < fs2.len() ==> basename_spec((#[trigger] fs2[k]).path@) != basename_spec(
                f1.path@,
            ),
    decreases fs2.len(),
{
    if fs2.len() > 0 {
        lemma_best_name_index(f1, fs2.drop_last());
        assert(forall|k: int|
            0 <= k < fs2.len() - 1 ==> #[trigger] fs2[k] == fs2.drop_last()[k]);
    }
}

/// The index pairs the same-name strategy emits: for each side-1 entry
/// in order, its best same-basename candidate, if any.
pub open spec fn same_name_indices(fs1: Seq<FileEntry>, fs2: Seq<FileEntry>) -> Seq<(int, int)>
    decreases fs1.len(),
{
    if fs1.len() == 0 {
        Seq::empty()
    } else {
        let rest = same_name_indices(fs1.drop_last(), fs2);
        let j = best_name_index(fs1.last(), fs2);
        if j >= 0 {
            rest.push((fs1.len() - 1, j))
        } else {
            rest
        }
    }
}

/// Matches entries of the first set with the best same-basename entry
/// of the second set: the emitted score is at least the estimate
/// against every same-basename candidate, with ties broken in favour of
/// the candidate met first.
pub fn match_by_name(files1: &Vec<FileEntry>, files2: &Vec<FileEntry>) -> (r: Vec<CandidatePair>)
    ensures
        r@.len() == same_name_indices(files1@, files2@).len(),
        forall|k: int|
            0 <= k < r@.len() ==> pair_at(
                #[trigger] r@[k],
                files1@,
                files2@,
                same_name_indices(files1@, files2@)[k].0,
                same_name_indices(files1@, files2@)[k].1,
            ),
        r@.len() <= files1@.len(),
        forall|k: int| 0 <= k < r@.len() ==> sound_pair(#[trigger] r@[k]),
        forall|k: int| 0 <= k < r@.len() ==> pair_from(#[trigger] r@[k], files1@, files2@),
        forall|k: int|
            0 <= k < r@.len() ==> basename_spec((#[trigger] r@[k]).file1.path@) == basename_spec(
                r@[k].file2.path@,
            ),
        forall|k: int, j: int|
            0 <= k < r@.len() && 0 <= j < files2@.len() && basename_spec(
                (#[trigger] files2@[j]).path@,
            ) == basename_spec((#[trigger] r@[k]).file1.path@) && !r@[k].exact_hash_match
                ==> r@[k].estimated_similarity >= estimate_spec(r@[k].file1, files2@[j]),
{
    let mut r: Vec<CandidatePair> = Vec::new();
    let mut i: usize = 0;
    let n1 = files1.len();
    let n2 = files2.len();
    proof {
        assert(files1@.take(0) =~= Seq::<FileEntry>::empty());
    }
    while i < n1
        invariant
            0 <= i <= n1 == files1@.len(),
            n2 == files2@.len(),
            r@.len() == same_name_indices(files1@.take(i as int), files2@).len(),
            forall|k: int|
                0 <= k < r@.len() ==> pair_at(
                    #[trigger] r@[k],
                    files1@,
                    files2@,
                    same_name_indices(files1@.take(i as int), files2@)[k].0,
                    same_name_indices(files1@.take(i as int), files2@)[k].1,
                ),
            r@.len() <= i,
            forall|k: int| 0 <= k < r@.len() ==> sound_pair(#[trigger] r@[k]),
            forall|k: int| 0 <= k < r@.len() ==> pair_from(#[trigger] r@[k], files1@, files2@),
            forall|k: int|
                0 <= k < r@.len() ==> basename_spec((#[trigger] r@[k]).file1.path@)
                    == basename_spec(r@[k].file2.path@),
            forall|k: int, j: int|
                0 <= k < r@.len() && 0 <= j < files2@.len() && basename_spec(
                    (#[trigger] files2@[j]).path@,
                ) == basename_spec((#[trigger] r@[k]).file1.path@) && !r@[k].exact_hash_match
                    ==> r@[k].estimated_similarity >= estimate_spec(r@[k].file1, files2@[j]),
        decreases n1 - i,
    {
        let ghost pre = same_name_indices(files1@.take(i as int), files2@);
        let b1 = crate::index::basename_of(files1[i].path.as_str());
        let mut j: usize = 0;
        let mut best: Option<usize> = None;
        let mut best_score: u64 = 0;
        proof {
            assert(files2@.take(0) =~= Seq::<FileEntry>::empty());
        }
        while j < n2
            invariant
                0 <= j <= n2 == files2@.len(),
                i < files1@.len(),
                b1@ == basename_spec(files1@[i as int].path@),
                best is None <==> best_name_index(files1@[i as int], files2@.take(j as int)) < 0,
                best is Some ==> {
                    &&& best->Some_0 < files2@.len()
                    &&& best->Some_0 == best_name_index(
                        files1@[i as int],
                        files2@.take(j as int),
                    )
                    &&& basename_spec(files2@[best->Some_0 as int].path@) == b1@
                    &&& best_score == estimate_spec(
                        files1@[i as int],
                        files2@[best->Some_0 as int],
                    )
                },
                best is Some ==> forall|j2: int|
                    0 <= j2 < j && basename_spec((#[trigger] files2@[j2]).path@) == b1@
                        ==> best_score >= estimate_spec(files1@[i as int], files2@[j2]),
            decreases n2 - j,
        {
            proof {
                assert(files2@.take(j + 1).drop_last() =~= files2@.take(j as int));
                assert(files2@.take(j + 1).last() == files2@[j as int]);
            }
            proof {
                let f1v = files1@[i as int];
                lemma_best_name_index(f1v, files2@.take(j as int));
                let b = best_name_index(f1v, files2@.take(j as int));
                assert(best_name_index(f1v, files2@.take(j + 1).drop_last()) == b);
                assert(files2@.take(j + 1)[j as int] == files2@[j as int]);
                if b >= 0 {
                    assert(files2@.take(j + 1)[b] == files2@[b]);
                    assert(files2@.take(j as int)[b] == files2@[b]);
                }
            }
            let b2 = crate::index::basename_of(files2[j].path.as_str());
            if str_eq(b1.as_str(), b2.as_str()) {
                let e = estimate_similarity(&files1[i], &files2[j]);
                match best {
                    None => {
                        proof {
                            lemma_best_name_index(files1@[i as int], files2@.take(j as int));
                            assert forall|j2: int| 0 <= j2 < j implies basename_spec(
                                (#[trigger] files2@[j2]).path@,
                            ) != b1@ by {
                                assert(files2@.take(j as int)[j2] == files2@[j2]);
                                assert(basename_spec(files2@.take(j as int)[j2].path@)
                                    != basename_spec(files1@[i as int].path@));
                            }
                        }
                        best = Some(j);
                        best_score = e;
                    },
                    Some(_) => {
                        if e > best_score {
                            best = Some(j);
                            best_score = e;
                        }
                    },
                }
            }
            j = j + 1;
        }
        proof {
            assert(files2@.take(n2 as int) =~= files2@);
            assert(files1@.take(i + 1).drop_last() =~= files1@.take(i as int));
            assert(files1@.take(i + 1).last() == files1@[i as int]);
        }
        if let Some(j2) = best {
            let exact = files_hash_match(&files1[i], &files2[j2]);
            let pair = CandidatePair {
                file1: files1[i].clone(),
                file2: files2[j2].clone(),
                estimated_similarity: best_score,
                exact_hash_match: exact,
            };
            proof {
                lemma_estimate_like(
                    pair.file1,
                    files1@[i as int],
                    pair.file2,
                    files2@[j2 as int],
                );
                lemma_estimate_bounded(pair.file1, pair.file2);
                assert(sound_pair(pair));
                assert(pair_at(pair, files1@, files2@, i as int, j2 as int));
            }
            let ghost old_r = r@;
            r.push(pair);
            proof {
                assert(forall|k: int| 0 <= k < old_r.len() ==> r@[k] == old_r[k]);
                assert(same_name_indices(files1@.take(i + 1), files2@) =~= pre.push(
                    (i as int, j2 as int),
                ));
                let nk = r@.len() - 1;
                assert(entry_like(r@[nk].file1, files1@[i as int]));
                assert(entry_like(r@[nk].file2, files2@[j2 as int]));
                assert(pair_from(r@[nk], files1@, files2@));
                assert(basename_spec(r@[nk].file1.path@) == basename_spec(r@[nk].file2.path@));
                assert forall|j3: int|
                    0 <= j3 < files2@.len() && basename_spec(files2@[j3].path@) == basename_spec(
                        r@[nk].file1.path@,
                    ) && !r@[nk].exact_hash_match implies r@[nk].estimated_similarity
                    >= estimate_spec(r@[nk].file1, files2@[j3]) by {
                    lemma_estimate_like(
                        r@[nk].file1,
                        files1@[i as int],
                        files2@[j3],
                        files2@[j3],
                    );
                }
            }
        } else {
            proof {
                assert(same_name_indices(files1@.take(i + 1), files2@) =~= pre);
            }
        }
        i = i + 1;
    }
    proof {
        assert(files1@.take(n1 as int) =~= files1@);
    }
    r
}

/// Whether some emitted index pair uses the side-1 position.
pub open spec fn contains_first(ps: Seq<(int, int)>, i: int) -> bool {
    exists|k: int| 0 <= k < ps.len() && (#[trigger] ps[k]).0 == i
}

/// Whether some emitted index pair consumes the side-2 position.
pub open spec fn contains_second(ps: Seq<(int, int)>, j: int) -> bool {
    exists|k: int| 0 <= k < ps.len() && (#[trigger] ps[k]).1 == j
}

/// The first unconsumed side-2 position at or after `j` whose content
/// hash equals `h`, or -1.
pub open spec fn first_free_hash(
    fs2: Seq<FileEntry>,
    h: Seq<char>,
    used: Seq<(int, int)>,
    j: int,
) -> int
    decreases fs2.len() - j,
{
    if j < 0 || j >= fs2.len() {
        -1
    } else if fs2[j].content_hash@ == h && !contains_second(used, j) {
        j
    } else {
        first_free_hash(fs2, h, used, j + 1)
    }
}

/// `first_free_hash` finds exactly the first free matching position.
pub proof fn lemma_first_free_hash(fs2: Seq<FileEntry>, h: Seq<char>, used: Seq<(int, int)>, j: int)
    requires
        j >= 0,
    ensures
        first_free_hash(fs2, h, used, j) >= -1,
        first_free_hash(fs2, h, used, j) >= 0 ==> {
            &&& j <= first_free_hash(fs2, h, used, j) < fs2.len()
            &&& fs2[first_free_hash(fs2, h, used, j)].content_hash@ == h
            &&& !contains_second(used, first_free_hash(fs2, h, used, j))
            &&& forall|k: int|
                j <= k < first_free_hash(fs2, h, used, j) ==> !((#[trigger] fs2[k]).content_hash@
                    == h && !contains_second(used, k))
        },
        first_free_hash(fs2, h, used, j) == -1 ==> forall|k: int|
            j <= k < fs2.len() ==> !((#[trigger] fs2[k]).content_hash@ == h && !contains_second(
                used,
                k,
            )),
    decreases fs2.len() - j,
{
    if j < fs2.len() && !(fs2[j].content_hash@ == h && !contains_second(used, j)) {
        lemma_first_free_hash(fs2, h, used, j + 1);
    }
}

/// The index pairs of the exact-hash pass: each side-1 entry with a
/// non-empty hash greedily consumes the first not-yet-consumed side-2
/// entry with the same hash.
pub open spec fn hash_pass(fs1: Seq<FileEntry>, fs2: Seq<FileEntry>) -> Seq<(int, int)>
    decreases fs1.len(),
{
    if fs1.len() == 0 {
        Seq::empty()
    } else {
        let rest = hash_pass(fs1.drop_last(), fs2);
        let i = fs1.len() - 1;
        if fs1[i].content_hash@.len() > 0 {
            let j = first_free_hash(fs2, fs1[i].content_hash@, rest, 0);
            if j >= 0 {
                rest.push((i, j))
            } else {
                rest
            }
        } else {
            rest
        }
    }
}

/// The hash pass stays in range, pairs each side once, and only pairs
/// equal non-empty hashes.
pub proof fn lemma_hash_pass_wf(fs1: Seq<FileEntry>, fs2: Seq<FileEntry>)
    ensures
        forall|k: int|
            0 <= k < hash_pass(fs1, fs2).len() ==> {
                &&& 0 <= (#[trigger] hash_pass(fs1, fs2)[k]).0 < fs1.len()
                &&& 0 <= hash_pass(fs1, fs2)[k].1 < fs2.len()
                &&& fs1[hash_pass(fs1, fs2)[k].0].content_hash@.len() > 0
                &&& fs1[hash_pass(fs1, fs2)[k].0].content_hash@ == fs2[hash_pass(
                    fs1,
                    fs2,
                )[k].1].content_hash@
            },
        forall|k1: int, k2: int|
            0 <= k1 < k2 < hash_pass(fs1, fs2).len() ==> (#[trigger] hash_pass(fs1, fs2)[k1]).0
                < (#[trigger] hash_pass(fs1, fs2)[k2]).0 && hash_pass(fs1, fs2)[k1].1 != hash_pass(
                fs1,
                fs2,
            )[k2].1,
    decreases fs1.len(),
{
    if fs1.len() > 0 {
        lemma_hash_pass_wf(fs1.drop_last(), fs2);
        let rest = hash_pass(fs1.drop_last(), fs2);
        assert(forall|k: int|
            0 <= k < fs1.len() - 1 ==> #[trigger] fs1[k] == fs1.drop_last()[k]);
        let i = fs1.len() - 1;
        if fs1[i].content_hash@.len() > 0 {
            lemma_first_free_hash(fs2, fs1[i].content_hash@, rest, 0);
        }
    }
}

/// How many of the first `upto` side-2 entries are unconsumed and pass
/// the blocking rules against a source entry.
pub open spec fn cand_count(
    f1: FileEntry,
    fs2: Seq<FileEntry>,
    used: Seq<(int, int)>,
    upto: int,
) -> nat
    decreases upto,
{
    if upto <= 0 {
        0
    } else {
        cand_count(f1, fs2, used, upto - 1) + (if 0 < upto <= fs2.len() && !contains_second(
            used,
            upto - 1,
        ) && passes_blocking_spec(f1, fs2[upto - 1]) {
            1nat
        } else {
            0nat
        })
    }
}

/// How many pairs the all-vs-all matcher owes a side-1 entry: one when
/// the hash pass matched it, else its blocking-passing candidate count
/// capped at `top_k`.
pub open spec fn expected_pair_count(
    fs1: Seq<FileEntry>,
    fs2: Seq<FileEntry>,
    top_k: usize,
    i: int,
) -> nat {
    let hp = hash_pass(fs1, fs2);
    if contains_first(hp, i) {
        1
    } else {
        let n = cand_count(fs1[i], fs2, hp, fs2.len() as int);
        if n <= top_k {
            n
        } else {
            top_k as nat
        }
    }
}

/// A similarity-pass pair never reuses a side-2 entry the hash pass
/// consumed.
pub open spec fn no_consumed_reuse(p: CandidatePair, fs1: Seq<FileEntry>, fs2: Seq<FileEntry>) -> bool {
    !p.exact_hash_match ==> forall|jj: int|
        0 <= jj < fs2.len() && contains_second(hash_pass(fs1, fs2), jj) ==> p.file2.path@ != (
        #[trigger] fs2[jj]).path@
}

/// A flagged pair realizes one entry of the hash pass, whose entries
/// pair side-1 and side-2 positions one to one.
pub open spec fn from_hash_pass(p: CandidatePair, fs1: Seq<FileEntry>, fs2: Seq<FileEntry>) -> bool {
    p.exact_hash_match ==> exists|kk: int|
        0 <= kk < hash_pass(fs1, fs2).len() && pair_at(
            p,
            fs1,
            fs2,
            (#[trigger] hash_pass(fs1, fs2)[kk]).0,
            hash_pass(fs1, fs2)[kk].1,
        )
}


/// Some position of a sequence carries the path.
pub proof fn lemma_cnt_pos(s: Seq<CandidatePair>, k: int, p: Seq<char>)
    requires
        0 <= k < s.len(),
        s[k].file1.path@ == p,
    ensures
        cnt_path(s, p) >= 1,
    decreases s.len(),
{
    if k == s.len() - 1 {
    } else {
        assert(s.drop_last()[k] == s[k]);
        lemma_cnt_pos(s.drop_last(), k, p);
    }
}

/// Two positions with the same path push the count to two.
pub proof fn lemma_cnt_two(s: Seq<CandidatePair>, k1: int, k2: int, p: Seq<char>)
    requires
        0 <= k1 < k2 < s.len(),
        s[k1].file1.path@ == p,
        s[k2].file1.path@ == p,
    ensures
        cnt_path(s, p) >= 2,
    decreases s.len(),
{
    if k2 == s.len() - 1 {
        assert(s.drop_last()[k1] == s[k1]);
        lemma_cnt_pos(s.drop_last(), k1, p);
    } else {
        assert(s.drop_last()[k1] == s[k1]);
        assert(s.drop_last()[k2] == s[k2]);
        lemma_cnt_two(s.drop_last(), k1, k2, p);
    }
}

/// The hash pass is one to one on paths: by the matcher's contract, two
/// flagged output pairs never share a side-1 path or a side-2 path.
/// This law follows from the per-source pair counts, the hash-pass
/// provenance of flagged pairs, and the pairwise distinctness of the
/// hash pass itself.
pub proof fn lemma_flagged_pairs_one_to_one(
    r: Seq<CandidatePair>,
    fs1: Seq<FileEntry>,
    fs2: Seq<FileEntry>,
    top_k: usize,
)
    requires
        distinct_paths(fs1),
        distinct_paths(fs2),
        forall|k: int| 0 <= k < r.len() ==> from_hash_pass(#[trigger] r[k], fs1, fs2),
        forall|i: int|
            0 <= i < fs1.len() ==> cnt_path(r, (#[trigger] fs1[i]).path@) == expected_pair_count(
                fs1,
                fs2,
                top_k,
                i,
            ),
    ensures
        forall|k1: int, k2: int|
            0 <= k1 < k2 < r.len() && (#[trigger] r[k1]).exact_hash_match && (
            #[trigger] r[k2]).exact_hash_match ==> r[k1].file1.path@ != r[k2].file1.path@
                && r[k1].file2.path@ != r[k2].file2.path@,
{
    let hp = hash_pass(fs1, fs2);
    lemma_hash_pass_wf(fs1, fs2);
    assert forall|k1: int, k2: int|
        0 <= k1 < k2 < r.len() && (#[trigger] r[k1]).exact_hash_match && (
        #[trigger] r[k2]).exact_hash_match implies r[k1].file1.path@ != r[k2].file1.path@
        && r[k1].file2.path@ != r[k2].file2.path@ by {
        let kk1 = choose|kk: int|
            0 <= kk < hp.len() && pair_at(r[k1], fs1, fs2, (#[trigger] hp[kk]).0, hp[kk].1);
        let kk2 = choose|kk: int|
            0 <= kk < hp.len() && pair_at(r[k2], fs1, fs2, (#[trigger] hp[kk]).0, hp[kk].1);
        let a1 = hp[kk1].0;
        let a2 = hp[kk2].0;
        assert(r[k1].file1.path@ == fs1[a1].path@);
        assert(r[k2].file1.path@ == fs1[a2].path@);
        if r[k1].file1.path@ == r[k2].file1.path@ {
            assert(a1 == a2);
            assert(contains_first(hp, a1));
            assert(expected_pair_count(fs1, fs2, top_k, a1) == 1);
            lemma_cnt_two(r, k1, k2, fs1[a1].path@);
            assert(false);
        }
        if r[k1].file2.path@ == r[k2].file2.path@ {
            let b1 = hp[kk1].1;
            let b2 = hp[kk2].1;
            assert(fs2[b1].path@ == fs2[b2].path@);
            assert(b1 == b2);
            assert(kk1 == kk2);
            assert(r[k1].file1.path@ == r[k2].file1.path@);
            assert(false);
        }
    }
}

/// All-vs-all matching.  The hash pass greedily pairs files with equal
/// content hashes one to one; the similarity pass ranks the residue
/// under the blocking rules and keeps the top `top_k` per source file.
/// The output is sorted by descending estimate; every unflagged pair
/// passes the blocking rules and carries its exact estimate; no source
/// path heads more than `top_k` pairs (one, when `top_k` is zero); the
/// `max_pairs` cap holds; and without a cap, every source path heads
/// exactly the pairs it is owed: one flagged pair when its hash was
/// consumed, else one pair per blocking-passing candidate up to
/// `top_k`.
#[verifier::spinoff_prover]
#[verifier::rlimit(100)]
pub fn all_vs_all_match(
    files1: &Vec<FileEntry>,
    files2: &Vec<FileEntry>,
    top_k: usize,
    max_pairs: Option<usize>,
) -> (r: Vec<CandidatePair>)
    requires
        distinct_paths(files1@),
        distinct_paths(files2@),
    ensures
        sorted_desc(r@),
        forall|k: int| 0 <= k < r@.len() ==> sound_avsa_pair(#[trigger] r@[k]),
        forall|p: Seq<char>| #[trigger] cnt_path(r@, p) <= cap_of(top_k),
        max_pairs is Some ==> r@.len() <= max_pairs->Some_0,
        forall|k: int| 0 <= k < r@.len() ==> pair_from(#[trigger] r@[k], files1@, files2@),
        forall|k: int| 0 <= k < r@.len() ==> no_consumed_reuse(#[trigger] r@[k], files1@, files2@),
        forall|k: int| 0 <= k < r@.len() ==> from_hash_pass(#[trigger] r@[k], files1@, files2@),
        max_pairs is None ==> forall|i: int|
            0 <= i < files1@.len() ==> cnt_path(r@, (#[trigger] files1@[i]).path@)
                == expected_pair_count(files1@, files2@, top_k, i),
{
    let mut pairs: Vec<CandidatePair> = Vec::new();
    let n1 = files1.len();
    let n2 = files2.len();
    let mut matched1: Vec<bool> = Vec::new();
    let mut t: usize = 0;
    while t < n1
        invariant
            0 <= t <= n1,
            matched1@.len() == t,
            forall|m: int| 0 <= m < t ==> !matched1@[m],
        decreases n1 - t,
    {
        matched1.push(false);
        t = t + 1;
    }
    let mut matched2: Vec<bool> = Vec::new();
    let mut t2: usize = 0;
    while t2 < n2
        invariant
            0 <= t2 <= n2,
            matched2@.len() == t2,
            forall|m: int| 0 <= m < t2 ==> !matched2@[m],
        decreases n2 - t2,
    {
        matched2.push(false);
        t2 = t2 + 1;
    }
    let mut i: usize = 0;
    proof {
        assert(files1@.take(0) =~= Seq::<FileEntry>::empty());
    }
    while i < n1
        invariant
            0 <= i <= n1 == files1@.len(),
            n2 == files2@.len(),
            matched1@.len() == n1,
            matched2@.len() == n2,
            distinct_paths(files1@),
            pairs@.len() == hash_pass(files1@.take(i as int), files2@).len(),
            forall|k: int|
                0 <= k < pairs@.len() ==> pair_at(
                    #[trigger] pairs@[k],
                    files1@,
                    files2@,
                    hash_pass(files1@.take(i as int), files2@)[k].0,
                    hash_pass(files1@.take(i as int), files2@)[k].1,
                ),
            forall|k: int|
                0 <= k < pairs@.len() ==> sound_avsa_pair(#[trigger] pairs@[k])
                    && pairs@[k].exact_hash_match,
            forall|k: int| 0 <= k < pairs@.len() ==> pair_from(#[trigger] pairs@[k], files1@, files2@),
            forall|m: int|
                0 <= m < n1 ==> matched1@[m] == contains_first(
                    hash_pass(files1@.take(i as int), files2@),
                    m,
                ),
            forall|j: int|
                0 <= j < n2 ==> matched2@[j] == contains_second(
                    hash_pass(files1@.take(i as int), files2@),
                    j,
                ),
        decreases n1 - i,
    {
        let ghost hp = hash_pass(files1@.take(i as int), files2@);
        proof {
            assert(files1@.take(i + 1).drop_last() =~= files1@.take(i as int));
            assert(files1@.take(i + 1).last() == files1@[i as int]);
            lemma_hash_pass_wf(files1@.take(i as int), files2@);
        }
        if !files1[i].content_hash.as_str().is_empty() {
            let mut j: usize = 0;
            let mut found: Option<usize> = None;
            loop
                invariant_except_break
                    found is None,
                invariant
                    0 <= j <= n2 == files2@.len(),
                    i < files1@.len(),
                    matched2@.len() == n2,
                    hp == hash_pass(files1@.take(i as int), files2@),
                    files1@[i as int].content_hash@.len() > 0,
                    forall|jj: int|
                        0 <= jj < n2 ==> matched2@[jj] == contains_second(hp, jj),
                    forall|jj: int|
                        0 <= jj < j ==> !((#[trigger] files2@[jj]).content_hash@
                            == files1@[i as int].content_hash@ && !contains_second(hp, jj)),
                ensures
                    found is None ==> first_free_hash(
                        files2@,
                        files1@[i as int].content_hash@,
                        hp,
                        0,
                    ) == -1,
                    found is Some ==> {
                        &&& found->Some_0 < n2
                        &&& first_free_hash(files2@, files1@[i as int].content_hash@, hp, 0)
                            == found->Some_0
                        &&& !matched2@[found->Some_0 as int]
                        &&& files2@[found->Some_0 as int].content_hash@
                            == files1@[i as int].content_hash@
                    },
                decreases n2 - j,
            {
                if j >= n2 {
                    proof {
                        lemma_first_free_hash(files2@, files1@[i as int].content_hash@, hp, 0);
                        if first_free_hash(files2@, files1@[i as int].content_hash@, hp, 0)
                            >= 0 {
                            let w = first_free_hash(
                                files2@,
                                files1@[i as int].content_hash@,
                                hp,
                                0,
                            );
                            assert(!(files2@[w].content_hash@ == files1@[i as int].content_hash@
                                && !contains_second(hp, w)));
                        }
                    }
                    break;
                }
                if !matched2[j] && files_hash_match(&files1[i], &files2[j]) {
                    found = Some(j);
                    proof {
                        lemma_first_free_hash(files2@, files1@[i as int].content_hash@, hp, 0);
                        let w = first_free_hash(files2@, files1@[i as int].content_hash@, hp, 0);
                        assert(files2@[j as int].content_hash@ == files1@[i as int].content_hash@
                            && !contains_second(hp, j as int));
                        if w != j as int {
                            if w == -1 || w > j as int {
                                assert(false);
                            } else {
                                assert(!(files2@[w].content_hash@
                                    == files1@[i as int].content_hash@ && !contains_second(
                                    hp,
                                    w,
                                )));
                            }
                        }
                    }
                    break;
                }
                proof {
                    if matched2@[j as int] {
                        assert(contains_second(hp, j as int));
                    } else {
                        assert(files2@[j as int].content_hash@
                            != files1@[i as int].content_hash@);
                    }
                }
                j = j + 1;
            }
            if let Some(j2) = found {
                let pair = CandidatePair {
                    file1: files1[i].clone(),
                    file2: files2[j2].clone(),
                    estimated_similarity: SCORE_UNIT,
                    exact_hash_match: true,
                };
                proof {
                    assert(hash_match_spec(pair.file1, pair.file2));
                    assert(sound_avsa_pair(pair));
                    assert(pair_from(pair, files1@, files2@));
                    assert(hash_match_spec(files1@[i as int], files2@[j2 as int]));
                    assert(estimate_spec(files1@[i as int], files2@[j2 as int]) == SCORE_UNIT);
                    assert(pair_at(pair, files1@, files2@, i as int, j2 as int));
                }
                let ghost old_pairs = pairs@;
                let ghost old_m1 = matched1@;
                let ghost old_m2 = matched2@;
                pairs.push(pair);
                matched1.set(i, true);
                matched2.set(j2, true);
                proof {
                    let hp2 = hash_pass(files1@.take(i + 1), files2@);
                    assert(hp2 =~= hp.push((i as int, j2 as int)));
                    assert(forall|k: int| 0 <= k < old_pairs.len() ==> pairs@[k] == old_pairs[k]);
                    assert(forall|k: int| 0 <= k < hp.len() ==> hp2[k] == hp[k]);
                    assert forall|m: int| 0 <= m < n1 implies matched1@[m] == contains_first(
                        hp2,
                        m,
                    ) by {
                        if m == i {
                            assert(hp2[hp2.len() - 1].0 == i);
                            assert(contains_first(hp2, m));
                        } else {
                            if contains_first(hp, m) {
                                let w = choose|k: int|
                                    0 <= k < hp.len() && (#[trigger] hp[k]).0 == m;
                                assert(hp2[w].0 == m);
                            }
                            if contains_first(hp2, m) {
                                let w = choose|k: int|
                                    0 <= k < hp2.len() && (#[trigger] hp2[k]).0 == m;
                                assert(w < hp.len());
                                assert(hp[w].0 == m);
                            }
                        }
                    }
                    assert forall|jj: int| 0 <= jj < n2 implies matched2@[jj] == contains_second(
                        hp2,
                        jj,
                    ) by {
                        if jj == j2 {
                            assert(hp2[hp2.len() - 1].1 == j2);
                            assert(contains_second(hp2, jj));
                        } else {
                            if contains_second(hp, jj) {
                                let w = choose|k: int|
                                    0 <= k < hp.len() && (#[trigger] hp[k]).1 == jj;
                                assert(hp2[w].1 == jj);
                            }
                            if contains_second(hp2, jj) {
                                let w = choose|k: int|
                                    0 <= k < hp2.len() && (#[trigger] hp2[k]).1 == jj;
                                assert(w < hp.len());
                                assert(hp[w].1 == jj);
                            }
                        }
                    }
                }
            } else {
                proof {
                    assert(hash_pass(files1@.take(i + 1), files2@) =~= hp);
                    assert(!contains_first(hp, i as int)) by {
                        lemma_hash_pass_wf(files1@.take(i as int), files2@);
                        if contains_first(hp, i as int) {
                            let w = choose|k: int|
                                0 <= k < hp.len() && (#[trigger] hp[k]).0 == i as int;
                            assert(hp[w].0 < i as int);
                        }
                    }
                }
            }
        } else {
            proof {
                assert(hash_pass(files1@.take(i + 1), files2@) =~= hp);
                assert(!contains_first(hp, i as int)) by {
                    lemma_hash_pass_wf(files1@.take(i as int), files2@);
                    if contains_first(hp, i as int) {
                        let w = choose|k: int|
                            0 <= k < hp.len() && (#[trigger] hp[k]).0 == i as int;
                        assert(hp[w].0 < i as int);
                    }
                }
            }
        }
        i = i + 1;
    }
    let ghost hp = hash_pass(files1@, files2@);
    proof {
        assert(files1@.take(n1 as int) =~= files1@);
        lemma_hash_pass_wf(files1@, files2@);
        assert forall|k1: int, k2: int|
            0 <= k1 < k2 < pairs@.len() implies (#[trigger] pairs@[k1].file1.path@) != (
            #[trigger] pairs@[k2].file1.path@) by {
            assert(pair_at(pairs@[k1], files1@, files2@, hp[k1].0, hp[k1].1));
            assert(pair_at(pairs@[k2], files1@, files2@, hp[k2].0, hp[k2].1));
            assert(hp[k1].0 != hp[k2].0);
        }
        assert forall|m: int| 0 <= m < n1 && !contains_first(hp, m) implies cnt_path(
            pairs@,
            files1@[m].path@,
        ) == 0 by {
            lemma_cnt_zero_iff(pairs@, files1@[m].path@);
            assert forall|k: int| 0 <= k < pairs@.len() implies (
            #[trigger] pairs@[k].file1.path@) != files1@[m].path@ by {
                assert(pair_at(pairs@[k], files1@, files2@, hp[k].0, hp[k].1));
                if files1@[hp[k].0].path@ == files1@[m].path@ {
                    assert(hp[k].0 == m);
                }
            }
        }
        assert forall|m: int| 0 <= m < n1 && contains_first(hp, m) implies cnt_path(
            pairs@,
            files1@[m].path@,
        ) == 1 by {
            let w = choose|k: int| 0 <= k < hp.len() && (#[trigger] hp[k]).0 == m;
            assert(pair_at(pairs@[w], files1@, files2@, hp[w].0, hp[w].1));
            assert(pairs@[w].file1.path@ == files1@[m].path@);
            lemma_cnt_distinct(pairs@, files1@[m].path@);
            lemma_cnt_zero_iff(pairs@, files1@[m].path@);
        }
        assert forall|p: Seq<char>| #[trigger] cnt_path(pairs@, p) <= cap_of(top_k) by {
            lemma_cnt_distinct(pairs@, p);
        }
        assert forall|k: int| 0 <= k < pairs@.len() implies no_consumed_reuse(
            #[trigger] pairs@[k],
            files1@,
            files2@,
        ) && from_hash_pass(pairs@[k], files1@, files2@) by {
            assert(pair_at(pairs@[k], files1@, files2@, hp[k].0, hp[k].1));
            assert(pairs@[k].exact_hash_match);
        }
    }
    let mut i2: usize = 0;
    while i2 < n1
        invariant
            0 <= i2 <= n1 == files1@.len(),
            n2 == files2@.len(),
            matched1@.len() == n1,
            matched2@.len() == n2,
            distinct_paths(files1@),
            distinct_paths(files2@),
            hp == hash_pass(files1@, files2@),
            forall|m: int| 0 <= m < n1 ==> matched1@[m] == contains_first(hp, m),
            forall|j: int| 0 <= j < n2 ==> matched2@[j] == contains_second(hp, j),
            forall|k: int| 0 <= k < pairs@.len() ==> sound_avsa_pair(#[trigger] pairs@[k]),
            forall|k: int| 0 <= k < pairs@.len() ==> pair_from(#[trigger] pairs@[k], files1@, files2@),
            forall|k: int|
                0 <= k < pairs@.len() ==> no_consumed_reuse(#[trigger] pairs@[k], files1@, files2@),
            forall|k: int|
                0 <= k < pairs@.len() ==> from_hash_pass(#[trigger] pairs@[k], files1@, files2@),
            forall|p: Seq<char>| #[trigger] cnt_path(pairs@, p) <= cap_of(top_k),
            forall|m: int|
                0 <= m < n1 ==> cnt_path(pairs@, (#[trigger] files1@[m]).path@) == (
                if contains_first(hp, m) {
                    1nat
                } else if m < i2 {
                    expected_pair_count(files1@, files2@, top_k, m)
                } else {
                    0nat
                }),
        decreases n1 - i2,
    {
        if !matched1[i2] {
            let mut cand_j: Vec<usize> = Vec::new();
            let mut cand_s: Vec<u64> = Vec::new();
            let mut j: usize = 0;
            proof {
                assert(!contains_first(hp, i2 as int));
            }
            while j < n2
                invariant
                    0 <= j <= n2 == files2@.len(),
                    i2 < files1@.len(),
                    matched2@.len() == n2,
                    hp == hash_pass(files1@, files2@),
                    forall|jj: int| 0 <= jj < n2 ==> matched2@[jj] == contains_second(hp, jj),
                    cand_j@.len() == cand_s@.len(),
                    cand_j@.len() == cand_count(files1@[i2 as int], files2@, hp, j as int),
                    forall|t: int|
                        0 <= t < cand_j@.len() ==> {
                            &&& (#[trigger] cand_j@[t]) < n2
                            &&& !contains_second(hp, cand_j@[t] as int)
                            &&& passes_blocking_spec(files1@[i2 as int], files2@[cand_j@[t] as int])
                            &&& cand_s@[t] == estimate_spec(
                                files1@[i2 as int],
                                files2@[cand_j@[t] as int],
                            )
                            &&& valid_score(cand_s@[t])
                        },
                decreases n2 - j,
            {
                if !matched2[j] && passes_blocking_rules(&files1[i2], &files2[j]) {
                    let e = estimate_similarity(&files1[i2], &files2[j]);
                    cand_j.push(j);
                    cand_s.push(e);
                }
                j = j + 1;
            }
            // Stable descending selection sort over the candidate list.
            let cn = cand_j.len();
            proof {
                assert(cn == cand_count(files1@[i2 as int], files2@, hp, n2 as int));
            }
            let mut sel_j: Vec<usize> = Vec::new();
            let mut sel_s: Vec<u64> = Vec::new();
            let mut src_j = cand_j;
            let mut src_s = cand_s;
            while src_j.len() > 0
                invariant
                    src_j@.len() == src_s@.len(),
                    sel_j@.len() == sel_s@.len(),
                    sel_j@.len() + src_j@.len() == cn,
                    i2 < files1@.len(),
                    n2 == files2@.len(),
                    forall|t: int|
                        0 <= t < src_j@.len() ==> {
                            &&& (#[trigger] src_j@[t]) < n2
                            &&& !contains_second(hp, src_j@[t] as int)
                            &&& passes_blocking_spec(files1@[i2 as int], files2@[src_j@[t] as int])
                            &&& src_s@[t] == estimate_spec(
                                files1@[i2 as int],
                                files2@[src_j@[t] as int],
                            )
                            &&& valid_score(src_s@[t])
                        },
                    forall|t: int|
                        0 <= t < sel_j@.len() ==> {
                            &&& (#[trigger] sel_j@[t]) < n2
                            &&& !contains_second(hp, sel_j@[t] as int)
                            &&& passes_blocking_spec(files1@[i2 as int], files2@[sel_j@[t] as int])
                            &&& sel_s@[t] == estimate_spec(
                                files1@[i2 as int],
                                files2@[sel_j@[t] as int],
                            )
                            &&& valid_score(sel_s@[t])
                        },
                    forall|t1: int, t2: int|
                        0 <= t1 < t2 < sel_s@.len() ==> (#[trigger] sel_s@[t1])
                            >= #[trigger] sel_s@[t2],
                    forall|t: int, u: int|
                        0 <= t < sel_s@.len() && 0 <= u < src_s@.len() ==> (
                        #[trigger] sel_s@[t]) >= #[trigger] src_s@[u],
                decreases src_j@.len(),
            {
                // Find the first maximum of the remainder.
                let mut best: usize = 0;
                let mut m: usize = 1;
                while m < src_s.len()
                    invariant
                        src_j@.len() == src_s@.len(),
                        src_s@.len() > 0,
                        0 <= best < src_s@.len(),
                        1 <= m <= src_s@.len(),
                        forall|t: int| 0 <= t < m ==> (#[trigger] src_s@[t]) <= src_s@[best as int],
                    decreases src_s@.len() - m,
                {
                    if src_s[m] > src_s[best] {
                        best = m;
                    }
                    m = m + 1;
                }
                let ghost old_src_s = src_s@;
                let bj = src_j.remove(best);
                let bs = src_s.remove(best);
                proof {
                    assert(src_s@ =~= old_src_s.remove(best as int));
                    assert forall|t: int| 0 <= t < src_s@.len() implies (#[trigger] src_s@[t])
                        <= bs by {
                        if t < best {
                            assert(src_s@[t] == old_src_s[t]);
                        } else {
                            assert(src_s@[t] == old_src_s[t + 1]);
                        }
                    }
                }
                let ghost old_sel = sel_s@;
                sel_j.push(bj);
                sel_s.push(bs);
                proof {
                    assert(forall|t: int| 0 <= t < old_sel.len() ==> sel_s@[t] == old_sel[t]);
                    assert(sel_s@[sel_s@.len() - 1] == bs);
                }
            }
            // Keep the top K.
            let ghost p_cur = files1@[i2 as int].path@;
            let ghost pairs_before = pairs@;
            let mut t3: usize = 0;
            let mut added: usize = 0;
            let sel_n = sel_j.len();
            proof {
                assert(sel_n == cn);
            }
            while t3 < sel_n && added < top_k
                invariant
                    0 <= t3 <= sel_n == sel_j@.len(),
                    sel_j@.len() == sel_s@.len(),
                    i2 < files1@.len(),
                    n2 == files2@.len(),
                    added == (if t3 <= top_k {
                        t3 as nat
                    } else {
                        top_k as nat
                    }),
                    added <= top_k,
                    p_cur == files1@[i2 as int].path@,
                    cnt_path(pairs_before, p_cur) == 0,
                    forall|t: int|
                        0 <= t < sel_j@.len() ==> {
                            &&& (#[trigger] sel_j@[t]) < n2
                            &&& !contains_second(hp, sel_j@[t] as int)
                            &&& passes_blocking_spec(files1@[i2 as int], files2@[sel_j@[t] as int])
                            &&& sel_s@[t] == estimate_spec(
                                files1@[i2 as int],
                                files2@[sel_j@[t] as int],
                            )
                            &&& valid_score(sel_s@[t])
                        },
                    hp == hash_pass(files1@, files2@),
                    distinct_paths(files2@),
                    forall|k: int| 0 <= k < pairs@.len() ==> sound_avsa_pair(#[trigger] pairs@[k]),
                    forall|k: int|
                        0 <= k < pairs@.len() ==> pair_from(#[trigger] pairs@[k], files1@, files2@),
                    forall|k: int|
                        0 <= k < pairs@.len() ==> no_consumed_reuse(
                            #[trigger] pairs@[k],
                            files1@,
                            files2@,
                        ),
                    forall|k: int|
                        0 <= k < pairs@.len() ==> from_hash_pass(
                            #[trigger] pairs@[k],
                            files1@,
                            files2@,
                        ),
                    cnt_path(pairs@, p_cur) == added,
                    forall|p: Seq<char>|
                        p != p_cur ==> #[trigger] cnt_path(pairs@, p) == cnt_path(pairs_before, p),
                decreases sel_n - t3,
            {
                let j3 = sel_j[t3];
                let score = sel_s[t3];
                let pair = CandidatePair {
                    file1: files1[i2].clone(),
                    file2: files2[j3].clone(),
                    estimated_similarity: score,
                    exact_hash_match: false,
                };
                proof {
                    lemma_estimate_like(
                        pair.file1,
                        files1@[i2 as int],
                        pair.file2,
                        files2@[j3 as int],
                    );
                    assert(sound_avsa_pair(pair));
                    assert(pair_from(pair, files1@, files2@));
                    lemma_hash_pass_wf(files1@, files2@);
                    assert forall|jj: int|
                        0 <= jj < files2@.len() && contains_second(hash_pass(files1@, files2@), jj)
                        implies pair.file2.path@ != (#[trigger] files2@[jj]).path@ by {
                        assert(jj != j3 as int);
                        assert(files2@[jj].path@ != files2@[j3 as int].path@);
                    }
                    assert(no_consumed_reuse(pair, files1@, files2@));
                    assert(from_hash_pass(pair, files1@, files2@));
                }
                let ghost old_pairs = pairs@;
                pairs.push(pair);
                t3 = t3 + 1;
                added = added + 1;
                proof {
                    assert(forall|k: int| 0 <= k < old_pairs.len() ==> pairs@[k] == old_pairs[k]);
                    assert(pairs@[pairs@.len() - 1] == pair);
                    assert(pair.file1.path@ == p_cur);
                    assert forall|p: Seq<char>| true implies #[trigger] cnt_path(pairs@, p)
                        == cnt_path(old_pairs, p) + (if p == p_cur {
                        1nat
                    } else {
                        0nat
                    }) by {
                        lemma_cnt_push(old_pairs, pair, p);
                    }
                }
            }
            proof {
                assert(added == (if cn <= top_k {
                    cn as nat
                } else {
                    top_k as nat
                }));
                assert(cnt_path(pairs@, p_cur) == expected_pair_count(
                    files1@,
                    files2@,
                    top_k,
                    i2 as int,
                ));
                assert(cnt_path(pairs@, p_cur) <= cap_of(top_k));
                assert forall|m3: int|
                    0 <= m3 < n1 && m3 != i2 implies cnt_path(
                    pairs@,
                    (#[trigger] files1@[m3]).path@,
                ) == cnt_path(pairs_before, files1@[m3].path@) by {
                    assert(files1@[m3].path@ != p_cur);
                }
            }
        } else {
            proof {
                assert(contains_first(hp, i2 as int));
                assert(expected_pair_count(files1@, files2@, top_k, i2 as int) == 1);
            }
        }
        i2 = i2 + 1;
    }
    let sorted = sort_pairs_desc(pairs);
    proof {
        lemma_rearrangement_pointwise(
            sorted@,
            pairs@,
            |p: CandidatePair| sound_avsa_pair(p),
        );
        lemma_rearrangement_pointwise(
            sorted@,
            pairs@,
            |p: CandidatePair| pair_from(p, files1@, files2@),
        );
        lemma_rearrangement_pointwise(
            sorted@,
            pairs@,
            |p: CandidatePair| no_consumed_reuse(p, files1@, files2@),
        );
        lemma_rearrangement_pointwise(
            sorted@,
            pairs@,
            |p: CandidatePair| from_hash_pass(p, files1@, files2@),
        );
    }
    let mut out = sorted;
    if let Some(mx) = max_pairs {
        if out.len() > mx {
            let ghost before = out@;
            out.truncate(mx);
            proof {
                assert(out@ == before.take(mx as int));
                assert forall|p: Seq<char>| true implies #[trigger] cnt_path(out@, p) <= cap_of(
                    top_k,
                ) by {
                    lemma_cnt_prefix(before, mx as int, p);
                }
                assert(forall|k: int|
                    0 <= k < out@.len() ==> out@[k] == before[k]);
            }
        }
    }
    out
}


/// The summed per-source path counts over the first `upto` sources.
pub open spec fn total_cnt(r: Seq<CandidatePair>, fs1: Seq<FileEntry>, upto: int) -> nat
    decreases upto,
{
    if upto <= 0 {
        0
    } else {
        total_cnt(r, fs1, upto - 1) + (if 0 < upto <= fs1.len() {
            cnt_path(r, fs1[upto - 1].path@)
        } else {
            0nat
        })
    }
}

/// Dropping the last pair lowers exactly one summand by one, when its
/// source path is one of the distinct side-1 paths.
proof fn lemma_total_cnt_drop(r: Seq<CandidatePair>, fs1: Seq<FileEntry>, upto: int, hit: int)
    requires
        r.len() > 0,
        distinct_paths(fs1),
        0 <= hit < fs1.len(),
        r.last().file1.path@ == fs1[hit].path@,
        0 <= upto <= fs1.len(),
    ensures
        total_cnt(r, fs1, upto) == total_cnt(r.drop_last(), fs1, upto) + (if hit < upto {
            1nat
        } else {
            0nat
        }),
    decreases upto,
{
    if upto > 0 {
        lemma_total_cnt_drop(r, fs1, upto - 1, hit);
        if upto - 1 == hit {
            assert(cnt_path(r, fs1[upto - 1].path@) == cnt_path(
                r.drop_last(),
                fs1[upto - 1].path@,
            ) + 1);
        } else {
            assert(fs1[upto - 1].path@ != fs1[hit].path@);
            assert(cnt_path(r, fs1[upto - 1].path@) == cnt_path(
                r.drop_last(),
                fs1[upto - 1].path@,
            ));
        }
    }
}

/// When every pair's source path is a distinct side-1 path, the summed
/// counts are the length.
proof fn lemma_total_cnt_len(r: Seq<CandidatePair>, fs1: Seq<FileEntry>)
    requires
        distinct_paths(fs1),
        forall|k: int|
            0 <= k < r.len() ==> exists|i: int|
                0 <= i < fs1.len() && (#[trigger] r[k]).file1.path@ == (#[trigger] fs1[i]).path@,
    ensures
        total_cnt(r, fs1, fs1.len() as int) == r.len(),
    decreases r.len(),
{
    if r.len() == 0 {
        lemma_total_cnt_zero(r, fs1, fs1.len() as int);
    } else {
        let t = r.drop_last();
        assert(forall|k: int| 0 <= k < t.len() ==> t[k] == r[k]);
        lemma_total_cnt_len(t, fs1);
        let hit = choose|i: int|
            0 <= i < fs1.len() && r[r.len() - 1].file1.path@ == (#[trigger] fs1[i]).path@;
        assert(r.last().file1.path@ == fs1[hit].path@);
        lemma_total_cnt_drop(r, fs1, fs1.len() as int, hit);
    }
}

/// The summed counts of an empty batch are zero.
proof fn lemma_total_cnt_zero(r: Seq<CandidatePair>, fs1: Seq<FileEntry>, upto: int)
    requires
        r.len() == 0,
    ensures
        total_cnt(r, fs1, upto) == 0,
    decreases upto,
{
    if upto > 0 {
        lemma_total_cnt_zero(r, fs1, upto - 1);
    }
}

/// Summands bounded by the cap bound the sum.
proof fn lemma_total_cnt_bound(r: Seq<CandidatePair>, fs1: Seq<FileEntry>, upto: int, cap: nat)
    requires
        0 <= upto <= fs1.len(),
        forall|p: Seq<char>| #[trigger] cnt_path(r, p) <= cap,
    ensures
        total_cnt(r, fs1, upto) <= upto * cap,
    decreases upto,
{
    if upto > 0 {
        lemma_total_cnt_bound(r, fs1, upto - 1, cap);
        assert((upto - 1) * cap + cap == upto * cap) by (nonlinear_arith);
    }
}

/// The near-linear output bound: by the matcher's contract, the batch
/// never exceeds one pair per source for the hash pass or `top_k` per
/// source for the similarity pass, so the whole output holds at most
/// `files1.len() * max(top_k, 1)` pairs.
pub proof fn lemma_avsa_output_bound(
    r: Seq<CandidatePair>,
    fs1: Seq<FileEntry>,
    fs2: Seq<FileEntry>,
    top_k: usize,
)
    requires
        distinct_paths(fs1),
        forall|p: Seq<char>| #[trigger] cnt_path(r, p) <= cap_of(top_k),
        forall|k: int| 0 <= k < r.len() ==> pair_from(#[trigger] r[k], fs1, fs2),
    ensures
        r.len() <= fs1.len() * cap_of(top_k),
{
    assert forall|k: int| 0 <= k < r.len() implies exists|i: int|
        0 <= i < fs1.len() && (#[trigger] r[k]).file1.path@ == (#[trigger] fs1[i]).path@ by {
        let (i, j) = choose|i: int, j: int|
            0 <= i < fs1.len() && 0 <= j < fs2.len() && entry_like(r[k].file1, #[trigger] fs1[i])
                && entry_like(r[k].file2, #[trigger] fs2[j]);
        assert(r[k].file1.path@ == fs1[i].path@);
    }
    lemma_total_cnt_len(r, fs1);
    lemma_total_cnt_bound(r, fs1, fs1.len() as int, cap_of(top_k));
}

/// Generates the candidate pairs for one run under the configured
/// pairing strategy.
pub fn generate_candidates(
    files1: &Vec<FileEntry>,
    files2: &Vec<FileEntry>,
    config: &CompareConfig,
) -> (r: Vec<CandidatePair>)
    requires
        config.pairing is AllVsAll ==> distinct_paths(files1@) && distinct_paths(files2@),
    ensures
        forall|k: int| 0 <= k < r@.len() ==> sound_pair(#[trigger] r@[k]),
        forall|k: int| 0 <= k < r@.len() ==> pair_from(#[trigger] r@[k], files1@, files2@),
        config.pairing is SamePath ==> {
            &&& r@.len() == same_path_indices(files1@, files2@).len()
            &&& forall|k: int|
                0 <= k < r@.len() ==> pair_at(
                    #[trigger] r@[k],
                    files1@,
                    files2@,
                    same_path_indices(files1@, files2@)[k].0,
                    same_path_indices(files1@, files2@)[k].1,
                )
            &&& forall|k: int|
                0 <= k < r@.len() ==> (#[trigger] r@[k]).file1.path@ == r@[k].file2.path@
        },
        config.pairing is SameName ==> {
            &&& r@.len() == same_name_indices(files1@, files2@).len()
            &&& forall|k: int|
                0 <= k < r@.len() ==> pair_at(
                    #[trigger] r@[k],
                    files1@,
                    files2@,
                    same_name_indices(files1@, files2@)[k].0,
                    same_name_indices(files1@, files2@)[k].1,
                )
            &&& forall|k: int|
                0 <= k < r@.len() ==> basename_spec((#[trigger] r@[k]).file1.path@)
                    == basename_spec(r@[k].file2.path@)
        },
        config.pairing is AllVsAll ==> {
            &&& sorted_desc(r@)
            &&& forall|k: int| 0 <= k < r@.len() ==> sound_avsa_pair(#[trigger] r@[k])
            &&& forall|p: Seq<char>| #[trigger] cnt_path(r@, p) <= cap_of(config.top_k)
            &&& forall|k: int|
                0 <= k < r@.len() ==> no_consumed_reuse(#[trigger] r@[k], files1@, files2@)
            &&& forall|k: int|
                0 <= k < r@.len() ==> from_hash_pass(#[trigger] r@[k], files1@, files2@)
            &&& config.max_pairs is Some ==> r@.len() <= config.max_pairs->Some_0
            &&& config.max_pairs is None ==> forall|i: int|
                0 <= i < files1@.len() ==> cnt_path(r@, (#[trigger] files1@[i]).path@)
                    == expected_pair_count(files1@, files2@, config.top_k, i)
        },
{
    match config.pairing {
        PairingStrategy::SamePath => match_by_path(files1, files2),
        PairingStrategy::SameName => match_by_name(files1, files2),
        PairingStrategy::AllVsAll => all_vs_all_match(
            files1,
            files2,
            config.top_k,
            config.max_pairs,
        ),
    }
}

} // verus!
