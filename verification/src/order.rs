//! Lexicographic order on character sequences, and a stable sorted
//! insertion used to sort column names and paths deterministically.

use vstd::prelude::*;
use vstd::relations::{antisymmetric, sorted_by, total_ordering};

verus! {

broadcast use vstd::seq_lib::group_to_multiset_ensures;

/// Lexicographic "less than or equal" on code points: the order of
/// Rust's `Ord` on `str` restricted to well-formed text.
pub open spec fn lex_le(a: Seq<char>, b: Seq<char>) -> bool
    decreases a.len(),
{
    if a.len() == 0 {
        true
    } else if b.len() == 0 {
        false
    } else if (a[0] as u32) < (b[0] as u32) {
        true
    } else if (a[0] as u32) > (b[0] as u32) {
        false
    } else {
        lex_le(a.drop_first(), b.drop_first())
    }
}

/// The order as a relation value, for `sorted_by` and `sort_by`.
pub open spec fn lex_leq() -> spec_fn(Seq<char>, Seq<char>) -> bool {
    |a: Seq<char>, b: Seq<char>| lex_le(a, b)
}

/// Equal code points are the same character.
pub proof fn lemma_char_eq(c1: char, c2: char)
    requires
        (c1 as u32) == (c2 as u32),
    ensures
        c1 == c2,
{
    vstd::utf8::char_u32_cast(c1, c1 as u32);
    vstd::utf8::char_u32_cast(c2, c2 as u32);
}

/// The order is reflexive.
pub proof fn lemma_lex_le_refl(a: Seq<char>)
    ensures
        lex_le(a, a),
    decreases a.len(),
{
    if a.len() > 0 {
        lemma_lex_le_refl(a.drop_first());
    }
}

/// Any two sequences are comparable.
pub proof fn lemma_lex_le_total(a: Seq<char>, b: Seq<char>)
    ensures
        lex_le(a, b) || lex_le(b, a),
    decreases a.len(),
{
    if a.len() > 0 && b.len() > 0 && !((a[0] as u32) < (b[0] as u32)) && !((a[0] as u32) > (
    b[0] as u32)) {
        lemma_char_eq(a[0], b[0]);
        lemma_lex_le_total(a.drop_first(), b.drop_first());
    }
}

/// Mutually ordered sequences are equal.
pub proof fn lemma_lex_le_antisym(a: Seq<char>, b: Seq<char>)
    requires
        lex_le(a, b),
        lex_le(b, a),
    ensures
        a == b,
    decreases a.len(),
{
    if a.len() == 0 {
        assert(b.len() == 0);
        assert(a =~= b);
    } else {
        assert(a[0] == b[0]) by {
            lemma_char_eq(a[0], b[0]);
        }
        lemma_lex_le_antisym(a.drop_first(), b.drop_first());
        assert(a =~= seq![a[0]] + a.drop_first());
        assert(b =~= seq![b[0]] + b.drop_first());
    }
}

/// The order is transitive.
pub proof fn lemma_lex_le_trans(a: Seq<char>, b: Seq<char>, c: Seq<char>)
    requires
        lex_le(a, b),
        lex_le(b, c),
    ensures
        lex_le(a, c),
    decreases a.len(),
{
    if a.len() > 0 && b.len() > 0 && c.len() > 0 {
        if !((a[0] as u32) < (b[0] as u32)) && !((a[0] as u32) > (b[0] as u32)) && !((
        b[0] as u32) < (c[0] as u32)) && !((b[0] as u32) > (c[0] as u32)) {
            lemma_char_eq(a[0], b[0]);
            lemma_char_eq(b[0], c[0]);
            lemma_lex_le_trans(a.drop_first(), b.drop_first(), c.drop_first());
        }
    }
}

/// The order is total, so vstd's sorting lemmas apply to it.
pub proof fn lemma_lex_total_ordering()
    ensures
        total_ordering(lex_leq()),
{
    let leq = lex_leq();
    assert forall|a: Seq<char>| #[trigger] leq(a, a) by {
        lemma_lex_le_refl(a);
    }
    assert forall|a: Seq<char>, b: Seq<char>| #[trigger] leq(a, b) && #[trigger] leq(b, a)
        implies a == b by {
        lemma_lex_le_antisym(a, b);
    }
    assert forall|a: Seq<char>, b: Seq<char>, c: Seq<char>|
        #[trigger] leq(a, b) && #[trigger] leq(b, c) implies leq(a, c) by {
        lemma_lex_le_trans(a, b, c);
    }
    assert forall|a: Seq<char>, b: Seq<char>| #![trigger leq(a, b)] true implies leq(a, b) || leq(
        b,
        a,
    ) by {
        lemma_lex_le_total(a, b);
    }
}

/// Two sorted sequences over an antisymmetric order with the same
/// multiset of elements are the same sequence.
pub proof fn lemma_sorted_multiset_unique<A>(s1: Seq<A>, s2: Seq<A>, leq: spec_fn(A, A) -> bool)
    requires
        sorted_by(s1, leq),
        sorted_by(s2, leq),
        antisymmetric(leq),
        s1.to_multiset() == s2.to_multiset(),
    ensures
        s1 == s2,
    decreases s1.len(),
{
    s1.to_multiset_ensures();
    s2.to_multiset_ensures();
    assert(s1.len() == s1.to_multiset().len());
    assert(s2.len() == s2.to_multiset().len());
    if s1.len() == 0 {
        assert(s1 =~= s2);
    } else {
        let x = s1[0];
        let y = s2[0];
        assert(s1.to_multiset().count(x) > 0);
        assert(s2.contains(x));
        assert(s1.contains(y)) by {
            assert(s2.to_multiset().count(y) > 0);
        }
        if x != y {
            let jx = choose|j: int| 0 <= j < s2.len() && s2[j] == x;
            assert(jx > 0);
            assert(leq(y, x));
            let jy = choose|j: int| 0 <= j < s1.len() && s1[j] == y;
            assert(jy > 0);
            assert(leq(x, y));
            assert(x == y);
        }
        let t1 = s1.drop_first();
        let t2 = s2.drop_first();
        assert(t1 =~= s1.remove(0));
        assert(t2 =~= s2.remove(0));
        vstd::seq_lib::to_multiset_remove(s1, 0);
        vstd::seq_lib::to_multiset_remove(s2, 0);
        assert(t1.to_multiset() == t2.to_multiset());
        assert(sorted_by(t1, leq)) by {
            assert(forall|i: int, j: int|
                0 <= i < j < t1.len() ==> t1[i] == s1[i + 1] && t1[j] == s1[j + 1]);
        }
        assert(sorted_by(t2, leq)) by {
            assert(forall|i: int, j: int|
                0 <= i < j < t2.len() ==> t2[i] == s2[i + 1] && t2[j] == s2[j + 1]);
        }
        lemma_sorted_multiset_unique(t1, t2, leq);
        assert(s1 =~= seq![x] + t1);
        assert(s2 =~= seq![y] + t2);
    }
}

/// Compares two character vectors in lexicographic order.
pub fn chars_le(a: &Vec<char>, b: &Vec<char>) -> (r: bool)
    ensures
        r == lex_le(a@, b@),
{
    let mut i: usize = 0;
    let an = a.len();
    let bn = b.len();
    proof {
        assert(a@.skip(0) =~= a@);
        assert(b@.skip(0) =~= b@);
    }
    while i < an && i < bn
        invariant
            0 <= i <= an == a@.len(),
            i <= bn == b@.len(),
            lex_le(a@, b@) == lex_le(a@.skip(i as int), b@.skip(i as int)),
            forall|k: int| 0 <= k < i ==> a@[k] == b@[k],
        decreases an - i,
    {
        let ca = a[i];
        let cb = b[i];
        if (ca as u32) < (cb as u32) {
            proof {
                assert(lex_le(a@.skip(i as int), b@.skip(i as int)));
            }
            return true;
        }
        if (ca as u32) > (cb as u32) {
            proof {
                assert(!lex_le(a@.skip(i as int), b@.skip(i as int)));
            }
            return false;
        }
        proof {
            assert(ca == cb) by {
                lemma_char_eq(ca, cb);
            }
            assert(a@.skip(i as int).drop_first() =~= a@.skip(i + 1));
            assert(b@.skip(i as int).drop_first() =~= b@.skip(i + 1));
        }
        i = i + 1;
    }
    proof {
        if i >= an {
            assert(a@.skip(i as int) =~= Seq::<char>::empty());
            assert(lex_le(a@.skip(i as int), b@.skip(i as int)));
        } else {
            assert(b@.skip(i as int) =~= Seq::<char>::empty());
            assert(a@.skip(i as int).len() > 0);
            assert(!lex_le(a@.skip(i as int), b@.skip(i as int)));
        }
    }
    i >= an
}

/// Sorts character sequences in lexicographic order; the result is the
/// unique sorted rearrangement of the input.
pub fn sort_char_seqs(v: &Vec<Vec<char>>) -> (r: Vec<Vec<char>>)
    ensures
        sorted_by(r.deep_view(), lex_leq()),
        r.deep_view().to_multiset() == v.deep_view().to_multiset(),
        r.deep_view() == v.deep_view().sort_by(lex_leq()),
{
    let mut r: Vec<Vec<char>> = Vec::new();
    let mut i: usize = 0;
    let n = v.len();
    proof {
        assert(r.deep_view() =~= Seq::<Seq<char>>::empty());
        assert(v.deep_view().take(0) =~= Seq::<Seq<char>>::empty());
        assert(r.deep_view().to_multiset() =~= v.deep_view().take(0).to_multiset());
    }
    while i < n
        invariant
            0 <= i <= n == v@.len(),
            sorted_by(r.deep_view(), lex_leq()),
            r.deep_view().to_multiset() == v.deep_view().take(i as int).to_multiset(),
        decreases n - i,
    {
        let x = v[i].clone();
        proof {
            assert(x@ == v@[i as int]@);
            assert(x@ == v.deep_view()[i as int]);
        }
        let mut pos: usize = 0;
        let rn = r.len();
        while pos < rn && chars_le(&r[pos], &x)
            invariant
                0 <= pos <= rn == r@.len(),
                forall|k: int| 0 <= k < pos ==> lex_le(#[trigger] r.deep_view()[k], x@),
            decreases rn - pos,
        {
            proof {
                assert(r.deep_view()[pos as int] == r@[pos as int]@);
            }
            pos = pos + 1;
        }
        let ghost old_dv = r.deep_view();
        proof {
            if pos < rn {
                assert(r.deep_view()[pos as int] == r@[pos as int]@);
                assert(!lex_le(r.deep_view()[pos as int], x@));
                lemma_lex_le_total(r.deep_view()[pos as int], x@);
                assert(lex_le(x@, r.deep_view()[pos as int]));
            }
        }
        r.insert(pos, x);
        i = i + 1;
        proof {
            assert(r.deep_view() =~~= old_dv.insert(pos as int, x@));
            assert(sorted_by(r.deep_view(), lex_leq())) by {
                let dv = r.deep_view();
                assert forall|k1: int, k2: int| 0 <= k1 < k2 < dv.len() implies lex_leq()(
                    dv[k1],
                    dv[k2],
                ) by {
                    if k1 < pos && k2 > pos {
                        assert(dv[k1] == old_dv[k1]);
                        assert(dv[k2] == old_dv[k2 - 1]);
                    } else if k2 == pos {
                        assert(dv[k1] == old_dv[k1]);
                        assert(lex_le(old_dv[k1], x@));
                    } else if k1 == pos && k2 > pos {
                        assert(dv[k2] == old_dv[k2 - 1]);
                        assert(lex_le(x@, old_dv[pos as int]));
                        assert(lex_le(old_dv[pos as int], old_dv[k2 - 1]) || pos == k2 - 1) by {
                            if pos < k2 - 1 {
                                assert(lex_leq()(old_dv[pos as int], old_dv[k2 - 1]));
                            }
                        }
                        if pos < k2 - 1 {
                            lemma_lex_le_trans(x@, old_dv[pos as int], old_dv[k2 - 1]);
                        }
                    }
                }
            }
            vstd::seq_lib::to_multiset_insert(old_dv, pos as int, x@);
            v.deep_view().take(i - 1).to_multiset_ensures();
            assert(v.deep_view().take(i as int) =~= v.deep_view().take(i - 1).push(x@));
            vstd::seq_lib::to_multiset_build(v.deep_view().take(i - 1), x@);
            assert(r.deep_view().to_multiset() =~= v.deep_view().take(i as int).to_multiset());
        }
    }
    proof {
        assert(v.deep_view().take(n as int) =~= v.deep_view());
        lemma_lex_total_ordering();
        v.deep_view().lemma_sort_by_ensures(lex_leq());
        lemma_sorted_multiset_unique(
            r.deep_view(),
            v.deep_view().sort_by(lex_leq()),
            lex_leq(),
        );
    }
    r
}

} // verus!
