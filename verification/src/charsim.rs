//! Character-level Jaro-Winkler similarity, computed exactly in parts
//! per million with integer arithmetic.

use vstd::prelude::*;
use crate::types::{valid_score, SCORE_UNIT};

verus! {

/// The Jaro search window: half the longer length, less one.
pub open spec fn search_range(al: nat, bl: nat) -> nat {
    let mx = if al >= bl {
        al
    } else {
        bl
    };
    if mx / 2 >= 1 {
        (mx / 2 - 1) as nat
    } else {
        0
    }
}

/// The first unflagged position in `[j, hi)` holding the wanted
/// character, or -1.
pub open spec fn find_free(c: char, b: Seq<char>, bf: Seq<bool>, j: int, hi: int) -> int
    decreases hi - j,
{
    if j < 0 || j >= hi || j >= b.len() || j >= bf.len() {
        -1
    } else if !bf[j] && b[j] == c {
        j
    } else {
        find_free(c, b, bf, j + 1, hi)
    }
}

/// The greedy matching state after the first `i` characters of `a`.
pub ghost struct JaroState {
    pub a_flags: Seq<bool>,
    pub b_flags: Seq<bool>,
    pub matches: nat,
}

/// One step of the greedy match: character `i` of `a` claims the first
/// free equal character of `b` inside the window.
pub open spec fn jaro_match(a: Seq<char>, b: Seq<char>, i: nat) -> JaroState
    decreases i,
{
    if i == 0 {
        JaroState {
            a_flags: Seq::new(a.len(), |k: int| false),
            b_flags: Seq::new(b.len(), |k: int| false),
            matches: 0,
        }
    } else {
        let st = jaro_match(a, b, (i - 1) as nat);
        let sr = search_range(a.len(), b.len());
        let lo = if i - 1 > sr {
            i - 1 - sr
        } else {
            0
        };
        let hi = if b.len() <= i - 1 + sr + 1 {
            b.len() as int
        } else {
            i - 1 + sr + 1
        };
        if 0 < i <= a.len() {
            let j = find_free(a[i - 1], b, st.b_flags, lo, hi);
            if j >= 0 {
                JaroState {
                    a_flags: st.a_flags.update(i - 1, true),
                    b_flags: st.b_flags.update(j, true),
                    matches: st.matches + 1,
                }
            } else {
                st
            }
        } else {
            st
        }
    }
}

/// The flagged characters, in order.
pub open spec fn flagged(s: Seq<char>, fl: Seq<bool>) -> Seq<char>
    decreases s.len(),
{
    if s.len() == 0 || fl.len() < s.len() {
        Seq::empty()
    } else if fl[s.len() - 1] {
        flagged(s.drop_last(), fl.take(s.len() - 1)).push(s.last())
    } else {
        flagged(s.drop_last(), fl.take(s.len() - 1))
    }
}

/// How many aligned positions of the two sequences differ.
pub open spec fn count_diffs(x: Seq<char>, y: Seq<char>, n: nat) -> nat
    decreases n,
{
    if n == 0 {
        0
    } else {
        count_diffs(x, y, (n - 1) as nat) + (if 0 < n <= x.len() && n <= y.len() && x[n - 1]
            != y[n - 1] {
            1nat
        } else {
            0nat
        })
    }
}

/// The Jaro similarity in parts per million: the mean of three scaled
/// ratios, each rounded down.
pub open spec fn jaro_ppm(a: Seq<char>, b: Seq<char>) -> u64 {
    if a.len() == 0 && b.len() == 0 {
        SCORE_UNIT
    } else if a.len() == 0 || b.len() == 0 {
        0u64
    } else {
        let st = jaro_match(a, b, a.len());
        let m = st.matches;
        if m == 0 {
            0u64
        } else {
            let ma = flagged(a, st.a_flags);
            let mb = flagged(b, st.b_flags);
            let mn = if ma.len() <= mb.len() {
                ma.len()
            } else {
                mb.len()
            };
            let t = count_diffs(ma, mb, mn) / 2;
            let term1 = (m * (SCORE_UNIT as nat)) / a.len();
            let term2 = (m * (SCORE_UNIT as nat)) / b.len();
            let term3 = (if m >= t {
                ((((m - t) as nat) * (SCORE_UNIT as nat)) / m) as int
            } else {
                0int
            });
            ((term1 + term2 + term3) / 3) as u64
        }
    }
}

/// The common prefix length of the two sequences, capped at four.
pub open spec fn winkler_prefix(a: Seq<char>, b: Seq<char>, i: nat) -> nat
    decreases i,
{
    if i == 0 {
        0
    } else {
        let p = winkler_prefix(a, b, (i - 1) as nat);
        if p == i - 1 && 0 < i <= a.len() && i <= b.len() && a[i - 1] == b[i - 1] {
            i
        } else {
            p
        }
    }
}

/// The Jaro-Winkler similarity in parts per million: the Jaro score,
/// boosted by the common prefix when it exceeds 0.7.
pub open spec fn jaro_winkler_ppm(a: Seq<char>, b: Seq<char>) -> u64 {
    let sim = jaro_ppm(a, b);
    if sim > 700000 {
        let l = winkler_prefix(a, b, 4);
        (sim + (l * ((SCORE_UNIT - sim) as nat)) / 10) as u64
    } else {
        sim
    }
}

/// Each scaled ratio stays at or below one.
proof fn lemma_ratio_bound(m: nat, l: nat)
    requires
        0 < l,
        m <= l,
    ensures
        (m * 1000000nat) / l <= 1000000,
{
    assert((m * 1000000nat) / l <= 1000000) by (nonlinear_arith)
        requires
            0 < l,
            m <= l,
    ;
}

/// The match count never exceeds either length.
proof fn lemma_matches_bound(a: Seq<char>, b: Seq<char>, i: nat)
    requires
        i <= a.len(),
    ensures
        jaro_match(a, b, i).matches <= i,
        jaro_match(a, b, i).a_flags.len() == a.len(),
        jaro_match(a, b, i).b_flags.len() == b.len(),
    decreases i,
{
    if i == 0 {
        assert(jaro_match(a, b, 0).a_flags.len() == a.len());
        assert(jaro_match(a, b, 0).b_flags.len() == b.len());
    } else {
        lemma_matches_bound(a, b, (i - 1) as nat);
        let st = jaro_match(a, b, (i - 1) as nat);
        let sr = search_range(a.len(), b.len());
        let lo = if i - 1 > sr {
            i - 1 - sr
        } else {
            0
        };
        let hi = if b.len() <= i - 1 + sr + 1 {
            b.len() as int
        } else {
            i - 1 + sr + 1
        };
        lemma_find_free_props(a[i - 1], b, st.b_flags, lo, hi);
    }
}

/// The Jaro score is a valid score.
pub proof fn lemma_jaro_bounded(a: Seq<char>, b: Seq<char>)
    ensures
        valid_score(jaro_ppm(a, b)),
{
    assert(SCORE_UNIT == 1000000);
    if a.len() > 0 && b.len() > 0 {
        let st = jaro_match(a, b, a.len());
        lemma_matches_bound(a, b, a.len());
        if st.matches > 0 {
            let m = st.matches;
            lemma_ratio_bound(m, a.len());
            assert(m <= b.len()) by {
                lemma_matches_bound_b(a, b, a.len());
            }
            lemma_ratio_bound(m, b.len());
            let ma = flagged(a, st.a_flags);
            let mb = flagged(b, st.b_flags);
            let mn = if ma.len() <= mb.len() {
                ma.len()
            } else {
                mb.len()
            };
            let t = count_diffs(ma, mb, mn) / 2;
            if m >= t {
                lemma_ratio_bound((m - t) as nat, m);
            }
        }
    }
}

/// The match count never exceeds the length of `b` either: every match
/// flags a fresh position of `b`.
proof fn lemma_matches_bound_b(a: Seq<char>, b: Seq<char>, i: nat)
    requires
        i <= a.len(),
    ensures
        jaro_match(a, b, i).matches <= count_true(jaro_match(a, b, i).b_flags),
        count_true(jaro_match(a, b, i).b_flags) <= b.len(),
        jaro_match(a, b, i).b_flags.len() == b.len(),
    decreases i,
{
    lemma_count_true_len(jaro_match(a, b, i).b_flags);
    if i > 0 {
        lemma_matches_bound_b(a, b, (i - 1) as nat);
        let st = jaro_match(a, b, (i - 1) as nat);
        let sr = search_range(a.len(), b.len());
        let lo = if i - 1 > sr {
            i - 1 - sr
        } else {
            0
        };
        let hi = if b.len() <= i - 1 + sr + 1 {
            b.len() as int
        } else {
            i - 1 + sr + 1
        };
        let j = find_free(a[i - 1], b, st.b_flags, lo, hi);
        if j >= 0 {
            lemma_find_free_props(a[i - 1], b, st.b_flags, lo, hi);
            lemma_count_true_update(st.b_flags, j);
        }
    }
}

/// How many flags are set.
pub open spec fn count_true(fl: Seq<bool>) -> nat
    decreases fl.len(),
{
    if fl.len() == 0 {
        0
    } else {
        count_true(fl.drop_last()) + (if fl.last() {
            1nat
        } else {
            0nat
        })
    }
}

/// The count of set flags is bounded by the length.
proof fn lemma_count_true_len(fl: Seq<bool>)
    ensures
        count_true(fl) <= fl.len(),
    decreases fl.len(),
{
    if fl.len() > 0 {
        lemma_count_true_len(fl.drop_last());
    }
}

/// Setting a clear flag raises the count by one.
proof fn lemma_count_true_update(fl: Seq<bool>, j: int)
    requires
        0 <= j < fl.len(),
        !fl[j],
    ensures
        count_true(fl.update(j, true)) == count_true(fl) + 1,
    decreases fl.len(),
{
    let upd = fl.update(j, true);
    if j == fl.len() - 1 {
        assert(upd.drop_last() =~= fl.drop_last());
    } else {
        assert(upd.drop_last() =~= fl.drop_last().update(j, true));
        lemma_count_true_update(fl.drop_last(), j);
    }
}

/// A found position is free, in range, and holds the character.
proof fn lemma_find_free_props(c: char, b: Seq<char>, bf: Seq<bool>, j: int, hi: int)
    requires
        j >= 0,
    ensures
        find_free(c, b, bf, j, hi) >= 0 ==> {
            &&& j <= find_free(c, b, bf, j, hi) < hi
            &&& find_free(c, b, bf, j, hi) < b.len()
            &&& find_free(c, b, bf, j, hi) < bf.len()
            &&& !bf[find_free(c, b, bf, j, hi)]
            &&& b[find_free(c, b, bf, j, hi)] == c
        },
        find_free(c, b, bf, j, hi) == -1 ==> forall|k: int|
            j <= k < hi && 0 <= k < b.len() && k < bf.len() ==> !(!bf[k] && b[k] == c),
    decreases hi - j,
{
    if j < 0 || j >= hi || j >= b.len() || j >= bf.len() {
    } else if !(!bf[j] && b[j] == c) {
        lemma_find_free_props(c, b, bf, j + 1, hi);
        if find_free(c, b, bf, j, hi) == -1 {
            assert forall|k: int|
                j <= k < hi && 0 <= k < b.len() && k < bf.len() implies !(!bf[k] && b[k]
                == c) by {
                if k > j {
                    assert(!(!bf[k] && b[k] == c));
                }
            }
        }
    }
}

/// The Jaro-Winkler score is a valid score.
pub proof fn lemma_jaro_winkler_bounded(a: Seq<char>, b: Seq<char>)
    ensures
        valid_score(jaro_winkler_ppm(a, b)),
{
    lemma_jaro_bounded(a, b);
    let sim = jaro_ppm(a, b);
    if sim > 700000 {
        let l = winkler_prefix(a, b, 4);
        assert(l <= 4) by {
            lemma_winkler_prefix_bound(a, b, 4);
        }
        assert((l * ((SCORE_UNIT - sim) as nat)) / 10 <= SCORE_UNIT - sim) by (nonlinear_arith)
            requires
                l <= 4,
                sim <= SCORE_UNIT,
                SCORE_UNIT == 1000000,
        ;
    }
}

/// The prefix length never exceeds its cap.
proof fn lemma_winkler_prefix_bound(a: Seq<char>, b: Seq<char>, i: nat)
    ensures
        winkler_prefix(a, b, i) <= i,
    decreases i,
{
    if i > 0 {
        lemma_winkler_prefix_bound(a, b, (i - 1) as nat);
    }
}

/// Computes the Jaro-Winkler similarity of two character sequences in
/// parts per million.
pub fn jaro_winkler(a: &Vec<char>, b: &Vec<char>) -> (r: u64)
    ensures
        r == jaro_winkler_ppm(a@, b@),
        valid_score(r),
{
    proof {
        lemma_jaro_winkler_bounded(a@, b@);
        lemma_jaro_bounded(a@, b@);
        assert(SCORE_UNIT == 1000000);
    }
    let al = a.len();
    let bl = b.len();
    if al == 0 && bl == 0 {
        proof {
            lemma_winkler_prefix_frozen(a@, b@, 0, 4);
            assert(jaro_ppm(a@, b@) == SCORE_UNIT);
            assert(jaro_winkler_ppm(a@, b@) == SCORE_UNIT);
        }
        return SCORE_UNIT;
    }
    if al == 0 || bl == 0 {
        return 0;
    }
    let mx = if al >= bl {
        al
    } else {
        bl
    };
    let sr = if mx / 2 >= 1 {
        mx / 2 - 1
    } else {
        0
    };
    proof {
        assert(sr == search_range(a@.len(), b@.len()));
    }
    let mut a_flags: Vec<bool> = Vec::new();
    let mut t: usize = 0;
    while t < al
        invariant
            0 <= t <= al,
            a_flags@.len() == t,
            forall|k: int| 0 <= k < t ==> !a_flags@[k],
        decreases al - t,
    {
        a_flags.push(false);
        t = t + 1;
    }
    let mut b_flags: Vec<bool> = Vec::new();
    let mut t2: usize = 0;
    while t2 < bl
        invariant
            0 <= t2 <= bl,
            b_flags@.len() == t2,
            forall|k: int| 0 <= k < t2 ==> !b_flags@[k],
        decreases bl - t2,
    {
        b_flags.push(false);
        t2 = t2 + 1;
    }
    let mut matches: usize = 0;
    let mut i: usize = 0;
    proof {
        assert(a_flags@ =~= jaro_match(a@, b@, 0).a_flags);
        assert(b_flags@ =~= jaro_match(a@, b@, 0).b_flags);
    }
    while i < al
        invariant
            0 <= i <= al == a@.len(),
            bl == b@.len(),
            al > 0 && bl > 0,
            sr == search_range(a@.len(), b@.len()),
            a_flags@ == jaro_match(a@, b@, i as nat).a_flags,
            b_flags@ == jaro_match(a@, b@, i as nat).b_flags,
            matches == jaro_match(a@, b@, i as nat).matches,
            a_flags@.len() == al,
            b_flags@.len() == bl,
            matches <= i,
        decreases al - i,
    {
        let lo0 = if i > sr {
            i - sr
        } else {
            0
        };
        let hi = if i >= bl {
            bl
        } else if bl - i <= sr + 1 {
            bl
        } else {
            i + sr + 1
        };
        let ghost glo = lo0 as int;
        let ghost ghi = hi as int;
        proof {
            assert(ghi == if b@.len() as int <= i + sr + 1 {
                b@.len() as int
            } else {
                i + sr + 1
            });
        }
        let c = a[i];
        let mut found: Option<usize> = None;
        if lo0 < hi {
            let mut j = lo0;
            loop
                invariant_except_break
                    found is None,
                    find_free(c, b@, b_flags@, glo, ghi) == find_free(
                        c,
                        b@,
                        b_flags@,
                        j as int,
                        ghi,
                    ),
                invariant
                    glo == lo0 as int,
                    ghi == hi as int,
                    glo <= j <= ghi,
                    ghi <= bl == b@.len(),
                    b_flags@.len() == bl,
                    i < a@.len(),
                    c == a@[i as int],
                ensures
                    found is None ==> find_free(c, b@, b_flags@, glo, ghi) == -1,
                    found is Some ==> {
                        &&& found->Some_0 < bl
                        &&& find_free(c, b@, b_flags@, glo, ghi) == found->Some_0
                        &&& !b_flags@[found->Some_0 as int]
                    },
                decreases hi - j,
            {
                if j >= hi {
                    proof {
                        assert(find_free(c, b@, b_flags@, j as int, ghi) == -1);
                    }
                    break;
                }
                if !b_flags[j] && a[i] == b[j] {
                    found = Some(j);
                    proof {
                        assert(find_free(c, b@, b_flags@, j as int, ghi) == j as int);
                    }
                    break;
                }
                j = j + 1;
            }
        } else {
            proof {
                assert(find_free(c, b@, b_flags@, glo, ghi) == -1);
            }
        }
        let ghost pre_a = a_flags@;
        let ghost pre_b = b_flags@;
        if let Some(j2) = found {
            a_flags.set(i, true);
            b_flags.set(j2, true);
            matches = matches + 1;
        }
        i = i + 1;
        proof {
            let sti = jaro_match(a@, b@, (i - 1) as nat);
            let st = jaro_match(a@, b@, i as nat);
            let slo = if i - 1 > sr {
                i - 1 - sr
            } else {
                0int
            };
            assert(slo == glo);
            if found is Some {
                let j2 = found->Some_0 as int;
                assert(find_free(a@[i - 1], b@, sti.b_flags, slo, ghi) == j2);
                assert(a_flags@ =~= pre_a.update(i - 1, true));
                assert(b_flags@ =~= pre_b.update(j2, true));
            } else {
                assert(find_free(a@[i - 1], b@, sti.b_flags, slo, ghi) == -1);
            }
            assert(a_flags@ == st.a_flags && b_flags@ == st.b_flags && matches == st.matches);
        }
    }
    if matches == 0 {
        proof {
            assert(jaro_ppm(a@, b@) == 0);
            assert(jaro_winkler_ppm(a@, b@) == 0);
        }
        return 0;
    }
    // Collect the matched characters of both sides in order.
    let ma = collect_flagged(a, &a_flags);
    let mb = collect_flagged(b, &b_flags);
    let mn = if ma.len() <= mb.len() {
        ma.len()
    } else {
        mb.len()
    };
    let mut diffs: usize = 0;
    let mut k: usize = 0;
    while k < mn
        invariant
            0 <= k <= mn,
            mn <= ma@.len(),
            mn <= mb@.len(),
            diffs == count_diffs(ma@, mb@, k as nat),
            diffs <= k,
        decreases mn - k,
    {
        if ma[k] != mb[k] {
            diffs = diffs + 1;
        }
        k = k + 1;
    }
    proof {
        lemma_count_diffs_stops(ma@, mb@, mn as nat);
    }
    let trans = diffs / 2;
    let m128 = matches as u128;
    let term1 = (m128 * 1000000) / (al as u128);
    let term2 = (m128 * 1000000) / (bl as u128);
    let term3 = if matches >= trans {
        (((matches - trans) as u128) * 1000000) / m128
    } else {
        0
    };
    let sim128 = (term1 + term2 + term3) / 3;
    proof {
        let st = jaro_match(a@, b@, a@.len());
        let gm = st.matches;
        let gma = flagged(a@, st.a_flags);
        let gmb = flagged(b@, st.b_flags);
        let gmn = if gma.len() <= gmb.len() {
            gma.len()
        } else {
            gmb.len()
        };
        let gt = count_diffs(gma, gmb, gmn) / 2;
        assert(gm == matches && gma == ma@ && gmb == mb@);
        assert(gt == trans);
        assert(term1 == (gm * 1000000nat) / a@.len());
        assert(term2 == (gm * 1000000nat) / b@.len());
        lemma_matches_bound(a@, b@, a@.len());
        lemma_matches_bound_b(a@, b@, a@.len());
        lemma_count_true_len(st.b_flags);
        lemma_ratio_bound(gm, a@.len());
        lemma_ratio_bound(gm, b@.len());
        if gm >= gt {
            lemma_ratio_bound((gm - gt) as nat, gm);
            assert(term3 == ((((gm - gt) as nat) * 1000000nat) / gm));
        }
        assert(sim128 == jaro_ppm(a@, b@));
    }
    let sim = sim128 as u64;
    if sim > 700000 {
        let mut l: usize = 0;
        loop
            invariant
                0 <= l <= 4,
                al == a@.len(),
                bl == b@.len(),
                winkler_prefix(a@, b@, l as nat) == l,
            ensures
                0 <= l <= 4,
                winkler_prefix(a@, b@, l as nat) == l,
                l == 4 || l >= al || l >= bl || a@[l as int] != b@[l as int],
            decreases 4 - l,
        {
            if l >= 4 || l >= al || l >= bl {
                break;
            }
            if a[l] != b[l] {
                break;
            }
            l = l + 1;
            proof {
                assert(winkler_prefix(a@, b@, l as nat) == l);
            }
        }
        proof {
            if l < 4 {
                lemma_winkler_prefix_frozen(a@, b@, l as nat, 4);
            }
            assert(winkler_prefix(a@, b@, 4) == l as nat);
            assert(sim <= 1000000);
        }
        let gap = 1000000 - sim;
        proof {
            assert((l as u64) as int * gap as int <= 4 * 1000000) by (nonlinear_arith)
                requires
                    l <= 4,
                    gap <= 1000000,
            ;
        }
        let boost = ((l as u64) * gap) / 10;
        sim + boost
    } else {
        sim
    }
}

/// Once the prefix run stops, the prefix length is frozen.
proof fn lemma_winkler_prefix_frozen(a: Seq<char>, b: Seq<char>, l: nat, i: nat)
    requires
        l <= i,
        winkler_prefix(a, b, l) == l,
        l == i || l >= a.len() || l >= b.len() || a[l as int] != b[l as int],
    ensures
        winkler_prefix(a, b, i) == l,
    decreases i,
{
    if i > l {
        lemma_winkler_prefix_frozen(a, b, l, (i - 1) as nat);
        lemma_winkler_prefix_bound(a, b, (i - 1) as nat);
    }
}

/// Counting stops contributing past either length.
proof fn lemma_count_diffs_stops(x: Seq<char>, y: Seq<char>, n: nat)
    ensures
        count_diffs(x, y, n) <= n,
    decreases n,
{
    if n > 0 {
        lemma_count_diffs_stops(x, y, (n - 1) as nat);
    }
}

/// Copies out the characters whose flag is set.
fn collect_flagged(s: &Vec<char>, fl: &Vec<bool>) -> (r: Vec<char>)
    requires
        s@.len() == fl@.len(),
    ensures
        r@ == flagged(s@, fl@),
{
    let mut r: Vec<char> = Vec::new();
    let mut i: usize = 0;
    let n = s.len();
    proof {
        assert(s@.take(0) =~= Seq::<char>::empty());
        assert(fl@.take(0) =~= Seq::<bool>::empty());
        assert(r@ =~= flagged(s@.take(0), fl@.take(0)));
    }
    while i < n
        invariant
            0 <= i <= n == s@.len(),
            fl@.len() == n,
            r@ == flagged(s@.take(i as int), fl@.take(i as int)),
        decreases n - i,
    {
        proof {
            assert(s@.take(i + 1).drop_last() =~= s@.take(i as int));
            assert(fl@.take(i + 1).take(i as int) =~= fl@.take(i as int));
            assert(s@.take(i + 1).last() == s@[i as int]);
            assert(fl@.take(i + 1)[i as int] == fl@[i as int]);
        }
        if fl[i] {
            r.push(s[i]);
        }
        i = i + 1;
    }
    proof {
        assert(s@.take(n as int) =~= s@);
        assert(fl@.take(n as int) =~= fl@);
    }
    r
}

} // verus!
