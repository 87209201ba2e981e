//! Exact numeric field comparison: bounded decimal parsing and
//! tolerance checks carried out in integer arithmetic.
//!
//! A value is numeric here when it is a finite plain or exponent-form
//! decimal of at most ten significant digits whose scale lies within
//! nine places of the decimal point.  Anything else, including wider
//! decimals, infinities and non-numbers, is compared byte for byte:
//! that keeps every comparison exact instead of approximating with
//! binary floating point.

use vstd::prelude::*;
use vstd::arithmetic::power::pow;
use crate::text::{chars_of, find_c, lemma_find_c};
use crate::types::Tolerance;

verus! {

/// A parsed decimal: `(-1)^neg * mantissa * 10^exp10`.
#[derive(Debug, Clone, Copy, PartialEq, Eq, Structural)]
pub struct Decimal {
    pub neg: bool,
    pub mantissa: u64,
    pub exp10: i32,
}

impl Decimal {
    /// The bounds under which tolerance arithmetic stays exact.
    pub open spec fn wf(&self) -> bool {
        self.mantissa < 10000000000 && -9 <= self.exp10 <= 9
    }
}

/// Whether the character is a decimal digit.
pub open spec fn is_digit(c: char) -> bool {
    '0' <= c && c <= '9'
}

/// The numeric value of one digit character.
pub open spec fn digit_of(c: char) -> nat {
    ((c as u32) - 48) as nat
}

/// Whether every character is a digit.
pub open spec fn all_digits(s: Seq<char>) -> bool {
    forall|k: int| 0 <= k < s.len() ==> is_digit(#[trigger] s[k])
}

/// The value of a digit string.
pub open spec fn digits_val(s: Seq<char>) -> nat
    decreases s.len(),
{
    if s.len() == 0 {
        0
    } else {
        digits_val(s.drop_last()) * 10 + digit_of(s.last())
    }
}

/// Index of the first exponent marker (`e` or `E`), or -1.
pub open spec fn find_exp(t: Seq<char>) -> int
    decreases t.len(),
{
    if t.len() == 0 {
        -1
    } else if t[0] == 'e' || t[0] == 'E' {
        0
    } else {
        let r = find_exp(t.drop_first());
        if r < 0 {
            -1
        } else {
            r + 1
        }
    }
}

/// `find_exp` finds exactly the first marker.
pub proof fn lemma_find_exp(t: Seq<char>)
    ensures
        find_exp(t) == -1 ==> forall|k: int| 0 <= k < t.len() ==> t[k] != 'e' && t[k] != 'E',
        find_exp(t) >= 0 ==> {
            &&& find_exp(t) < t.len()
            &&& (t[find_exp(t)] == 'e' || t[find_exp(t)] == 'E')
            &&& forall|k: int| 0 <= k < find_exp(t) ==> t[k] != 'e' && t[k] != 'E'
        },
    decreases t.len(),
{
    if t.len() > 0 && t[0] != 'e' && t[0] != 'E' {
        lemma_find_exp(t.drop_first());
        assert(forall|k: int| 1 <= k < t.len() ==> t[k] == t.drop_first()[k - 1]);
    }
}

/// The sign of a number text and the text after it.
pub open spec fn sign_of(s: Seq<char>) -> bool {
    s.len() > 0 && s[0] == '-'
}

/// The text after an optional sign.
pub open spec fn after_sign(s: Seq<char>) -> Seq<char> {
    if s.len() > 0 && (s[0] == '-' || s[0] == '+') {
        s.drop_first()
    } else {
        s
    }
}

/// The parsed decimal of a number text, when the text is a plain finite
/// decimal within the exactness bounds: an optional sign, digits with
/// an optional point, and an optional signed exponent.
pub open spec fn parse_decimal_spec(s: Seq<char>) -> Option<Decimal> {
    let neg = sign_of(s);
    let rest = after_sign(s);
    let ei = find_exp(rest);
    let mant = if ei < 0 {
        rest
    } else {
        rest.take(ei)
    };
    let exps = if ei < 0 {
        Seq::<char>::empty()
    } else {
        rest.skip(ei + 1)
    };
    let di = find_c(mant, '.');
    let ip = if di < 0 {
        mant
    } else {
        mant.take(di)
    };
    let fp = if di < 0 {
        Seq::<char>::empty()
    } else {
        mant.skip(di + 1)
    };
    let eneg = sign_of(exps);
    let ed = after_sign(exps);
    let grammar_ok = {
        &&& ip.len() + fp.len() > 0
        &&& all_digits(ip)
        &&& all_digits(fp)
        &&& (ei >= 0 ==> ed.len() > 0 && all_digits(ed))
    };
    if grammar_ok {
        let m = digits_val(ip + fp);
        let ev = if eneg {
            -(digits_val(ed) as int)
        } else {
            digits_val(ed) as int
        };
        let e = ev - fp.len();
        if m < 10000000000 && -9 <= e <= 9 {
            Some(Decimal { neg, mantissa: m as u64, exp10: e as i32 })
        } else {
            None
        }
    } else {
        None
    }
}

/// The exact rational value of a parsed decimal, scaled by `10^9` so
/// that it is an integer.
pub open spec fn scaled_value(d: Decimal) -> int {
    let mag = (d.mantissa as int) * pow(10, (d.exp10 + 9) as nat);
    if d.neg {
        -mag
    } else {
        mag
    }
}

/// Two number texts are equal under a tolerance: byte-identical, or
/// both parse and their difference passes the absolute or the relative
/// test.
pub open spec fn values_equal_spec(v1: Seq<char>, v2: Seq<char>, tol: Tolerance) -> bool {
    if v1 == v2 {
        true
    } else {
        match (parse_decimal_spec(v1), parse_decimal_spec(v2)) {
            (Some(d1), Some(d2)) => within_tolerance(d1, d2, tol),
            _ => false,
        }
    }
}

/// The tolerance test over scaled integers: `|n1 - n2| <= tol`, or
/// `max(|n1|, |n2|) > 0` and `|n1 - n2| / max(|n1|, |n2|) <= tol`.
pub open spec fn within_tolerance(d1: Decimal, d2: Decimal, tol: Tolerance) -> bool {
    let v1 = scaled_value(d1);
    let v2 = scaled_value(d2);
    let diff = if v1 >= v2 {
        v1 - v2
    } else {
        v2 - v1
    };
    let a1 = if v1 >= 0 {
        v1
    } else {
        -v1
    };
    let a2 = if v2 >= 0 {
        v2
    } else {
        -v2
    };
    let mx = if a1 >= a2 {
        a1
    } else {
        a2
    };
    let t = (tol.num as int) * pow(10, (9 - tol.exp10) as nat);
    ||| diff <= t
    ||| (mx > 0 && diff * pow(10, tol.exp10 as nat) <= (tol.num as int) * mx)
}

/// Powers of ten up to `10^18`, as exec values.
pub fn pow10_u64(e: u32) -> (r: u64)
    requires
        e <= 18,
    ensures
        r == pow(10, e as nat),
        r >= 1,
{
    let mut r: u64 = 1;
    let mut i: u32 = 0;
    proof {
        vstd::arithmetic::power::lemma_pow_positive(10, e as nat);
        assert(pow(10, 0) == 1) by {
            vstd::arithmetic::power::lemma_pow0(10);
        }
    }
    while i < e
        invariant
            0 <= i <= e <= 18,
            r == pow(10, i as nat),
            r <= 0xDE0B6B3A7640000,
        decreases e - i,
    {
        proof {
            assert(pow(10, (i + 1) as nat) == pow(10, i as nat) * 10) by {
                vstd::arithmetic::power::lemma_pow1(10);
                vstd::arithmetic::power::lemma_pow_adds(10, i as nat, 1);
            }
            assert(pow(10, i as nat) <= pow(10, 17)) by {
                if (i as nat) < 17 {
                    vstd::arithmetic::power::lemma_pow_strictly_increases(10, i as nat, 17);
                }
            }
            assert(pow(10, 17) == 0x16345785D8A0000) by {
                reveal_with_fuel(vstd::arithmetic::power::pow, 20);
            }
        }
        r = r * 10;
        i = i + 1;
    }
    r
}

/// One saturating digit-accumulation step stays faithful to the capped
/// value.
proof fn lemma_cap_step(v: nat, full: nat, d: nat, cap: nat)
    requires
        d < 10,
        cap >= 1,
        v == if full <= cap {
            full
        } else {
            cap
        },
    ensures
        (if 10 * v + d <= cap {
            10 * v + d
        } else {
            cap
        }) == (if 10 * full + d <= cap {
            10 * full + d
        } else {
            cap
        }),
{
    if full > cap {
        assert(10 * full + d > cap);
        assert(10 * v + d >= 10 * cap >= cap);
    }
}

/// Accumulates the value of a digit run onto an already accumulated
/// ghost prefix, saturating at the cap.
fn digits_val_capped_from(
    s: &Vec<char>,
    from: usize,
    to: usize,
    cap: u128,
    init: u128,
    Ghost(prefix): Ghost<Seq<char>>,
) -> (r: u128)
    requires
        from <= to <= s@.len(),
        1 <= cap <= 0x10000000000000000000000000000u128,
        all_digits(s@.subrange(from as int, to as int)),
        init == (if digits_val(prefix) <= cap {
            digits_val(prefix) as u128
        } else {
            cap
        }),
    ensures
        r == (if digits_val(prefix + s@.subrange(from as int, to as int)) <= cap {
            digits_val(prefix + s@.subrange(from as int, to as int)) as u128
        } else {
            cap
        }),
{
    let mut r: u128 = init;
    let mut i = from;
    let ghost whole = s@.subrange(from as int, to as int);
    proof {
        assert(s@.subrange(from as int, from as int) =~= Seq::<char>::empty());
        assert(prefix + s@.subrange(from as int, from as int) =~= prefix);
    }
    while i < to
        invariant
            from <= i <= to <= s@.len(),
            1 <= cap <= 0x10000000000000000000000000000u128,
            whole == s@.subrange(from as int, to as int),
            all_digits(whole),
            r == (if digits_val(prefix + s@.subrange(from as int, i as int)) <= cap {
                digits_val(prefix + s@.subrange(from as int, i as int)) as u128
            } else {
                cap
            }),
        decreases to - i,
    {
        let c = s[i];
        proof {
            assert(whole[i - from] == s@[i as int]);
            assert(is_digit(c));
        }
        let d = ((c as u32) - 48) as u128;
        let v = 10 * r + d;
        let stepped = if v <= cap {
            v
        } else {
            cap
        };
        proof {
            let prev = prefix + s@.subrange(from as int, i as int);
            let cur = prefix + s@.subrange(from as int, i + 1);
            assert(cur.drop_last() =~= prev);
            assert(cur.last() == s@[i as int]);
            assert(digits_val(cur) == digits_val(prev) * 10 + digit_of(s@[i as int]));
            lemma_cap_step(
                (if digits_val(prev) <= cap {
                    digits_val(prev)
                } else {
                    cap as nat
                }),
                digits_val(prev),
                digit_of(s@[i as int]),
                cap as nat,
            );
        }
        r = stepped;
        i = i + 1;
    }
    r
}

/// Accumulates the value of a digit run, saturating at the cap.
fn digits_val_capped(s: &Vec<char>, from: usize, to: usize, cap: u128) -> (r: u128)
    requires
        from <= to <= s@.len(),
        1 <= cap <= 0x10000000000000000000000000000u128,
        all_digits(s@.subrange(from as int, to as int)),
    ensures
        r == (if digits_val(s@.subrange(from as int, to as int)) <= cap {
            digits_val(s@.subrange(from as int, to as int)) as u128
        } else {
            cap
        }),
{
    proof {
        assert(Seq::<char>::empty() + s@.subrange(from as int, to as int) =~= s@.subrange(
            from as int,
            to as int,
        ));
        assert(digits_val(Seq::<char>::empty()) == 0);
    }
    digits_val_capped_from(s, from, to, cap, 0, Ghost(Seq::<char>::empty()))
}

/// Parses a number text into a bounded decimal; texts outside the
/// grammar or the exactness bounds yield nothing.
#[verifier::spinoff_prover]
#[verifier::rlimit(100)]
pub fn parse_decimal(text: &str) -> (r: Option<Decimal>)
    ensures
        r == parse_decimal_spec(text@),
        r is Some ==> r->Some_0.wf(),
{
    let s = chars_of(text);
    let n = s.len();
    let mut start: usize = 0;
    let mut neg = false;
    if n > 0 && (s[0] == '-' || s[0] == '+') {
        neg = s[0] == '-';
        start = 1;
    }
    proof {
        assert(neg == sign_of(text@));
        assert(s@.subrange(start as int, n as int) =~= after_sign(text@));
    }
    let ghost rest = after_sign(text@);
    // Locate the exponent marker.
    let mut ei: usize = start;
    let mut has_exp = false;
    while ei < n && !has_exp
        invariant
            start <= ei <= n == s@.len(),
            rest == s@.subrange(start as int, n as int),
            !has_exp ==> forall|k: int|
                start <= k < ei ==> s@[k] != 'e' && s@[k] != 'E',
            has_exp ==> start <= ei < n && (s@[ei as int] == 'e' || s@[ei as int] == 'E')
                && forall|k: int| start <= k < ei ==> s@[k] != 'e' && s@[k] != 'E',
        decreases n - ei + (if has_exp {
            0int
        } else {
            1int
        }),
    {
        if s[ei] == 'e' || s[ei] == 'E' {
            has_exp = true;
        } else {
            ei = ei + 1;
        }
    }
    proof {
        lemma_find_exp(rest);
        assert(forall|k: int| 0 <= k < rest.len() ==> rest[k] == s@[start + k]);
        if has_exp {
            assert(rest[ei - start] == 'e' || rest[ei - start] == 'E');
            assert forall|k: int| 0 <= k < ei - start implies rest[k] != 'e' && rest[k]
                != 'E' by {
                assert(rest[k] == s@[start + k]);
            }
            assert(find_exp(rest) == ei - start);
        } else {
            assert forall|k: int| 0 <= k < rest.len() implies rest[k] != 'e' && rest[k]
                != 'E' by {
                assert(rest[k] == s@[start + k]);
            }
            assert(find_exp(rest) == -1);
        }
    }
    let mant_end = ei;
    let ghost mant = if find_exp(rest) < 0 {
        rest
    } else {
        rest.take(find_exp(rest))
    };
    proof {
        assert(mant =~= s@.subrange(start as int, mant_end as int));
    }
    // Locate the decimal point.
    let mut di: usize = start;
    let mut has_dot = false;
    while di < mant_end && !has_dot
        invariant
            start <= di <= mant_end <= n == s@.len(),
            mant == s@.subrange(start as int, mant_end as int),
            !has_dot ==> forall|k: int| start <= k < di ==> s@[k] != '.',
            has_dot ==> start <= di < mant_end && s@[di as int] == '.' && forall|k: int|
                start <= k < di ==> s@[k] != '.',
        decreases mant_end - di + (if has_dot {
            0int
        } else {
            1int
        }),
    {
        if s[di] == '.' {
            has_dot = true;
        } else {
            di = di + 1;
        }
    }
    proof {
        lemma_find_c(mant, '.');
        assert(forall|k: int| 0 <= k < mant.len() ==> mant[k] == s@[start + k]);
        if has_dot {
            assert(mant[di - start] == '.');
            assert forall|k: int| 0 <= k < di - start implies mant[k] != '.' by {
                assert(mant[k] == s@[start + k]);
            }
            assert(find_c(mant, '.') == di - start);
        } else {
            assert forall|k: int| 0 <= k < mant.len() implies mant[k] != '.' by {
                assert(mant[k] == s@[start + k]);
            }
            assert(find_c(mant, '.') == -1);
        }
    }
    parse_located(&s, neg, start, mant_end, has_exp, di, has_dot, Ghost(text@))
}

/// Finishes parsing once the sign, exponent marker and decimal point
/// have been located.
#[verifier::spinoff_prover]
#[verifier::rlimit(100)]
fn parse_located(
    s: &Vec<char>,
    neg: bool,
    start: usize,
    mant_end: usize,
    has_exp: bool,
    di: usize,
    has_dot: bool,
    Ghost(orig): Ghost<Seq<char>>,
) -> (r: Option<Decimal>)
    requires
        s@ == orig,
        start <= mant_end <= s@.len(),
        start <= di <= mant_end,
        neg == sign_of(orig),
        after_sign(orig) == s@.subrange(start as int, s@.len() as int),
        has_exp <==> find_exp(after_sign(orig)) >= 0,
        has_exp ==> mant_end - start == find_exp(after_sign(orig)),
        !has_exp ==> mant_end == s@.len(),
        ({
            let rest = after_sign(orig);
            let mant = if find_exp(rest) < 0 {
                rest
            } else {
                rest.take(find_exp(rest))
            };
            &&& (has_dot <==> find_c(mant, '.') >= 0)
            &&& (has_dot ==> di - start == find_c(mant, '.') && di < mant_end)
            &&& (!has_dot ==> di == mant_end)
        }),
    ensures
        r == parse_decimal_spec(orig),
        r is Some ==> r->Some_0.wf(),
{
    let n = s.len();
    let ghost rest = after_sign(orig);
    let ghost mant = if find_exp(rest) < 0 {
        rest
    } else {
        rest.take(find_exp(rest))
    };
    proof {
        lemma_find_exp(rest);
        assert(mant =~= s@.subrange(start as int, mant_end as int));
        if has_exp {
            assert(find_exp(rest) < rest.len());
            assert(mant_end < n);
        }
    }
    let ei = mant_end;
    let ip_end = di;
    let fp_start = if has_dot {
        di + 1
    } else {
        mant_end
    };
    let ghost gdi = find_c(mant, '.');
    let ghost ip = if gdi < 0 {
        mant
    } else {
        mant.take(gdi)
    };
    let ghost fp = if gdi < 0 {
        Seq::<char>::empty()
    } else {
        mant.skip(gdi + 1)
    };
    proof {
        assert(ip =~= s@.subrange(start as int, ip_end as int));
        assert(fp =~= s@.subrange(fp_start as int, mant_end as int));
    }
    // Check digits of the integer and fractional parts.
    if !check_digits(&s, start, ip_end) {
        proof {
            assert(!all_digits(ip));
        }
        return None;
    }
    if !check_digits(&s, fp_start, mant_end) {
        proof {
            assert(!all_digits(fp));
        }
        return None;
    }
    if ip_end - start == 0 && mant_end - fp_start == 0 {
        proof {
            assert(ip.len() + fp.len() == 0);
        }
        return None;
    }
    // Mantissa value, saturating just past the exactness bound.
    let mcap: u128 = 10000000000;
    let m1 = digits_val_capped(s, start, ip_end, mcap);
    proof {
        assert(ip =~= s@.subrange(start as int, ip_end as int));
    }
    let m = digits_val_capped_from(s, fp_start, mant_end, mcap, m1, Ghost(ip));
    proof {
        assert(ip + s@.subrange(fp_start as int, mant_end as int) =~= ip + fp);
    }
    if m >= 10000000000 {
        proof {
            assert(digits_val(ip + fp) >= 10000000000);
        }
        return None;
    }
    finish_with_exponent(s, neg, start, ip_end, fp_start, mant_end, has_exp, m as u64, Ghost(orig))
}

/// Finishes parsing once the mantissa is known to be in bounds: checks
/// the exponent part and assembles the decimal.
#[verifier::spinoff_prover]
#[verifier::rlimit(100)]
fn finish_with_exponent(
    s: &Vec<char>,
    neg: bool,
    start: usize,
    ip_end: usize,
    fp_start: usize,
    mant_end: usize,
    has_exp: bool,
    m: u64,
    Ghost(orig): Ghost<Seq<char>>,
) -> (r: Option<Decimal>)
    requires
        s@ == orig,
        start <= ip_end <= fp_start <= mant_end <= s@.len(),
        neg == sign_of(orig),
        after_sign(orig) == s@.subrange(start as int, s@.len() as int),
        has_exp <==> find_exp(after_sign(orig)) >= 0,
        has_exp ==> mant_end - start == find_exp(after_sign(orig)),
        !has_exp ==> mant_end == s@.len(),
        ({
            let rest = after_sign(orig);
            let ei = find_exp(rest);
            let mant = if ei < 0 {
                rest
            } else {
                rest.take(ei)
            };
            let di = find_c(mant, '.');
            let ip = if di < 0 {
                mant
            } else {
                mant.take(di)
            };
            let fp = if di < 0 {
                Seq::<char>::empty()
            } else {
                mant.skip(di + 1)
            };
            &&& ip == s@.subrange(start as int, ip_end as int)
            &&& fp == s@.subrange(fp_start as int, mant_end as int)
            &&& all_digits(ip)
            &&& all_digits(fp)
            &&& ip.len() + fp.len() > 0
            &&& m == digits_val(ip + fp)
            &&& m < 10000000000
        }),
    ensures
        r == parse_decimal_spec(orig),
        r is Some ==> r->Some_0.wf(),
{
    let n = s.len();
    let ei = mant_end;
    let ghost rest = after_sign(orig);
    let ghost mant = if find_exp(rest) < 0 {
        rest
    } else {
        rest.take(find_exp(rest))
    };
    let ghost gdi = find_c(mant, '.');
    let ghost ip = if gdi < 0 {
        mant
    } else {
        mant.take(gdi)
    };
    let ghost fp = if gdi < 0 {
        Seq::<char>::empty()
    } else {
        mant.skip(gdi + 1)
    };
    proof {
        lemma_find_exp(rest);
        if has_exp {
            assert(find_exp(rest) < rest.len());
            assert(mant_end < n);
        }
    }
    // Exponent part.
    let ghost exps = if find_exp(rest) < 0 {
        Seq::<char>::empty()
    } else {
        rest.skip(find_exp(rest) + 1)
    };
    let mut eneg = false;
    let mut ed_start: usize = n;
    let mut ed_end: usize = n;
    if has_exp {
        let es = ei + 1;
        proof {
            assert(rest.skip(find_exp(rest) + 1) =~= s@.subrange(es as int, n as int));
            assert(exps =~= s@.subrange(es as int, n as int));
        }
        let mut es2 = es;
        if es < n && (s[es] == '-' || s[es] == '+') {
            eneg = s[es] == '-';
            es2 = es + 1;
        }
        proof {
            assert(eneg == sign_of(exps));
            assert(after_sign(exps) =~= s@.subrange(es2 as int, n as int));
        }
        if es2 == n {
            proof {
                assert(after_sign(exps).len() == 0);
            }
            return None;
        }
        if !check_digits(s, es2, n) {
            proof {
                assert(!all_digits(after_sign(exps)));
            }
            return None;
        }
        ed_start = es2;
        ed_end = n;
    } else {
        proof {
            assert(exps =~= Seq::<char>::empty());
            assert(after_sign(exps) =~= Seq::<char>::empty());
        }
    }
    let ghost ed = after_sign(exps);
    proof {
        if has_exp {
            assert(ed =~= s@.subrange(ed_start as int, ed_end as int));
        } else {
            assert(ed =~= s@.subrange(ed_start as int, ed_end as int));
        }
    }
    // Exponent value, saturating far past any reachable bound.
    let ecap: u128 = 0x10000000000000000000000000000;
    let ev = digits_val_capped(s, ed_start, ed_end, ecap);
    let fplen = mant_end - fp_start;
    // e = (sign) ev - fplen, compared against [-9, 9].
    let e_ok: bool = if eneg {
        // e = -ev - fplen: needs -9 <= -ev - fplen <= 9.
        ev <= 9 && (ev + fplen as u128) <= 9
    } else {
        // e = ev - fplen.
        (ev <= (fplen as u128) + 9) && (ev + 9 >= fplen as u128)
    };
    let ghost gev = if sign_of(exps) {
        -(digits_val(ed) as int)
    } else {
        digits_val(ed) as int
    };
    let ghost ge = gev - fp.len();
    proof {
        assert(fplen == fp.len());
        if digits_val(ed) <= ecap {
            assert(ev == digits_val(ed));
        } else {
            assert(ev == ecap);
            assert(digits_val(ed) > ecap);
            assert(fplen as u128 + 9 < ecap);
        }
        assert(e_ok == (-9 <= ge && ge <= 9));
    }
    if !e_ok {
        return None;
    }
    let e: i32 = if eneg {
        -((ev as i32) + (fplen as i32))
    } else {
        if ev >= fplen as u128 {
            (ev - fplen as u128) as i32
        } else {
            -((fplen as u128 - ev) as i32)
        }
    };
    proof {
        assert(e == ge);
    }
    Some(Decimal { neg, mantissa: m as u64, exp10: e })
}

/// Checks that a range holds only digits.
fn check_digits(s: &Vec<char>, from: usize, to: usize) -> (r: bool)
    requires
        from <= to <= s@.len(),
    ensures
        r == all_digits(s@.subrange(from as int, to as int)),
{
    let mut i = from;
    while i < to
        invariant
            from <= i <= to <= s@.len(),
            forall|k: int| from <= k < i ==> is_digit(#[trigger] s@[k]),
        decreases to - i,
    {
        let c = s[i];
        if !('0' <= c && c <= '9') {
            proof {
                assert(s@.subrange(from as int, to as int)[i - from] == s@[i as int]);
                assert(!is_digit(s@[i as int]));
            }
            return false;
        }
        i = i + 1;
    }
    proof {
        assert(forall|k: int|
            0 <= k < to - from ==> s@.subrange(from as int, to as int)[k] == s@[from + k]);
    }
    true
}

/// Decides equality of two field values under the numeric tolerance.
pub fn values_equal(val1: &str, val2: &str, tolerance: &Tolerance) -> (r: bool)
    requires
        tolerance.wf(),
    ensures
        r == values_equal_spec(val1@, val2@, *tolerance),
{
    let c1 = chars_of(val1);
    let c2 = chars_of(val2);
    if crate::text::chars_eq(&c1, &c2) {
        return true;
    }
    let d1 = match parse_decimal(val1) {
        Some(d) => d,
        None => {
            return false;
        },
    };
    let d2 = match parse_decimal(val2) {
        Some(d) => d,
        None => {
            return false;
        },
    };
    decimals_within(d1, d2, tolerance)
}

/// Decides the tolerance test on two parsed decimals.
#[verifier::spinoff_prover]
#[verifier::rlimit(100)]
pub fn decimals_within(d1: Decimal, d2: Decimal, tol: &Tolerance) -> (r: bool)
    requires
        d1.wf(),
        d2.wf(),
        tol.wf(),
    ensures
        r == within_tolerance(d1, d2, *tol),
{
    proof {
        assert(pow(10, (d1.exp10 + 9) as nat) <= 1000000000000000000) by {
            if ((d1.exp10 + 9) as nat) < 18 {
                vstd::arithmetic::power::lemma_pow_strictly_increases(
                    10,
                    (d1.exp10 + 9) as nat,
                    18,
                );
            }
            assert(pow(10, 18) == 1000000000000000000) by {
                reveal_with_fuel(vstd::arithmetic::power::pow, 20);
            }
        }
        assert(pow(10, (d2.exp10 + 9) as nat) <= 1000000000000000000) by {
            if ((d2.exp10 + 9) as nat) < 18 {
                vstd::arithmetic::power::lemma_pow_strictly_increases(
                    10,
                    (d2.exp10 + 9) as nat,
                    18,
                );
            }
            assert(pow(10, 18) == 1000000000000000000) by {
                reveal_with_fuel(vstd::arithmetic::power::pow, 20);
            }
        }
        vstd::arithmetic::power::lemma_pow_positive(10, (d1.exp10 + 9) as nat);
        vstd::arithmetic::power::lemma_pow_positive(10, (d2.exp10 + 9) as nat);
        assert((d1.mantissa as int) * pow(10, (d1.exp10 + 9) as nat)
            <= 10000000000000000000000000000) by (nonlinear_arith)
            requires
                d1.mantissa < 10000000000,
                0 <= pow(10, (d1.exp10 + 9) as nat) <= 1000000000000000000,
        ;
        assert((d2.mantissa as int) * pow(10, (d2.exp10 + 9) as nat)
            <= 10000000000000000000000000000) by (nonlinear_arith)
            requires
                d2.mantissa < 10000000000,
                0 <= pow(10, (d2.exp10 + 9) as nat) <= 1000000000000000000,
        ;
    }
    let mag1 = (d1.mantissa as u128) * (pow10_u64((d1.exp10 + 9) as u32) as u128);
    let mag2 = (d2.mantissa as u128) * (pow10_u64((d2.exp10 + 9) as u32) as u128);
    // Signed comparison through magnitudes and signs.
    let (v1_neg, v1_mag) = (d1.neg && d1.mantissa > 0, mag1);
    let (v2_neg, v2_mag) = (d2.neg && d2.mantissa > 0, mag2);
    let diff: u128 = if v1_neg == v2_neg {
        if v1_mag >= v2_mag {
            v1_mag - v2_mag
        } else {
            v2_mag - v1_mag
        }
    } else {
        v1_mag + v2_mag
    };
    let mx: u128 = if v1_mag >= v2_mag {
        v1_mag
    } else {
        v2_mag
    };
    proof {
        let gv1 = scaled_value(d1);
        let gv2 = scaled_value(d2);
        vstd::arithmetic::power::lemma_pow_positive(10, (d1.exp10 + 9) as nat);
        vstd::arithmetic::power::lemma_pow_positive(10, (d2.exp10 + 9) as nat);
        assert(d1.mantissa > 0 ==> mag1 > 0) by (nonlinear_arith)
            requires
                mag1 == (d1.mantissa as int) * pow(10, (d1.exp10 + 9) as nat),
                pow(10, (d1.exp10 + 9) as nat) > 0,
        ;
        assert(d2.mantissa > 0 ==> mag2 > 0) by (nonlinear_arith)
            requires
                mag2 == (d2.mantissa as int) * pow(10, (d2.exp10 + 9) as nat),
                pow(10, (d2.exp10 + 9) as nat) > 0,
        ;
        if d1.mantissa == 0 {
            assert(mag1 == 0) by (nonlinear_arith)
                requires
                    mag1 == (d1.mantissa as int) * pow(10, (d1.exp10 + 9) as nat),
                    d1.mantissa == 0,
            ;
        }
        if d2.mantissa == 0 {
            assert(mag2 == 0) by (nonlinear_arith)
                requires
                    mag2 == (d2.mantissa as int) * pow(10, (d2.exp10 + 9) as nat),
                    d2.mantissa == 0,
            ;
        }
        assert(gv1 == (if v1_neg {
            -(mag1 as int)
        } else {
            mag1 as int
        }));
        assert(gv2 == (if v2_neg {
            -(mag2 as int)
        } else {
            mag2 as int
        }));
        assert(mag1 == if gv1 >= 0 {
            gv1
        } else {
            -gv1
        });
        assert(mag2 == if gv2 >= 0 {
            gv2
        } else {
            -gv2
        });
        assert(diff == if gv1 >= gv2 {
            gv1 - gv2
        } else {
            gv2 - gv1
        });
    }
    proof {
        assert(pow(10, (9 - tol.exp10) as nat) <= 1000000000000000000) by {
            if ((9 - tol.exp10) as nat) < 18 {
                vstd::arithmetic::power::lemma_pow_strictly_increases(
                    10,
                    (9 - tol.exp10) as nat,
                    18,
                );
            }
            assert(pow(10, 18) == 1000000000000000000) by {
                reveal_with_fuel(vstd::arithmetic::power::pow, 20);
            }
        }
        vstd::arithmetic::power::lemma_pow_positive(10, (9 - tol.exp10) as nat);
        assert((tol.num as int) * pow(10, (9 - tol.exp10) as nat)
            <= 1000000000000000000000000000) by (nonlinear_arith)
            requires
                tol.num < 1000000000,
                0 <= pow(10, (9 - tol.exp10) as nat) <= 1000000000000000000,
        ;
    }
    let t = (tol.num as u128) * (pow10_u64(9 - tol.exp10 as u32) as u128);
    if diff <= t {
        return true;
    }
    if mx == 0 {
        return false;
    }
    proof {
        assert(diff <= 20000000000000000000000000000);
        assert(mx <= 10000000000000000000000000000);
        assert(pow(10, tol.exp10 as nat) <= 1000000000) by {
            if (tol.exp10 as nat) < 9 {
                vstd::arithmetic::power::lemma_pow_strictly_increases(10, tol.exp10 as nat, 9);
            }
            assert(pow(10, 9) == 1000000000) by {
                reveal_with_fuel(vstd::arithmetic::power::pow, 20);
            }
        }
        vstd::arithmetic::power::lemma_pow_positive(10, tol.exp10 as nat);
        assert(diff as int * pow(10, tol.exp10 as nat)
            <= 20000000000000000000000000000000000000) by (nonlinear_arith)
            requires
                diff <= 20000000000000000000000000000,
                0 <= pow(10, tol.exp10 as nat) <= 1000000000,
        ;
        assert((tol.num as int) * (mx as int)
            <= 10000000000000000000000000000000000000) by (nonlinear_arith)
            requires
                tol.num < 1000000000,
                0 <= mx <= 10000000000000000000000000000,
        ;
    }
    let lhs = diff * (pow10_u64(tol.exp10 as u32) as u128);
    let rhs = (tol.num as u128) * mx;
    lhs <= rhs
}

} // verus!
