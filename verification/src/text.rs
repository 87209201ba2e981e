//! Character-level text utilities: line splitting, whitespace handling,
//! case folding and decimal rendering.
//!
//! All functions work on `Vec<char>` so that every step is specified over
//! `Seq<char>`.  Unicode classification and folding beyond ASCII come from
//! the standard library through trusted wrappers.

use vstd::prelude::*;
use vstd::std_specs::iter::IteratorSpec;

verus! {

broadcast use vstd::string::group_string_axioms;

/// Whether std's `char::is_whitespace` holds of the character.
pub uninterp spec fn unicode_ws(c: char) -> bool;

/// The Unicode lowercase folding of the text, as `str::to_lowercase`
/// computes it.
pub uninterp spec fn lower_of(s: Seq<char>) -> Seq<char>;

/// The lossy UTF-8 decoding of the bytes, as `String::from_utf8_lossy`
/// computes it: invalid sequences become replacement characters.
pub uninterp spec fn lossy_chars_of(b: Seq<u8>) -> Seq<char>;

/// The ASCII whitespace characters recognized by `char::is_whitespace`.
pub open spec fn ascii_ws(c: char) -> bool {
    c == ' ' || c == '\t' || c == '\n' || c == '\r' || c == '\u{0B}' || c == '\u{0C}'
}

/// Whitespace per `char::is_whitespace`: the ASCII set is spelled out,
/// the rest of Unicode is left to the trusted classifier.
pub open spec fn is_ws_char(c: char) -> bool {
    if (c as u32) < 128 {
        ascii_ws(c)
    } else {
        unicode_ws(c)
    }
}

/// Relies on char::is_whitespace: the Unicode White_Space property.
#[verifier::external_body]
fn char_is_unicode_ws(c: char) -> (r: bool)
    ensures
        r == unicode_ws(c),
{
    c.is_whitespace()
}

/// Whether the character counts as whitespace.
pub fn is_ws(c: char) -> (r: bool)
    ensures
        r == is_ws_char(c),
{
    if (c as u32) < 128 {
        c == ' ' || c == '\t' || c == '\n' || c == '\r' || c == '\u{0B}' || c == '\u{0C}'
    } else {
        char_is_unicode_ws(c)
    }
}

/// Relies on str::to_lowercase: the Unicode lowercase mapping of the text.
#[verifier::external_body]
fn to_lowercase_chars(v: &Vec<char>) -> (r: Vec<char>)
    ensures
        r@ == lower_of(v@),
{
    let s: String = v.iter().collect();
    s.to_lowercase().chars().collect()
}

/// Relies on String::from_utf8_lossy: valid UTF-8 decodes to its own
/// characters; each invalid sequence becomes U+FFFD.  ASCII bytes always
/// decode to themselves.
#[verifier::external_body]
pub fn decode_lossy(b: &[u8]) -> (r: Vec<char>)
    ensures
        r@ == lossy_chars_of(b@),
        (forall|i: int| 0 <= i < b@.len() ==> b@[i] < 128) ==> r@ == b@.map_values(
            |x: u8| x as char,
        ),
{
    String::from_utf8_lossy(b).chars().collect()
}

/// Relies on String's FromIterator over chars: collecting characters
/// yields the string with exactly those characters.
#[verifier::external_body]
pub fn string_of(v: &Vec<char>) -> (r: String)
    ensures
        r@ == v@,
{
    v.iter().collect()
}

/// The characters of a string slice, in order.
pub fn chars_of(s: &str) -> (r: Vec<char>)
    ensures
        r@ == s@,
{
    broadcast use vstd::string::next_postcondition;

    let mut it = s.chars();
    let ghost all: Seq<char> = s@;
    let mut r: Vec<char> = Vec::new();
    loop
        invariant
            it.obeys_prophetic_iter_laws(),
            it.decrease() is Some,
            r@ + IteratorSpec::remaining(&it) == all,
        ensures
            r@ == all,
        decreases it.decrease()->0,
    {
        match it.next() {
            Some(c) => {
                r.push(c);
                proof {
                    assert(r@ + IteratorSpec::remaining(&it) =~= all);
                }
            },
            None => {
                proof {
                    assert(IteratorSpec::remaining(&it) =~= Seq::<char>::empty());
                    assert(r@ =~= all);
                }
                break;
            },
        }
    }
    r
}

/// Copies the characters in `[from, to)` out of the vector.
pub fn sub_chars(v: &Vec<char>, from: usize, to: usize) -> (r: Vec<char>)
    requires
        from <= to <= v@.len(),
    ensures
        r@ == v@.subrange(from as int, to as int),
{
    let mut r: Vec<char> = Vec::new();
    let mut i = from;
    while i < to
        invariant
            from <= i <= to <= v@.len(),
            r@ == v@.subrange(from as int, i as int),
        decreases to - i,
    {
        r.push(v[i]);
        i = i + 1;
        proof {
            assert(r@ =~= v@.subrange(from as int, i as int));
        }
    }
    r
}

/// The sequence without one trailing carriage return, if it has one.
pub open spec fn strip_cr(s: Seq<char>) -> Seq<char> {
    if s.len() > 0 && s.last() == '\r' {
        s.drop_last()
    } else {
        s
    }
}

/// Index of the first line feed, or -1 if there is none.
pub open spec fn find_nl(t: Seq<char>) -> int
    decreases t.len(),
{
    if t.len() == 0 {
        -1
    } else if t[0] == '\n' {
        0
    } else {
        let r = find_nl(t.drop_first());
        if r < 0 {
            -1
        } else {
            r + 1
        }
    }
}

/// `find_nl` finds exactly the first line feed.
pub proof fn lemma_find_nl(t: Seq<char>)
    ensures
        find_nl(t) == -1 ==> forall|k: int| 0 <= k < t.len() ==> t[k] != '\n',
        find_nl(t) >= 0 ==> {
            &&& find_nl(t) < t.len()
            &&& t[find_nl(t)] == '\n'
            &&& forall|k: int| 0 <= k < find_nl(t) ==> t[k] != '\n'
        },
    decreases t.len(),
{
    if t.len() > 0 && t[0] != '\n' {
        lemma_find_nl(t.drop_first());
        assert(forall|k: int| 1 <= k < t.len() ==> t[k] == t.drop_first()[k - 1]);
    }
}

/// The lines of a text: split at line feeds, with one carriage return
/// stripped from the end of each piece, and no final empty line when the
/// text ends with a terminator.  This matches how `str::lines` reads
/// LF- and CRLF-terminated text.
pub open spec fn split_lines(t: Seq<char>) -> Seq<Seq<char>>
    decreases t.len(),
{
    if t.len() == 0 {
        Seq::empty()
    } else {
        let i = find_nl(t);
        if i < 0 || i >= t.len() {
            seq![t]
        } else {
            seq![strip_cr(t.take(i))] + split_lines(t.skip(i + 1))
        }
    }
}

/// Splits a text into its lines.
pub fn split_text_lines(text: &Vec<char>) -> (r: Vec<Vec<char>>)
    ensures
        r.deep_view() == split_lines(text@),
{
    let mut r: Vec<Vec<char>> = Vec::new();
    let mut start: usize = 0;
    let n = text.len();
    proof {
        assert(text@.skip(0) =~= text@);
        assert(r.deep_view() =~= Seq::<Seq<char>>::empty());
        assert(r.deep_view() + split_lines(text@) =~= split_lines(text@));
    }
    while start < n
        invariant
            0 <= start <= n == text@.len(),
            split_lines(text@) == r.deep_view() + split_lines(text@.skip(start as int)),
        decreases n - start,
    {
        let ghost rest = text@.skip(start as int);
        let mut j = start;
        while j < n && text[j] != '\n'
            invariant
                start <= j <= n == text@.len(),
                forall|k: int| start <= k < j ==> text@[k] != '\n',
            decreases n - j,
        {
            j = j + 1;
        }
        proof {
            lemma_find_nl(rest);
            assert(forall|k: int| 0 <= k < rest.len() ==> rest[k] == text@[start + k]);
            if j < n {
                assert(rest[j - start] == '\n');
                assert(find_nl(rest) == j - start);
            } else {
                assert(find_nl(rest) == -1);
            }
        }
        let ghost old_dv = r.deep_view();
        if j < n {
            let piece_end = if j > start && text[j - 1] == '\r' {
                j - 1
            } else {
                j
            };
            let piece = sub_chars(text, start, piece_end);
            proof {
                assert(rest.take(j - start) =~= text@.subrange(start as int, j as int));
                assert(strip_cr(rest.take(j - start)) =~= piece@);
                assert(rest.skip(j - start + 1) =~= text@.skip(j + 1));
                assert(split_lines(rest) == seq![piece@] + split_lines(text@.skip(j + 1)));
            }
            r.push(piece);
            start = j + 1;
            proof {
                assert(r.deep_view() =~~= old_dv.push(piece@));
                assert(split_lines(text@) =~~= r.deep_view() + split_lines(
                    text@.skip(start as int),
                ));
            }
        } else {
            let piece = sub_chars(text, start, j);
            proof {
                assert(j == n);
                assert(piece@ =~= rest);
                assert(split_lines(rest) =~= seq![piece@]);
            }
            r.push(piece);
            start = j;
            proof {
                assert(r.deep_view() =~~= old_dv.push(piece@));
                assert(text@.skip(start as int) =~= Seq::<char>::empty());
                assert(split_lines(text@.skip(start as int)) =~= Seq::<Seq<char>>::empty());
                assert(split_lines(text@) =~~= r.deep_view() + split_lines(
                    text@.skip(start as int),
                ));
            }
        }
    }
    proof {
        assert(text@.skip(start as int) =~= Seq::<char>::empty());
        assert(split_lines(text@.skip(start as int)) =~= Seq::<Seq<char>>::empty());
        assert(r.deep_view() + Seq::<Seq<char>>::empty() =~= r.deep_view());
        assert(r.deep_view() =~~= split_lines(text@));
    }
    r
}

/// The sequence without trailing whitespace.
pub open spec fn trim_end_ws(s: Seq<char>) -> Seq<char>
    decreases s.len(),
{
    if s.len() > 0 && is_ws_char(s.last()) {
        trim_end_ws(s.drop_last())
    } else {
        s
    }
}

/// The sequence without leading whitespace.
pub open spec fn trim_start_ws(s: Seq<char>) -> Seq<char>
    decreases s.len(),
{
    if s.len() > 0 && is_ws_char(s.first()) {
        trim_start_ws(s.drop_first())
    } else {
        s
    }
}

/// Both-ends whitespace trim.
pub open spec fn trim_ws(s: Seq<char>) -> Seq<char> {
    trim_start_ws(trim_end_ws(s))
}

/// Right-trims whitespace.
pub fn trim_end(v: &Vec<char>) -> (r: Vec<char>)
    ensures
        r@ == trim_end_ws(v@),
{
    let mut j = v.len();
    proof {
        assert(v@.take(v@.len() as int) =~= v@);
    }
    while j > 0 && is_ws(v[j - 1])
        invariant
            0 <= j <= v@.len(),
            trim_end_ws(v@) == trim_end_ws(v@.take(j as int)),
        decreases j,
    {
        proof {
            assert(v@.take(j as int).drop_last() =~= v@.take(j - 1));
        }
        j = j - 1;
    }
    proof {
        if j > 0 {
            assert(trim_end_ws(v@.take(j as int)) =~= v@.take(j as int));
        } else {
            assert(v@.take(0) =~= Seq::<char>::empty());
        }
    }
    sub_chars(v, 0, j)
}

/// Left-trims whitespace.
pub fn trim_start(v: &Vec<char>) -> (r: Vec<char>)
    ensures
        r@ == trim_start_ws(v@),
{
    let mut i: usize = 0;
    let n = v.len();
    proof {
        assert(v@.skip(0) =~= v@);
    }
    while i < n && is_ws(v[i])
        invariant
            0 <= i <= n == v@.len(),
            trim_start_ws(v@) == trim_start_ws(v@.skip(i as int)),
        decreases n - i,
    {
        proof {
            assert(v@.skip(i as int).drop_first() =~= v@.skip(i + 1));
        }
        i = i + 1;
    }
    proof {
        if i < n {
            assert(trim_start_ws(v@.skip(i as int)) =~= v@.skip(i as int));
        } else {
            assert(v@.skip(i as int) =~= Seq::<char>::empty());
        }
    }
    sub_chars(v, i, n)
}

/// Both-ends whitespace trim.
pub fn trim(v: &Vec<char>) -> (r: Vec<char>)
    ensures
        r@ == trim_ws(v@),
{
    let t = trim_end(v);
    trim_start(&t)
}

/// Whether the text is empty after trimming, i.e. all whitespace.
pub fn is_blank(v: &Vec<char>) -> (r: bool)
    ensures
        r == (trim_ws(v@).len() == 0),
{
    let t = trim(v);
    t.len() == 0
}

/// Index of the first whitespace character, or -1 if there is none.
pub open spec fn find_ws(t: Seq<char>) -> int
    decreases t.len(),
{
    if t.len() == 0 {
        -1
    } else if is_ws_char(t[0]) {
        0
    } else {
        let r = find_ws(t.drop_first());
        if r < 0 {
            -1
        } else {
            r + 1
        }
    }
}

/// `find_ws` finds exactly the first whitespace character.
pub proof fn lemma_find_ws(t: Seq<char>)
    ensures
        find_ws(t) == -1 ==> forall|k: int| 0 <= k < t.len() ==> !is_ws_char(t[k]),
        find_ws(t) >= 0 ==> {
            &&& find_ws(t) < t.len()
            &&& is_ws_char(t[find_ws(t)])
            &&& forall|k: int| 0 <= k < find_ws(t) ==> !is_ws_char(t[k])
        },
    decreases t.len(),
{
    if t.len() > 0 && !is_ws_char(t[0]) {
        lemma_find_ws(t.drop_first());
        assert(forall|k: int| 1 <= k < t.len() ==> t[k] == t.drop_first()[k - 1]);
    }
}

/// The whitespace-separated tokens of the text: maximal runs of
/// non-whitespace characters, as `str::split_whitespace` yields them.
pub open spec fn split_ws_tokens(t: Seq<char>) -> Seq<Seq<char>>
    decreases t.len(),
{
    if t.len() == 0 {
        Seq::empty()
    } else if is_ws_char(t[0]) {
        split_ws_tokens(t.drop_first())
    } else {
        let i = find_ws(t);
        if i <= 0 || i > t.len() {
            seq![t]
        } else {
            seq![t.take(i)] + split_ws_tokens(t.skip(i))
        }
    }
}

/// Splits the text into whitespace-separated tokens.
pub fn ws_tokens(text: &Vec<char>) -> (r: Vec<Vec<char>>)
    ensures
        r.deep_view() == split_ws_tokens(text@),
{
    let mut r: Vec<Vec<char>> = Vec::new();
    let mut start: usize = 0;
    let n = text.len();
    proof {
        assert(text@.skip(0) =~= text@);
        assert(r.deep_view() =~= Seq::<Seq<char>>::empty());
        assert(r.deep_view() + split_ws_tokens(text@) =~= split_ws_tokens(text@));
    }
    while start < n
        invariant
            0 <= start <= n == text@.len(),
            split_ws_tokens(text@) == r.deep_view() + split_ws_tokens(text@.skip(start as int)),
        decreases n - start,
    {
        if is_ws(text[start]) {
            proof {
                assert(text@.skip(start as int).drop_first() =~= text@.skip(start + 1));
            }
            start = start + 1;
        } else {
            let ghost rest = text@.skip(start as int);
            let mut j = start;
            while j < n && !is_ws(text[j])
                invariant
                    start <= j <= n == text@.len(),
                    forall|k: int| start <= k < j ==> !is_ws_char(text@[k]),
                decreases n - j,
            {
                j = j + 1;
            }
            proof {
                lemma_find_ws(rest);
                assert(forall|k: int| 0 <= k < rest.len() ==> rest[k] == text@[start + k]);
                if j < n {
                    assert(is_ws_char(rest[j - start]));
                    assert(find_ws(rest) == j - start);
                } else {
                    assert(find_ws(rest) == -1);
                }
            }
            let token = sub_chars(text, start, j);
            let ghost old_dv = r.deep_view();
            if j < n {
                proof {
                    assert(rest.take(j - start) =~= token@);
                    assert(rest.skip(j - start) =~= text@.skip(j as int));
                    assert(split_ws_tokens(rest) == seq![token@] + split_ws_tokens(
                        text@.skip(j as int),
                    ));
                }
                r.push(token);
                start = j;
                proof {
                    assert(r.deep_view() =~~= old_dv.push(token@));
                    assert(split_ws_tokens(text@) =~~= r.deep_view() + split_ws_tokens(
                        text@.skip(start as int),
                    ));
                }
            } else {
                proof {
                    assert(token@ =~= rest);
                    assert(split_ws_tokens(rest) =~= seq![token@]);
                }
                r.push(token);
                start = j;
                proof {
                    assert(r.deep_view() =~~= old_dv.push(token@));
                    assert(text@.skip(start as int) =~= Seq::<char>::empty());
                    assert(split_ws_tokens(text@.skip(start as int))
                        =~= Seq::<Seq<char>>::empty());
                    assert(split_ws_tokens(text@) =~~= r.deep_view() + split_ws_tokens(
                        text@.skip(start as int),
                    ));
                }
            }
        }
    }
    proof {
        if start >= text@.len() {
            assert(text@.skip(start as int) =~= Seq::<char>::empty());
            assert(split_ws_tokens(text@.skip(start as int)) =~= Seq::<Seq<char>>::empty());
        }
        assert(r.deep_view() + Seq::<Seq<char>>::empty() =~= r.deep_view());
        assert(r.deep_view() =~~= split_ws_tokens(text@));
    }
    r
}

/// The pieces joined with the separator between them.
pub open spec fn join_with(pieces: Seq<Seq<char>>, sep: Seq<char>) -> Seq<char>
    decreases pieces.len(),
{
    if pieces.len() == 0 {
        Seq::empty()
    } else if pieces.len() == 1 {
        pieces[0]
    } else {
        join_with(pieces.drop_last(), sep) + sep + pieces.last()
    }
}

/// Joins the pieces with the separator.
pub fn join(pieces: &Vec<Vec<char>>, sep: &Vec<char>) -> (r: Vec<char>)
    ensures
        r@ == join_with(pieces.deep_view(), sep@),
{
    let mut r: Vec<char> = Vec::new();
    let mut i: usize = 0;
    let n = pieces.len();
    while i < n
        invariant
            0 <= i <= n == pieces@.len(),
            r@ == join_with(pieces.deep_view().take(i as int), sep@),
        decreases n - i,
    {
        if i > 0 {
            let mut k: usize = 0;
            while k < sep.len()
                invariant
                    0 <= k <= sep@.len(),
                    r@ == join_with(pieces.deep_view().take(i as int), sep@) + sep@.take(k as int),
                decreases sep@.len() - k,
            {
                r.push(sep[k]);
                k = k + 1;
                proof {
                    assert(r@ =~= join_with(pieces.deep_view().take(i as int), sep@) + sep@.take(
                        k as int,
                    ));
                }
            }
            proof {
                assert(sep@.take(sep@.len() as int) =~= sep@);
            }
        }
        let mut k: usize = 0;
        let piece_len = pieces[i].len();
        let ghost before = r@;
        while k < piece_len
            invariant
                0 <= k <= piece_len == pieces.deep_view()[i as int].len(),
                i < pieces@.len(),
                r@ == before + pieces.deep_view()[i as int].take(k as int),
            decreases piece_len - k,
        {
            r.push(pieces[i][k]);
            k = k + 1;
            proof {
                assert(r@ =~= before + pieces.deep_view()[i as int].take(k as int));
            }
        }
        proof {
            let dv = pieces.deep_view();
            assert(dv[i as int].take(dv[i as int].len() as int) =~= dv[i as int]);
            assert(dv.take(i + 1).drop_last() =~= dv.take(i as int));
            assert(dv.take(i + 1).last() == dv[i as int]);
            if i == 0 {
                assert(join_with(dv.take(1), sep@) == dv[0]);
                assert(r@ =~= join_with(dv.take(1), sep@));
            } else {
                assert(join_with(dv.take(i + 1), sep@) == join_with(dv.take(i as int), sep@) + sep@
                    + dv[i as int]);
                assert(r@ =~= join_with(dv.take(i + 1), sep@));
            }
        }
        i = i + 1;
    }
    proof {
        assert(pieces.deep_view().take(n as int) =~= pieces.deep_view());
    }
    r
}

/// ASCII lowercase folding of one character.
pub open spec fn ascii_lower_char(c: char) -> char {
    if 'A' <= c && c <= 'Z' {
        (((c as u8) + 32) as char)
    } else {
        c
    }
}

/// Whether every character is ASCII.
pub open spec fn all_ascii(s: Seq<char>) -> bool {
    forall|i: int| 0 <= i < s.len() ==> (s[i] as u32) < 128
}

/// Case folding of a line: ASCII text is folded exactly, anything else
/// goes through the Unicode mapping of `str::to_lowercase`.
pub open spec fn case_fold(s: Seq<char>) -> Seq<char> {
    if all_ascii(s) {
        s.map_values(|c: char| ascii_lower_char(c))
    } else {
        lower_of(s)
    }
}

/// Lowercases a line.
pub fn fold_case(v: &Vec<char>) -> (r: Vec<char>)
    ensures
        r@ == case_fold(v@),
{
    let mut ascii = true;
    let mut i: usize = 0;
    let n = v.len();
    while i < n
        invariant
            0 <= i <= n == v@.len(),
            ascii == (forall|k: int| 0 <= k < i ==> (v@[k] as u32) < 128),
        decreases n - i,
    {
        if (v[i] as u32) >= 128 {
            ascii = false;
        }
        i = i + 1;
    }
    if ascii {
        let mut r: Vec<char> = Vec::new();
        let mut k: usize = 0;
        while k < n
            invariant
                0 <= k <= n == v@.len(),
                all_ascii(v@),
                r@ == v@.take(k as int).map_values(|c: char| ascii_lower_char(c)),
            decreases n - k,
        {
            let c = v[k];
            let folded = if 'A' <= c && c <= 'Z' {
                ((c as u8) + 32) as char
            } else {
                c
            };
            r.push(folded);
            k = k + 1;
            proof {
                assert(r@ =~= v@.take(k as int).map_values(|c: char| ascii_lower_char(c)));
            }
        }
        proof {
            assert(v@.take(n as int) =~= v@);
        }
        r
    } else {
        to_lowercase_chars(v)
    }
}

/// The digit character of one decimal digit.
pub open spec fn digit_char(d: nat) -> char {
    ((48 + d) as u8) as char
}

/// The decimal digits of a number, most significant first.
pub open spec fn dec_digits(n: nat) -> Seq<char>
    decreases n,
{
    if n < 10 {
        seq![digit_char(n)]
    } else {
        dec_digits(n / 10) + seq![digit_char(n % 10)]
    }
}

/// Renders a number in decimal.
pub fn dec_chars(n: u64) -> (r: Vec<char>)
    ensures
        r@ == dec_digits(n as nat),
{
    let mut rev: Vec<char> = Vec::new();
    let mut m = n;
    loop
        invariant_except_break
            dec_digits(n as nat) == dec_digits(m as nat) + rev@.reverse(),
        ensures
            dec_digits(n as nat) == rev@.reverse(),
        decreases m,
    {
        let d = (m % 10) as u8;
        let c = (48 + d) as char;
        proof {
            assert(c == digit_char((m % 10) as nat));
            assert((rev@.push(c)).reverse() =~= seq![c] + rev@.reverse());
            if m >= 10 {
                assert(dec_digits(m as nat) == dec_digits((m / 10) as nat) + seq![
                    digit_char((m % 10) as nat),
                ]);
                assert(dec_digits((m / 10) as nat) + seq![c] + rev@.reverse()
                    =~= dec_digits((m / 10) as nat) + (seq![c] + rev@.reverse()));
            } else {
                assert(dec_digits(m as nat) == seq![c]);
                assert(seq![c] + rev@.reverse() =~= (rev@.push(c)).reverse());
            }
        }
        rev.push(c);
        if m < 10 {
            break;
        }
        m = m / 10;
    }
    let mut r: Vec<char> = Vec::new();
    let mut k = rev.len();
    while k > 0
        invariant
            0 <= k <= rev@.len(),
            r@ == rev@.skip(k as int).reverse(),
        decreases k,
    {
        k = k - 1;
        r.push(rev[k]);
        proof {
            assert(rev@.skip(k as int).drop_first() =~= rev@.skip(k + 1));
            assert(rev@.skip(k as int).reverse() =~= rev@.skip(k + 1).reverse().push(
                rev@[k as int],
            ));
        }
    }
    proof {
        assert(rev@.skip(0) =~= rev@);
    }
    r
}

/// Equality of two character vectors.
pub fn chars_eq(a: &Vec<char>, b: &Vec<char>) -> (r: bool)
    ensures
        r == (a@ == b@),
{
    if a.len() != b.len() {
        proof {
            assert(a@.len() != b@.len());
        }
        return false;
    }
    let mut i: usize = 0;
    let n = a.len();
    while i < n
        invariant
            0 <= i <= n,
            a@.len() == n,
            b@.len() == n,
            forall|k: int| 0 <= k < i ==> a@[k] == b@[k],
        decreases n - i,
    {
        if a[i] != b[i] {
            return false;
        }
        i = i + 1;
    }
    proof {
        assert(a@ =~= b@);
    }
    true
}

/// Index of the first occurrence of the character, or -1 if none.
pub open spec fn find_c(t: Seq<char>, c: char) -> int
    decreases t.len(),
{
    if t.len() == 0 {
        -1
    } else if t[0] == c {
        0
    } else {
        let r = find_c(t.drop_first(), c);
        if r < 0 {
            -1
        } else {
            r + 1
        }
    }
}

/// `find_c` finds exactly the first occurrence.
pub proof fn lemma_find_c(t: Seq<char>, c: char)
    ensures
        find_c(t, c) == -1 ==> forall|k: int| 0 <= k < t.len() ==> t[k] != c,
        find_c(t, c) >= 0 ==> {
            &&& find_c(t, c) < t.len()
            &&& t[find_c(t, c)] == c
            &&& forall|k: int| 0 <= k < find_c(t, c) ==> t[k] != c
        },
    decreases t.len(),
{
    if t.len() > 0 && t[0] != c {
        lemma_find_c(t.drop_first(), c);
        assert(forall|k: int| 1 <= k < t.len() ==> t[k] == t.drop_first()[k - 1]);
    }
}

/// The fields of a text split at every occurrence of the delimiter, as
/// `str::split` yields them: an empty text gives one empty field, and a
/// trailing delimiter gives a trailing empty field.
pub open spec fn split_char(t: Seq<char>, d: char) -> Seq<Seq<char>>
    decreases t.len(),
{
    let i = find_c(t, d);
    if i < 0 || i >= t.len() {
        seq![t]
    } else {
        seq![t.take(i)] + split_char(t.skip(i + 1), d)
    }
}

/// Splits the text at every occurrence of the delimiter.
pub fn split_on_char(text: &Vec<char>, d: char) -> (r: Vec<Vec<char>>)
    ensures
        r.deep_view() == split_char(text@, d),
        r@.len() >= 1,
{
    let mut r: Vec<Vec<char>> = Vec::new();
    let mut start: usize = 0;
    let n = text.len();
    proof {
        assert(text@.skip(0) =~= text@);
        assert(r.deep_view() =~= Seq::<Seq<char>>::empty());
        assert(r.deep_view() + split_char(text@, d) =~= split_char(text@, d));
    }
    loop
        invariant_except_break
            split_char(text@, d) == r.deep_view() + split_char(text@.skip(start as int), d),
        invariant
            0 <= start <= n == text@.len(),
        ensures
            r.deep_view() == split_char(text@, d),
            r@.len() >= 1,
        decreases n - start,
    {
        let ghost rest = text@.skip(start as int);
        let mut j = start;
        while j < n && text[j] != d
            invariant
                start <= j <= n == text@.len(),
                forall|k: int| start <= k < j ==> text@[k] != d,
            decreases n - j,
        {
            j = j + 1;
        }
        proof {
            lemma_find_c(rest, d);
            assert(forall|k: int| 0 <= k < rest.len() ==> rest[k] == text@[start + k]);
            if j < n {
                assert(rest[j - start] == d);
                assert(find_c(rest, d) == j - start);
            } else {
                assert(find_c(rest, d) == -1);
            }
        }
        let piece = sub_chars(text, start, j);
        let ghost old_dv = r.deep_view();
        if j < n {
            proof {
                assert(rest.take(j - start) =~= piece@);
                assert(rest.skip(j - start + 1) =~= text@.skip(j + 1));
                assert(split_char(rest, d) == seq![piece@] + split_char(text@.skip(j + 1), d));
            }
            r.push(piece);
            start = j + 1;
            proof {
                assert(r.deep_view() =~~= old_dv.push(piece@));
                assert(split_char(text@, d) =~~= r.deep_view() + split_char(
                    text@.skip(start as int),
                    d,
                ));
            }
        } else {
            proof {
                assert(piece@ =~= rest);
                assert(split_char(rest, d) =~= seq![piece@]);
            }
            r.push(piece);
            proof {
                assert(r.deep_view() =~~= old_dv.push(piece@));
                assert(r.deep_view() =~~= split_char(text@, d));
            }
            break;
        }
    }
    r
}

} // verus!
