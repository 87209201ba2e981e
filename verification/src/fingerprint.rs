//! Fingerprinting: content hashes, locality-sensitive simhashes and
//! order-independent schema signatures.

use vstd::prelude::*;
use vstd::arithmetic::power2::pow2;
use crate::normalize::{normal_lines, normalize_text_lines};
use crate::order::{lemma_lex_total_ordering, lemma_sorted_multiset_unique, lex_leq, sort_char_seqs};
use crate::text::{chars_of, decode_lossy, join, join_with, lossy_chars_of, split_ws_tokens, string_of, sub_chars};
use crate::types::{FileEntry, FileType, NormalizationOptions, SCORE_UNIT};

verus! {

/// The lowercase hex digest that blake3 computes over the bytes.
pub uninterp spec fn blake3_hex_of(b: Seq<u8>) -> Seq<char>;

/// Whether a character is a lowercase hex digit.
pub open spec fn is_hex_digit(c: char) -> bool {
    ('0' <= c && c <= '9') || ('a' <= c && c <= 'f')
}

/// Relies on blake3::hash and Hash::to_hex: a 256-bit digest of the
/// bytes, rendered as 64 lowercase hex digits.
#[verifier::external_body]
fn blake3_hex(b: &[u8]) -> (r: Vec<char>)
    ensures
        r@ == blake3_hex_of(b@),
        r@.len() == 64,
        forall|i: int| 0 <= i < r@.len() ==> is_hex_digit(#[trigger] r@[i]),
{
    blake3::hash(b).to_hex().as_str().chars().collect()
}

/// Hexadecimal blake3 digest of a byte slice, as a string.
pub fn content_hash_hex(b: &[u8]) -> (r: String)
    ensures
        r@ == blake3_hex_of(b@),
        r@.len() == 64,
        forall|i: int| 0 <= i < r@.len() ==> is_hex_digit(#[trigger] r@[i]),
{
    let h = blake3_hex(b);
    string_of(&h)
}

/// One step of the 64-bit FNV-1a fold over code points.
pub open spec fn shingle_hash_step(h: u64, c: char) -> u64 {
    vstd::wrapping::u64_specs::wrapping_mul(h ^ (c as u64), 0x100000001b3u64)
}

/// A stable 64-bit hash of a character sequence: the FNV-1a fold over
/// the code points.  It depends on nothing but its argument, so equal
/// shingles always hash alike.
pub open spec fn shingle_hash(s: Seq<char>) -> u64
    decreases s.len(),
{
    if s.len() == 0 {
        0xcbf29ce484222325u64
    } else {
        shingle_hash_step(shingle_hash(s.drop_last()), s.last())
    }
}

/// Hashes one shingle.
pub fn hash_shingle(s: &Vec<char>) -> (r: u64)
    ensures
        r == shingle_hash(s@),
{
    let mut h: u64 = 0xcbf29ce484222325;
    let mut i: usize = 0;
    let n = s.len();
    proof {
        assert(s@.take(0) =~= Seq::<char>::empty());
    }
    while i < n
        invariant
            0 <= i <= n == s@.len(),
            h == shingle_hash(s@.take(i as int)),
        decreases n - i,
    {
        let c = s[i];
        h = (h ^ (c as u64)).wrapping_mul(0x100000001b3);
        i = i + 1;
        proof {
            assert(s@.take(i as int).drop_last() =~= s@.take(i - 1));
            assert(s@.take(i as int).last() == s@[i - 1]);
        }
    }
    proof {
        assert(s@.take(n as int) =~= s@);
    }
    h
}

/// The words of a text: the whitespace-separated tokens of every line,
/// in line order.
pub open spec fn words_of(lines: Seq<Seq<char>>) -> Seq<Seq<char>>
    decreases lines.len(),
{
    if lines.len() == 0 {
        Seq::empty()
    } else {
        words_of(lines.drop_last()) + split_ws_tokens(lines.last())
    }
}

/// Word shingles: sliding windows of three words joined by one space;
/// with fewer than three words, a single shingle of all of them, and
/// none at all of an empty text.
pub open spec fn word_shingles(words: Seq<Seq<char>>) -> Seq<Seq<char>> {
    if words.len() >= 3 {
        Seq::new((words.len() - 2) as nat, |i: int| join_with(words.subrange(i, i + 3), seq![' ']))
    } else if words.len() >= 1 {
        seq![join_with(words, seq![' '])]
    } else {
        Seq::empty()
    }
}

/// Line shingles: sliding windows of three lines joined by line feeds,
/// present only when the text has at least three lines.
pub open spec fn line_shingles(lines: Seq<Seq<char>>) -> Seq<Seq<char>> {
    if lines.len() >= 3 {
        Seq::new((lines.len() - 2) as nat, |i: int| join_with(lines.subrange(i, i + 3), seq!['\n']))
    } else {
        Seq::empty()
    }
}

/// The shingle pool of a normalized text: word shingles for lexical
/// similarity plus line shingles for structural similarity.
pub open spec fn shingles_of(lines: Seq<Seq<char>>) -> Seq<Seq<char>> {
    word_shingles(words_of(lines)) + line_shingles(lines)
}

/// The signed accumulator of one simhash bit: +1 for every shingle whose
/// hash has the bit set, -1 for every other shingle.
pub open spec fn bit_acc(sh: Seq<Seq<char>>, bit: nat) -> int
    decreases sh.len(),
{
    if sh.len() == 0 {
        0
    } else {
        bit_acc(sh.drop_last(), bit) + (if (shingle_hash(sh.last()) >> bit) & 1 == 1 {
            1int
        } else {
            -1int
        })
    }
}

/// The simhash value over a shingle pool, bit by bit: bit `i` is set
/// exactly when its accumulator is positive.
pub open spec fn simhash_bits(sh: Seq<Seq<char>>, n: nat) -> int
    decreases n,
{
    if n == 0 {
        0
    } else {
        simhash_bits(sh, (n - 1) as nat) + (if bit_acc(sh, (n - 1) as nat) > 0 {
            pow2((n - 1) as nat) as int
        } else {
            0int
        })
    }
}

/// `simhash_bits` stays below the next power of two.
pub proof fn lemma_simhash_bits_bound(sh: Seq<Seq<char>>, n: nat)
    requires
        n <= 64,
    ensures
        0 <= simhash_bits(sh, n) < pow2(n),
    decreases n,
{
    vstd::arithmetic::power2::lemma_pow2_pos(n);
    if n > 0 {
        lemma_simhash_bits_bound(sh, (n - 1) as nat);
        assert(pow2(n) == 2 * pow2((n - 1) as nat)) by {
            vstd::arithmetic::power2::lemma_pow2_unfold(n);
        }
    }
}

/// The 64-bit simhash of a text under a normalization: deterministic by
/// construction, since it is a function of the text and options alone.
pub open spec fn simhash_of(text: Seq<char>, o: NormalizationOptions) -> u64 {
    simhash_bits(shingles_of(normal_lines(text, o)), 64) as u64
}

/// Collects the words of normalized lines.
fn collect_words(lines: &Vec<Vec<char>>) -> (r: Vec<Vec<char>>)
    ensures
        r.deep_view() == words_of(lines.deep_view()),
{
    let mut r: Vec<Vec<char>> = Vec::new();
    let mut i: usize = 0;
    let n = lines.len();
    proof {
        assert(lines.deep_view().take(0) =~= Seq::<Seq<char>>::empty());
        assert(r.deep_view() =~= words_of(lines.deep_view().take(0)));
    }
    while i < n
        invariant
            0 <= i <= n == lines@.len(),
            r.deep_view() == words_of(lines.deep_view().take(i as int)),
        decreases n - i,
    {
        let ghost old_dv = r.deep_view();
        let mut toks = crate::text::ws_tokens(&lines[i]);
        let ghost toks_dv = toks.deep_view();
        proof {
            assert(lines.deep_view()[i as int] == lines@[i as int]@);
            assert(toks_dv == split_ws_tokens(lines.deep_view()[i as int]));
        }
        let mut k: usize = 0;
        let tn = toks.len();
        while k < tn
            invariant
                0 <= k <= tn == toks@.len(),
                toks.deep_view() == toks_dv,
                r.deep_view() == old_dv + toks_dv.take(k as int),
            decreases tn - k,
        {
            let t = toks[k].clone();
            proof {
                assert(t@ == toks@[k as int]@);
                assert(t@ == toks_dv[k as int]);
            }
            let ghost before = r.deep_view();
            r.push(t);
            k = k + 1;
            proof {
                assert(r.deep_view() =~~= before.push(toks_dv[k - 1]));
                assert(toks_dv.take(k as int) =~= toks_dv.take(k - 1).push(toks_dv[k - 1]));
                assert(before.push(toks_dv[k - 1]) =~~= old_dv + toks_dv.take(k as int));
            }
        }
        i = i + 1;
        proof {
            assert(toks_dv.take(tn as int) =~= toks_dv);
            assert(lines.deep_view().take(i as int).drop_last() =~= lines.deep_view().take(i - 1));
            assert(lines.deep_view().take(i as int).last() == lines.deep_view()[i - 1]);
            assert(r.deep_view() =~~= words_of(lines.deep_view().take(i as int)));
        }
    }
    proof {
        assert(lines.deep_view().take(n as int) =~= lines.deep_view());
    }
    r
}

/// Joins a window of three consecutive pieces with a separator.
fn join_window(pieces: &Vec<Vec<char>>, at: usize, sep: char) -> (r: Vec<char>)
    requires
        at + 3 <= pieces@.len(),
    ensures
        r@ == join_with(pieces.deep_view().subrange(at as int, at + 3), seq![sep]),
{
    let n = pieces.len();
    let mut w: Vec<Vec<char>> = Vec::new();
    w.push(pieces[at].clone());
    w.push(pieces[at + 1].clone());
    w.push(pieces[at + 2].clone());
    let mut sv: Vec<char> = Vec::new();
    sv.push(sep);
    proof {
        assert(w.deep_view() =~~= pieces.deep_view().subrange(at as int, at + 3));
        assert(sv@ =~= seq![sep]);
    }
    crate::text::join(&w, &sv)
}

/// Builds the shingle pool of normalized lines.
fn build_shingles(lines: &Vec<Vec<char>>) -> (r: Vec<Vec<char>>)
    ensures
        r.deep_view() == shingles_of(lines.deep_view()),
{
    let words = collect_words(lines);
    let mut r: Vec<Vec<char>> = Vec::new();
    let wn = words.len();
    let ghost wdv = words.deep_view();
    if wn >= 3 {
        let mut i: usize = 0;
        while i <= wn - 3
            invariant
                0 <= i,
                i + 2 <= wn == words@.len(),
                wdv == words.deep_view(),
                wn >= 3,
                r.deep_view().len() == i,
                forall|k: int|
                    0 <= k < i ==> r.deep_view()[k] == join_with(
                        #[trigger] wdv.subrange(k, k + 3),
                        seq![' '],
                    ),
            decreases wn - i,
        {
            let s = join_window(&words, i, ' ');
            r.push(s);
            i = i + 1;
        }
        proof {
            assert(r.deep_view() =~~= word_shingles(wdv));
        }
    } else if wn >= 1 {
        let mut sv: Vec<char> = Vec::new();
        sv.push(' ');
        proof {
            assert(sv@ =~= seq![' ']);
        }
        let s = crate::text::join(&words, &sv);
        r.push(s);
        proof {
            assert(r.deep_view() =~~= word_shingles(wdv));
        }
    } else {
        proof {
            assert(r.deep_view() =~~= word_shingles(wdv));
        }
    }
    let ghost wsh = word_shingles(wdv);
    let ln = lines.len();
    let ghost ldv = lines.deep_view();
    if ln >= 3 {
        let mut i: usize = 0;
        while i <= ln - 3
            invariant
                0 <= i,
                i + 2 <= ln == lines@.len(),
                ldv == lines.deep_view(),
                wsh == word_shingles(wdv),
                ln >= 3,
                r.deep_view().len() == wsh.len() + i,
                r.deep_view().take(wsh.len() as int) == wsh,
                forall|k: int|
                    0 <= k < i ==> r.deep_view()[wsh.len() + k] == join_with(
                        #[trigger] ldv.subrange(k, k + 3),
                        seq!['\n'],
                    ),
            decreases ln - i,
        {
            let ghost old_dv = r.deep_view();
            let s = join_window(lines, i, '\n');
            r.push(s);
            i = i + 1;
            proof {
                assert(r.deep_view().take(wsh.len() as int) =~~= old_dv.take(wsh.len() as int));
            }
        }
        proof {
            assert(r.deep_view() =~~= wsh + line_shingles(ldv));
        }
    } else {
        proof {
            assert(line_shingles(ldv) =~= Seq::<Seq<char>>::empty());
            assert(r.deep_view().take(wsh.len() as int) =~= r.deep_view());
            assert(r.deep_view() =~~= wsh + line_shingles(ldv));
        }
    }
    r
}

/// Computes the simhash of a shingle pool.
fn simhash_from_shingles(shingles: &Vec<Vec<char>>) -> (r: u64)
    ensures
        r == simhash_bits(shingles.deep_view(), 64),
{
    let ghost sdv = shingles.deep_view();
    let mut acc: Vec<i128> = Vec::new();
    let mut b: usize = 0;
    while b < 64
        invariant
            0 <= b <= 64,
            acc@.len() == b,
            forall|j: int| 0 <= j < b ==> acc@[j] == 0,
        decreases 64 - b,
    {
        acc.push(0);
        b = b + 1;
    }
    proof {
        assert(sdv.take(0) =~= Seq::<Seq<char>>::empty());
        assert(forall|j: int| 0 <= j < 64 ==> acc@[j] == bit_acc(sdv.take(0), j as nat));
    }
    let mut k: usize = 0;
    let n = shingles.len();
    while k < n
        invariant
            0 <= k <= n == shingles@.len(),
            sdv == shingles.deep_view(),
            acc@.len() == 64,
            forall|j: int| 0 <= j < 64 ==> acc@[j] == bit_acc(sdv.take(k as int), j as nat),
            forall|j: int| 0 <= j < 64 ==> -(k as int) <= #[trigger] acc@[j] <= k as int,
        decreases n - k,
    {
        let h = hash_shingle(&shingles[k]);
        proof {
            assert(sdv[k as int] == shingles@[k as int]@);
            assert(h == shingle_hash(sdv[k as int]));
        }
        let ghost prev = acc@;
        let mut j: usize = 0;
        while j < 64
            invariant
                0 <= j <= 64,
                acc@.len() == 64,
                h == shingle_hash(sdv[k as int]),
                0 <= k < sdv.len(),
                forall|m: int| 0 <= m < 64 ==> -(k as int) <= #[trigger] prev[m] <= k as int,
                forall|m: int|
                    j <= m < 64 ==> acc@[m] == prev[m],
                forall|m: int|
                    0 <= m < j ==> acc@[m] == prev[m] + (if (h >> (m as nat)) & 1 == 1 {
                        1int
                    } else {
                        -1int
                    }),
            decreases 64 - j,
        {
            let bit = (h >> (j as u64)) & 1;
            proof {
                assert(acc@[j as int] == prev[j as int]);
                assert(-(k as int) <= acc@[j as int] <= k as int);
            }
            if bit == 1 {
                let cur = acc[j];
                acc.set(j, cur + 1);
            } else {
                let cur = acc[j];
                acc.set(j, cur - 1);
            }
            j = j + 1;
        }
        k = k + 1;
        proof {
            assert(sdv.take(k as int).drop_last() =~= sdv.take(k - 1));
            assert(sdv.take(k as int).last() == sdv[k - 1]);
            assert(forall|m: int|
                0 <= m < 64 ==> acc@[m] == bit_acc(sdv.take(k as int), m as nat));
        }
    }
    proof {
        assert(sdv.take(n as int) =~= sdv);
    }
    let mut r: u64 = 0;
    let mut i: usize = 0;
    while i < 64
        invariant
            0 <= i <= 64,
            acc@.len() == 64,
            forall|j: int| 0 <= j < 64 ==> acc@[j] == bit_acc(sdv, j as nat),
            r == simhash_bits(sdv, i as nat),
        decreases 64 - i,
    {
        proof {
            lemma_simhash_bits_bound(sdv, i as nat);
            lemma_simhash_bits_bound(sdv, (i + 1) as nat);
            vstd::arithmetic::power2::lemma2_to64();
            vstd::arithmetic::power2::lemma_pow2_strictly_increases(i as nat, 64);
            vstd::arithmetic::power2::lemma_pow2_unfold((i + 1) as nat);
            if i + 1 < 64 {
                vstd::arithmetic::power2::lemma_pow2_strictly_increases((i + 1) as nat, 64);
            }
            vstd::bits::lemma_u64_shl_is_mul(1u64, i as u64);
        }
        if acc[i] > 0 {
            r = r + (1u64 << (i as u64));
        }
        i = i + 1;
    }
    r
}

/// Computes the simhash fingerprint of a text under the normalization:
/// the result is a pure function of the two arguments, so two runs over
/// the same text always agree.
pub fn compute_simhash(text: &str, normalization: &NormalizationOptions) -> (r: u64)
    ensures
        r == simhash_of(text@, *normalization),
{
    let chars = chars_of(text);
    compute_simhash_chars(&chars, normalization)
}

/// Simhash over an already decoded text.
pub fn compute_simhash_chars(text: &Vec<char>, normalization: &NormalizationOptions) -> (r: u64)
    ensures
        r == simhash_of(text@, *normalization),
{
    let lines = normalize_text_lines(text, normalization);
    let shingles = build_shingles(&lines);
    simhash_from_shingles(&shingles)
}

/// The number of set bits among the low `n` bits.
pub open spec fn count_bits(x: u64, n: nat) -> nat
    decreases n,
{
    if n == 0 {
        0
    } else {
        count_bits(x, (n - 1) as nat) + (if (x >> ((n - 1) as nat)) & 1 == 1 {
            1nat
        } else {
            0nat
        })
    }
}

/// The population count of a 64-bit value.
pub open spec fn popcount64(x: u64) -> nat {
    count_bits(x, 64)
}

/// `count_bits` is bounded by the number of bits counted.
pub proof fn lemma_count_bits_bound(x: u64, n: nat)
    ensures
        count_bits(x, n) <= n,
    decreases n,
{
    if n > 0 {
        lemma_count_bits_bound(x, (n - 1) as nat);
    }
}

/// Hamming distance between two simhashes: the number of differing bits.
pub fn hamming_distance(hash1: u64, hash2: u64) -> (r: u32)
    ensures
        r == popcount64(hash1 ^ hash2),
        r <= 64,
{
    let x = hash1 ^ hash2;
    let mut c: u32 = 0;
    let mut i: usize = 0;
    proof {
        lemma_count_bits_bound(x, 64);
    }
    while i < 64
        invariant
            0 <= i <= 64,
            c == count_bits(x, i as nat),
            c <= i,
        decreases 64 - i,
    {
        if (x >> (i as u64)) & 1 == 1 {
            c = c + 1;
        }
        i = i + 1;
    }
    c
}

/// Similarity of two simhashes in parts per million: one minus the
/// Hamming distance over 64.  The result always lies between zero and
/// one (`SCORE_UNIT`).
pub fn simhash_similarity(hash1: u64, hash2: u64) -> (r: u64)
    ensures
        r == (64 - popcount64(hash1 ^ hash2)) * (SCORE_UNIT / 64),
        r <= SCORE_UNIT,
{
    let d = hamming_distance(hash1, hash2);
    proof {
        assert(SCORE_UNIT == 1000000);
    }
    (64 - d as u64) * (SCORE_UNIT / 64)
}

/// The schema signature of a column list: the columns sorted, joined
/// with '|', hashed, and cut to the first 16 hex digits.  It depends on
/// the multiset of column names only.
pub open spec fn schema_sig_of(cols: Seq<Seq<char>>) -> Seq<char> {
    blake3_hex_of(
        vstd::utf8::encode_utf8(join_with(cols.sort_by(lex_leq()), seq!['|'])),
    ).take(16)
}

/// Permuted column lists have the same schema signature.
pub proof fn lemma_schema_sig_permutation(c1: Seq<Seq<char>>, c2: Seq<Seq<char>>)
    requires
        c1.to_multiset() == c2.to_multiset(),
    ensures
        schema_sig_of(c1) == schema_sig_of(c2),
{
    lemma_lex_total_ordering();
    c1.lemma_sort_by_ensures(lex_leq());
    c2.lemma_sort_by_ensures(lex_leq());
    lemma_sorted_multiset_unique(c1.sort_by(lex_leq()), c2.sort_by(lex_leq()), lex_leq());
}

/// Computes the schema signature of the column names.
pub fn compute_schema_signature(columns: &Vec<String>) -> (r: String)
    ensures
        r@ == schema_sig_of(columns.deep_view()),
        r@.len() == 16,
        forall|i: int| 0 <= i < r@.len() ==> is_hex_digit(#[trigger] r@[i]),
{
    let mut cols: Vec<Vec<char>> = Vec::new();
    let mut i: usize = 0;
    let n = columns.len();
    while i < n
        invariant
            0 <= i <= n == columns@.len(),
            cols.deep_view() == columns.deep_view().take(i as int),
        decreases n - i,
    {
        let c = chars_of(columns[i].as_str());
        proof {
            assert(c@ == columns@[i as int]@);
            assert(c@ == columns.deep_view()[i as int]);
        }
        let ghost before = cols.deep_view();
        cols.push(c);
        i = i + 1;
        proof {
            assert(cols.deep_view() =~~= before.push(columns.deep_view()[i - 1]));
            assert(columns.deep_view().take(i as int) =~= columns.deep_view().take(i - 1).push(
                columns.deep_view()[i - 1],
            ));
        }
    }
    proof {
        assert(columns.deep_view().take(n as int) =~= columns.deep_view());
    }
    let sorted = sort_char_seqs(&cols);
    let mut sep: Vec<char> = Vec::new();
    sep.push('|');
    proof {
        assert(sep@ =~= seq!['|']);
    }
    let joined = join(&sorted, &sep);
    let combined = string_of(&joined);
    let hex = blake3_hex(combined.as_str().as_bytes());
    let prefix = sub_chars(&hex, 0, 16);
    proof {
        assert(prefix@ =~= blake3_hex_of(vstd::utf8::encode_utf8(joined@)).take(16));
        assert(forall|i: int| 0 <= i < prefix@.len() ==> is_hex_digit(#[trigger] prefix@[i]));
    }
    string_of(&prefix)
}

/// Enriches one indexed entry with its fingerprints: the content hash
/// over the raw bytes always; a simhash over the decoded text for text
/// and table files; a schema signature for table files.  All metadata
/// from indexing is left unchanged, and a binary entry keeps having no
/// simhash.
pub fn compute_fingerprint(
    entry: &mut FileEntry,
    content: &[u8],
    normalization: &NormalizationOptions,
)
    requires
        old(entry).wf(),
    ensures
        final(entry).wf(),
        final(entry).fingerprinted(),
        final(entry).path == old(entry).path,
        final(entry).size == old(entry).size,
        final(entry).file_type == old(entry).file_type,
        final(entry).extension == old(entry).extension,
        final(entry).line_count == old(entry).line_count,
        final(entry).columns == old(entry).columns,
        final(entry).content_hash@ == blake3_hex_of(content@),
        final(entry).content_hash@.len() == 64,
        forall|i: int|
            0 <= i < final(entry).content_hash@.len() ==> is_hex_digit(
                #[trigger] final(entry).content_hash@[i],
            ),
        (old(entry).file_type is Text || old(entry).file_type is Csv
            || old(entry).file_type is Tsv) ==> final(entry).simhash == Some(
            simhash_of(lossy_chars_of(content@), *normalization),
        ),
        (old(entry).file_type is Binary || old(entry).file_type is Unknown)
            ==> final(entry).simhash == old(entry).simhash,
        (old(entry).file_type is Csv || old(entry).file_type is Tsv) ==> {
            &&& final(entry).schema_signature is Some
            &&& final(entry).schema_signature->Some_0@ == schema_sig_of(
                old(entry).columns->Some_0.deep_view(),
            )
        },
        !(old(entry).file_type is Csv || old(entry).file_type is Tsv)
            ==> final(entry).schema_signature == old(entry).schema_signature,
{
    entry.content_hash = content_hash_hex(content);
    match entry.file_type {
        FileType::Text => {
            let text = decode_lossy(content);
            entry.simhash = Some(compute_simhash_chars(&text, normalization));
        },
        FileType::Csv | FileType::Tsv => {
            let cols = match &entry.columns {
                Some(c) => c,
                None => {
                    proof {
                        assert(false);
                    }
                    vstd::pervasive::unreached()
                },
            };
            let sig = compute_schema_signature(cols);
            entry.schema_signature = Some(sig);
            let text = decode_lossy(content);
            entry.simhash = Some(compute_simhash_chars(&text, normalization));
        },
        FileType::Binary | FileType::Unknown => {},
    }
}

} // verus!
