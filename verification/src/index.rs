//! Indexing logic: file kind detection from an extension hint and a
//! bounded content probe, entry construction, and deterministic ordering
//! by path.  Reading directories and files is the caller's concern; this
//! module works on the bytes it is handed.

use vstd::prelude::*;
use vstd::multiset::Multiset;
use vstd::relations::sorted_by;
use crate::order::{chars_le, lemma_lex_le_total, lex_le};
use crate::text::{
    ascii_lower_char, chars_of, decode_lossy, lossy_chars_of, split_char, split_lines,
    split_on_char, split_text_lines, string_of, sub_chars, trim, trim_ws,
};
use crate::types::{FileEntry, FileType};

verus! {

/// The fields of a header line under a delimiter, each trimmed.
pub open spec fn header_fields(line: Seq<char>, d: char) -> Seq<Seq<char>> {
    split_char(line, d).map_values(|f: Seq<char>| trim_ws(f))
}

/// A header parses when it has at least two fields.
pub open spec fn parse_header_spec(line: Seq<char>, d: char) -> Option<Seq<Seq<char>>> {
    if split_char(line, d).len() >= 2 {
        Some(header_fields(line, d))
    } else {
        None
    }
}

/// Splits a line on the delimiter and returns the trimmed fields, or
/// nothing when there are fewer than two.
pub fn parse_header(line: &str, delimiter: char) -> (r: Option<Vec<String>>)
    ensures
        r is Some <==> parse_header_spec(line@, delimiter) is Some,
        r is Some ==> r->Some_0.deep_view() == parse_header_spec(line@, delimiter)->Some_0,
{
    let chars = chars_of(line);
    let parts = split_on_char(&chars, delimiter);
    if parts.len() >= 2 {
        let mut out: Vec<String> = Vec::new();
        let mut i: usize = 0;
        let n = parts.len();
        while i < n
            invariant
                0 <= i <= n == parts@.len(),
                parts.deep_view() == split_char(line@, delimiter),
                out.deep_view() == parts.deep_view().map_values(|f: Seq<char>| trim_ws(f)).take(
                    i as int,
                ),
            decreases n - i,
        {
            let t = trim(&parts[i]);
            proof {
                assert(parts.deep_view()[i as int] == parts@[i as int]@);
            }
            let s = string_of(&t);
            let ghost before = out.deep_view();
            out.push(s);
            i = i + 1;
            proof {
                let m = parts.deep_view().map_values(|f: Seq<char>| trim_ws(f));
                assert(out.deep_view() =~~= before.push(m[i - 1]));
                assert(m.take(i as int) =~= m.take(i - 1).push(m[i - 1]));
            }
        }
        proof {
            let m = parts.deep_view().map_values(|f: Seq<char>| trim_ws(f));
            assert(m.take(n as int) =~= m);
        }
        Some(out)
    } else {
        None
    }
}

/// A trimmed field is a plausible column name: non-empty, under 100
/// characters, and free of embedded line feeds.
pub open spec fn plausible_column(f: Seq<char>) -> bool {
    &&& f.len() > 0
    &&& f.len() < 100
    &&& forall|k: int| 0 <= k < f.len() ==> f[k] != '\n'
}

/// A line looks like a structured header under a delimiter when it has
/// at least two fields and every trimmed field is a plausible column.
pub open spec fn detect_structured_spec(line: Seq<char>, d: char) -> Option<Seq<Seq<char>>> {
    if split_char(line, d).len() >= 2 && (forall|k: int|
        0 <= k < header_fields(line, d).len() ==> plausible_column(
            #[trigger] header_fields(line, d)[k],
        )) {
        Some(header_fields(line, d))
    } else {
        None
    }
}

/// Tests whether a line looks like a structured header, returning the
/// trimmed fields when it does.
pub fn try_detect_structured(line: &str, delimiter: char) -> (r: Option<Vec<String>>)
    ensures
        r is Some <==> detect_structured_spec(line@, delimiter) is Some,
        r is Some ==> r->Some_0.deep_view() == detect_structured_spec(line@, delimiter)->Some_0,
{
    let fields = match parse_header(line, delimiter) {
        Some(f) => f,
        None => {
            return None;
        },
    };
    let ghost hf = header_fields(line@, delimiter);
    let mut i: usize = 0;
    let n = fields.len();
    while i < n
        invariant
            0 <= i <= n == fields@.len(),
            hf == header_fields(line@, delimiter),
            fields.deep_view() == hf,
            n == hf.len(),
            split_char(line@, delimiter).len() >= 2,
            forall|k: int| 0 <= k < i ==> plausible_column(#[trigger] hf[k]),
        decreases n - i,
    {
        let f = chars_of(fields[i].as_str());
        proof {
            assert(f@ == fields@[i as int]@);
            assert(f@ == hf[i as int]);
        }
        if f.len() == 0 || f.len() >= 100 {
            proof {
                assert(!plausible_column(header_fields(line@, delimiter)[i as int]));
                assert(detect_structured_spec(line@, delimiter) is None);
            }
            return None;
        }
        let mut k: usize = 0;
        let fl = f.len();
        while k < fl
            invariant
                0 <= k <= fl == f@.len(),
                0 <= i < header_fields(line@, delimiter).len(),
                f@ == header_fields(line@, delimiter)[i as int],
                split_char(line@, delimiter).len() >= 2,
                forall|m: int| 0 <= m < k ==> f@[m] != '\n',
            decreases fl - k,
        {
            if f[k] == '\n' {
                proof {
                    assert(f@[k as int] == '\n');
                    assert(!plausible_column(header_fields(line@, delimiter)[i as int]));
                    assert(detect_structured_spec(line@, delimiter) is None);
                }
                return None;
            }
            k = k + 1;
        }
        proof {
            assert(plausible_column(hf[i as int]));
        }
        i = i + 1;
    }
    Some(fields)
}

/// The first line of the probe whose trimmed form is non-empty, itself
/// trimmed; empty when every line is blank.
pub open spec fn first_header_line(lines: Seq<Seq<char>>) -> Seq<char>
    decreases lines.len(),
{
    if lines.len() == 0 {
        Seq::empty()
    } else if trim_ws(lines.first()).len() > 0 {
        trim_ws(lines.first())
    } else {
        first_header_line(lines.drop_first())
    }
}

/// Finds the header line of a probe text.
fn find_header_line(lines: &Vec<Vec<char>>) -> (r: Vec<char>)
    ensures
        r@ == first_header_line(lines.deep_view()),
{
    let mut i: usize = 0;
    let n = lines.len();
    proof {
        assert(lines.deep_view().skip(0) =~= lines.deep_view());
    }
    while i < n
        invariant
            0 <= i <= n == lines@.len(),
            first_header_line(lines.deep_view()) == first_header_line(
                lines.deep_view().skip(i as int),
            ),
        decreases n - i,
    {
        proof {
            assert(lines.deep_view().skip(i as int).first() == lines.deep_view()[i as int]);
            assert(lines.deep_view()[i as int] == lines@[i as int]@);
        }
        let t = trim(&lines[i]);
        if t.len() > 0 {
            proof {
                assert(first_header_line(lines.deep_view().skip(i as int)) == t@);
            }
            return t;
        }
        proof {
            assert(lines.deep_view().skip(i as int).drop_first() =~= lines.deep_view().skip(
                i + 1,
            ));
        }
        i = i + 1;
    }
    proof {
        assert(lines.deep_view().skip(i as int) =~= Seq::<Seq<char>>::empty());
    }
    Vec::new()
}

/// Whether the probe bytes contain a zero byte, the binary signal.
pub open spec fn has_null_byte(b: Seq<u8>) -> bool {
    exists|k: int| 0 <= k < b.len() && b[k] == 0
}

/// The detected kind and columns of a file, from its lowercased
/// extension and a bounded probe of its content:
/// a zero byte means binary; a `csv` extension with a comma header, or a
/// `tsv`/`tab` extension with a tab header, names the kind directly;
/// otherwise a header whose fields all look like column names makes the
/// file a table; everything else is text.
pub open spec fn detect_kind_spec(ext: Seq<char>, probe: Seq<u8>) -> (FileType, Option<
    Seq<Seq<char>>,
>) {
    let header = first_header_line(split_lines(lossy_chars_of(probe)));
    if has_null_byte(probe) {
        (FileType::Binary, None::<Seq<Seq<char>>>)
    } else if ext == "csv"@ && parse_header_spec(header, ',') is Some {
        (FileType::Csv, Some(parse_header_spec(header, ',')->Some_0))
    } else if (ext == "tsv"@ || ext == "tab"@) && parse_header_spec(header, '\t') is Some {
        (FileType::Tsv, Some(parse_header_spec(header, '\t')->Some_0))
    } else if header.len() > 0 && detect_structured_spec(header, ',') is Some {
        (FileType::Csv, Some(detect_structured_spec(header, ',')->Some_0))
    } else if header.len() > 0 && detect_structured_spec(header, '\t') is Some {
        (FileType::Tsv, Some(detect_structured_spec(header, '\t')->Some_0))
    } else {
        (FileType::Text, None::<Seq<Seq<char>>>)
    }
}

/// Compares a character vector against a short literal.
fn chars_eq_lit(v: &Vec<char>, lit: &str) -> (r: bool)
    ensures
        r == (v@ == lit@),
{
    let l = chars_of(lit);
    crate::text::chars_eq(v, &l)
}

/// Detects the kind of a file from its extension and content probe.
pub fn detect_file_kind(extension: &str, probe: &[u8]) -> (r: (FileType, Option<Vec<String>>))
    ensures
        r.0 == detect_kind_spec(extension@, probe@).0,
        detect_kind_spec(extension@, probe@).1 is Some <==> r.1 is Some,
        r.1 is Some ==> r.1->Some_0.deep_view() == detect_kind_spec(extension@, probe@).1->Some_0,
        r.1 is Some ==> r.1->Some_0@.len() >= 2,
{
    let mut has_null = false;
    let mut k: usize = 0;
    let n = probe.len();
    while k < n
        invariant
            0 <= k <= n == probe@.len(),
            has_null == exists|m: int| 0 <= m < k && probe@[m] == 0,
        decreases n - k,
    {
        if probe[k] == 0 {
            has_null = true;
        }
        k = k + 1;
    }
    if has_null {
        return (FileType::Binary, None);
    }
    let text = decode_lossy(probe);
    let lines = split_text_lines(&text);
    let header = find_header_line(&lines);
    let header_str = string_of(&header);
    let ext = chars_of(extension);
    let is_csv_ext = chars_eq_lit(&ext, "csv");
    let is_tsv_ext = chars_eq_lit(&ext, "tsv") || chars_eq_lit(&ext, "tab");
    proof {
        assert(header_str@ == first_header_line(split_lines(lossy_chars_of(probe@))));
    }
    if is_csv_ext {
        if let Some(cols) = parse_header(header_str.as_str(), ',') {
            proof {
                assert(cols.deep_view() == header_fields(header_str@, ','));
                assert(cols@.len() == cols.deep_view().len());
                assert(cols@.len() == split_char(header_str@, ',').len());
            }
            return (FileType::Csv, Some(cols));
        }
    }
    if is_tsv_ext {
        if let Some(cols) = parse_header(header_str.as_str(), '\t') {
            proof {
                assert(cols.deep_view() == header_fields(header_str@, '\t'));
                assert(cols@.len() == cols.deep_view().len());
                assert(cols@.len() == split_char(header_str@, '\t').len());
            }
            return (FileType::Tsv, Some(cols));
        }
    }
    if header.len() > 0 {
        if let Some(cols) = try_detect_structured(header_str.as_str(), ',') {
            proof {
                assert(cols.deep_view() == header_fields(header_str@, ','));
                assert(cols@.len() == cols.deep_view().len());
                assert(cols@.len() == split_char(header_str@, ',').len());
            }
            return (FileType::Csv, Some(cols));
        }
        if let Some(cols) = try_detect_structured(header_str.as_str(), '\t') {
            proof {
                assert(cols.deep_view() == header_fields(header_str@, '\t'));
                assert(cols@.len() == cols.deep_view().len());
                assert(cols@.len() == split_char(header_str@, '\t').len());
            }
            return (FileType::Tsv, Some(cols));
        }
    }
    (FileType::Text, None)
}

/// The physical line count of a file: none for an empty file, otherwise
/// the number of line feeds, plus one when the last byte is not one.
pub open spec fn line_count_spec(newlines: usize, total_len: u64, last_is_nl: bool) -> usize {
    if total_len == 0 {
        0usize
    } else if last_is_nl {
        newlines
    } else {
        (newlines + 1) as usize
    }
}

/// Counts line feeds in one chunk of bytes; a caller streaming a large
/// file sums these per chunk.
pub fn count_newline_bytes(chunk: &[u8]) -> (r: usize)
    ensures
        r
            == crate::index::newline_count(chunk@),
{
    let mut c: usize = 0;
    let mut i: usize = 0;
    let n = chunk.len();
    proof {
        assert(chunk@.take(0) =~= Seq::<u8>::empty());
    }
    while i < n
        invariant
            0 <= i <= n == chunk@.len(),
            c == newline_count(chunk@.take(i as int)),
            c <= i,
        decreases n - i,
    {
        proof {
            assert(chunk@.take(i + 1).drop_last() =~= chunk@.take(i as int));
        }
        if chunk[i] == 10 {
            c = c + 1;
        }
        i = i + 1;
    }
    proof {
        assert(chunk@.take(n as int) =~= chunk@);
    }
    c
}

/// The number of line feed bytes in a byte sequence.
pub open spec fn newline_count(b: Seq<u8>) -> nat
    decreases b.len(),
{
    if b.len() == 0 {
        0
    } else {
        newline_count(b.drop_last()) + (if b.last() == 10 {
            1nat
        } else {
            0nat
        })
    }
}

/// Combines a newline tally into the file's line count.
pub fn line_count_from(newlines: usize, total_len: u64, last_is_nl: bool) -> (r: usize)
    requires
        newlines < usize::MAX,
    ensures
        r == line_count_spec(newlines, total_len, last_is_nl),
{
    if total_len == 0 {
        0
    } else if last_is_nl {
        newlines
    } else {
        newlines + 1
    }
}

/// The lowercased extension of a path: what follows the last dot of the
/// final path component, unless the dot leads the component; empty when
/// there is no such dot.
pub open spec fn extension_spec(path: Seq<char>) -> Seq<char> {
    let base = basename_spec(path);
    let d = last_dot(base);
    if d <= 0 {
        Seq::empty()
    } else {
        base.skip(d + 1).map_values(|c: char| ascii_lower_char(c))
    }
}

/// The final component of a path: what follows the last `/` or `\`.
pub open spec fn basename_spec(path: Seq<char>) -> Seq<char>
    decreases path.len(),
{
    if path.len() == 0 {
        path
    } else if path.last() == '/' || path.last() == '\\' {
        Seq::empty()
    } else {
        basename_spec(path.drop_last()).push(path.last())
    }
}

/// Index of the last dot of a name, or -1 when there is none.
pub open spec fn last_dot(name: Seq<char>) -> int
    decreases name.len(),
{
    if name.len() == 0 {
        -1
    } else if name.last() == '.' {
        name.len() - 1
    } else {
        last_dot(name.drop_last())
    }
}

/// The final component of a path.
pub fn basename_chars(path: &Vec<char>) -> (r: Vec<char>)
    ensures
        r@ == basename_spec(path@),
{
    let mut start = path.len();
    proof {
        assert(path@.take(path@.len() as int) =~= path@);
        assert(path@.skip(path@.len() as int) =~= Seq::<char>::empty());
        assert(basename_spec(path@) + Seq::<char>::empty() =~= basename_spec(path@));
    }
    while start > 0 && path[start - 1] != '/' && path[start - 1] != '\\'
        invariant
            0 <= start <= path@.len(),
            basename_spec(path@) == basename_spec(path@.take(start as int)) + path@.skip(
                start as int,
            ),
        decreases start,
    {
        proof {
            assert(path@.take(start as int).drop_last() =~= path@.take(start - 1));
            assert(basename_spec(path@.take(start as int)) == basename_spec(
                path@.take(start - 1),
            ).push(path@[start - 1]));
            assert(basename_spec(path@.take(start - 1)).push(path@[start - 1]) + path@.skip(
                start as int,
            ) =~= basename_spec(path@.take(start - 1)) + path@.skip(start - 1));
        }
        start = start - 1;
    }
    proof {
        if start > 0 {
            assert(basename_spec(path@.take(start as int)) =~= Seq::<char>::empty());
        } else {
            assert(path@.take(0) =~= Seq::<char>::empty());
            assert(basename_spec(path@.take(0)) =~= Seq::<char>::empty());
        }
        assert(basename_spec(path@) =~= path@.skip(start as int));
    }
    sub_chars(path, start, path.len())
}

/// The basename of a path string.
pub fn basename_of(path: &str) -> (r: String)
    ensures
        r@ == basename_spec(path@),
{
    let chars = chars_of(path);
    let b = basename_chars(&chars);
    string_of(&b)
}

/// The lowercased extension of a path, without the dot.
pub fn extension_of(path: &str) -> (r: String)
    ensures
        r@ == extension_spec(path@),
{
    let chars = chars_of(path);
    let base = basename_chars(&chars);
    let mut found = false;
    let mut dot: usize = 0;
    let mut i: usize = base.len();
    while i > 0 && !found
        invariant
            0 <= i <= base@.len(),
            found ==> dot == last_dot(base@) && dot < base@.len(),
            !found ==> forall|k: int| i <= k < base@.len() ==> base@[k] != '.',
        decreases i,
    {
        i = i - 1;
        if base[i] == '.' {
            found = true;
            dot = i;
            proof {
                lemma_last_dot_at(base@, i as int);
            }
        }
    }
    proof {
        if !found {
            lemma_last_dot_below(base@, 0);
        }
    }
    if !found || dot == 0 {
        proof {
            assert(last_dot(base@) <= 0);
        }
        String::new()
    } else {
        let tail = sub_chars(&base, dot + 1, base.len());
        let mut out: Vec<char> = Vec::new();
        let mut k: usize = 0;
        let tn = tail.len();
        while k < tn
            invariant
                0 <= k <= tn == tail@.len(),
                out@ == tail@.take(k as int).map_values(|c: char| ascii_lower_char(c)),
            decreases tn - k,
        {
            let c = tail[k];
            let folded = if 'A' <= c && c <= 'Z' {
                ((c as u8) + 32) as char
            } else {
                c
            };
            out.push(folded);
            k = k + 1;
            proof {
                assert(out@ =~= tail@.take(k as int).map_values(|c: char| ascii_lower_char(c)));
            }
        }
        proof {
            assert(tail@.take(tn as int) =~= tail@);
            assert(tail@ =~= basename_spec(path@).skip(last_dot(basename_spec(path@)) + 1));
        }
        string_of(&out)
    }
}

/// If a dot stands at `i` and none stands above it, the last dot is `i`.
proof fn lemma_last_dot_at(name: Seq<char>, i: int)
    requires
        0 <= i < name.len(),
        name[i] == '.',
        forall|k: int| i < k < name.len() ==> name[k] != '.',
    ensures
        last_dot(name) == i,
    decreases name.len(),
{
    if i == name.len() - 1 {
    } else {
        lemma_last_dot_at(name.drop_last(), i);
    }
}

/// If no dot stands at or above `i`, the last dot is below `i`.
proof fn lemma_last_dot_below(name: Seq<char>, i: int)
    requires
        0 <= i <= name.len(),
        forall|k: int| i <= k < name.len() ==> name[k] != '.',
    ensures
        last_dot(name) < i,
    decreases name.len(),
{
    if i < name.len() {
        lemma_last_dot_below(name.drop_last(), i);
    } else if name.len() > 0 && i == name.len() {
        if name.last() != '.' {
            lemma_last_dot_below(name.drop_last(), i - 1);
        }
    }
}

/// Builds one indexed entry from the file's metadata and probe; the
/// caller supplies the full line count it tallied while reading.  The
/// entry satisfies the indexing invariant: fingerprints are empty, a
/// table has its columns, a binary file counts zero lines.
pub fn build_entry(path: String, size: u64, probe: &[u8], line_count: usize) -> (r: FileEntry)
    ensures
        r.wf(),
        r.path == path,
        r.size == size,
        r.extension@ == extension_spec(path@),
        r.file_type == detect_kind_spec(extension_spec(path@), probe@).0,
        r.file_type is Binary ==> r.line_count == 0,
        !(r.file_type is Binary) ==> r.line_count == line_count,
        r.content_hash@.len() == 0,
        r.simhash is None,
        r.schema_signature is None,
        detect_kind_spec(extension_spec(path@), probe@).1 is Some <==> r.columns is Some,
        r.columns is Some ==> r.columns->Some_0.deep_view() == detect_kind_spec(
            extension_spec(path@),
            probe@,
        ).1->Some_0,
{
    let extension = extension_of(path.as_str());
    let (file_type, columns) = detect_file_kind(extension.as_str(), probe);
    let lc = if matches!(file_type, FileType::Binary) {
        0
    } else {
        line_count
    };
    FileEntry {
        path,
        size,
        file_type,
        extension,
        content_hash: String::new(),
        simhash: None,
        schema_signature: None,
        line_count: lc,
        columns,
    }
}

/// Sorts entries by path, the deterministic order of an index listing.
pub fn sort_entries_by_path(entries: Vec<FileEntry>) -> (r: Vec<FileEntry>)
    ensures
        r@.to_multiset() == entries@.to_multiset(),
        sorted_by(r@.map_values(|e: FileEntry| e.path@), crate::order::lex_leq()),
{
    let ghost orig = entries@;
    let mut src = entries;
    let mut r: Vec<FileEntry> = Vec::new();
    proof {
        r@.to_multiset_ensures();
        assert(r@.to_multiset().add(src@.to_multiset()) =~= orig.to_multiset());
        assert(r@.map_values(|e: FileEntry| e.path@) =~= Seq::<Seq<char>>::empty());
    }
    while src.len() > 0
        invariant
            orig.to_multiset() == r@.to_multiset().add(src@.to_multiset()),
            sorted_by(r@.map_values(|e: FileEntry| e.path@), crate::order::lex_leq()),
        decreases src@.len(),
    {
        let ghost old_src = src@;
        let x = src.remove(0);
        proof {
            assert(x == old_src[0]);
            assert(src@ =~= old_src.remove(0));
            vstd::seq_lib::to_multiset_remove(old_src, 0);
            old_src.to_multiset_ensures();
            assert(old_src.to_multiset().count(x) > 0);
        }
        let xp = chars_of(x.path.as_str());
        let mut pos: usize = 0;
        let rn = r.len();
        loop
            invariant
                0 <= pos <= rn == r@.len(),
                xp@ == x.path@,
                forall|k: int| 0 <= k < pos ==> lex_le(#[trigger] r@[k].path@, x.path@),
            ensures
                0 <= pos <= rn,
                forall|k: int| 0 <= k < pos ==> lex_le(#[trigger] r@[k].path@, x.path@),
                pos < rn ==> !lex_le(r@[pos as int].path@, x.path@),
            decreases rn - pos,
        {
            if pos >= rn {
                break;
            }
            let rp = chars_of(r[pos].path.as_str());
            if !chars_le(&rp, &xp) {
                break;
            }
            pos = pos + 1;
        }
        let ghost old_r = r@;
        proof {
            if pos < rn {
                lemma_lex_le_total(r@[pos as int].path@, x.path@);
            }
        }
        r.insert(pos, x);
        proof {
            let paths = |e: FileEntry| e.path@;
            assert(r@ == old_r.insert(pos as int, x));
            assert(sorted_by(r@.map_values(paths), crate::order::lex_leq())) by {
                let dv = r@.map_values(paths);
                let odv = old_r.map_values(paths);
                assert forall|k1: int, k2: int|
                    0 <= k1 < k2 < dv.len() implies crate::order::lex_leq()(dv[k1], dv[k2]) by {
                    assert(dv[k1] == r@[k1].path@);
                    assert(dv[k2] == r@[k2].path@);
                    if k2 < pos {
                        assert(odv[k1] == old_r[k1].path@ && odv[k2] == old_r[k2].path@);
                        assert(crate::order::lex_leq()(odv[k1], odv[k2]));
                    } else if k1 < pos && k2 == pos {
                        assert(lex_le(old_r[k1].path@, x.path@));
                    } else if k1 < pos && k2 > pos {
                        assert(odv[k1] == old_r[k1].path@ && odv[k2 - 1] == old_r[k2 - 1].path@);
                        assert(crate::order::lex_leq()(odv[k1], odv[k2 - 1]));
                    } else if k1 == pos {
                        assert(r@[k2] == old_r[k2 - 1]);
                        assert(lex_le(x.path@, old_r[pos as int].path@));
                        if pos < k2 - 1 {
                            assert(odv[pos as int] == old_r[pos as int].path@);
                            assert(odv[k2 - 1] == old_r[k2 - 1].path@);
                            assert(crate::order::lex_leq()(odv[pos as int], odv[k2 - 1]));
                            crate::order::lemma_lex_le_trans(
                                x.path@,
                                old_r[pos as int].path@,
                                old_r[k2 - 1].path@,
                            );
                        }
                    } else {
                        assert(odv[k1 - 1] == old_r[k1 - 1].path@ && odv[k2 - 1] == old_r[k2
                            - 1].path@);
                        assert(crate::order::lex_leq()(odv[k1 - 1], odv[k2 - 1]));
                    }
                }
            }
            vstd::seq_lib::to_multiset_insert(old_r, pos as int, x);
            assert(r@.to_multiset().add(src@.to_multiset()) =~= orig.to_multiset()) by {
                assert(r@.to_multiset() == old_r.to_multiset().insert(x));
                assert(src@.to_multiset() == old_src.to_multiset().remove(x));
                assert forall|e: FileEntry| true implies r@.to_multiset().add(
                    src@.to_multiset(),
                ).count(e) == orig.to_multiset().count(e) by {
                    assert(old_r.to_multiset().add(old_src.to_multiset()) == orig.to_multiset());
                }
            }
        }
    }
    proof {
        assert(src@ =~= Seq::<FileEntry>::empty());
        src@.to_multiset_ensures();
        assert forall|e: FileEntry| true implies src@.to_multiset().count(e) == Multiset::<
            FileEntry,
        >::empty().count(e) by {
            assert(!src@.contains(e));
        }
        assert(src@.to_multiset() =~= Multiset::<FileEntry>::empty());
        assert(r@.to_multiset().add(src@.to_multiset()) =~= r@.to_multiset());
    }
    r
}

} // verus!
