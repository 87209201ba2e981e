//! Keyed table comparison: delimiter-split parsing, column set
//! analysis, key joins and per-column mismatch statistics under the
//! numeric tolerance.
//!
//! Parsing splits every line at the delimiter; quoted fields are not
//! interpreted, so a quoted field containing the delimiter is split.
//! This is the literal reading of the delimiter-split parsing rule and
//! a deliberate simplification against readers that honor quoting.

use vstd::prelude::*;
use crate::numeric::values_equal_spec;
use crate::text::{chars_of, split_char, split_lines, split_on_char, split_text_lines, string_of};
use crate::types::{
    valid_score, ColumnMismatch, CompareConfig, FieldMismatch, FileEntry, FileType,
    StructuredComparisonResult, Tolerance, SCORE_UNIT,
};

verus! {

/// The field delimiter of a table kind: tab for TSV, comma otherwise.
pub open spec fn delimiter_spec(t: FileType) -> char {
    if t is Tsv {
        '\t'
    } else {
        ','
    }
}

/// Picks the delimiter for a file kind.
pub fn get_delimiter(file_type: &FileType) -> (r: char)
    ensures
        r == delimiter_spec(*file_type),
{
    match file_type {
        FileType::Tsv => '\t',
        _ => ',',
    }
}

/// The records of a table text: every line split at the delimiter.
/// The first record, if any, is the header.
pub open spec fn table_records(t: Seq<char>, d: char) -> Seq<Seq<Seq<char>>> {
    split_lines(t).map_values(|l: Seq<char>| split_char(l, d))
}

/// The field at an index, or the empty value past the row's end.
pub open spec fn val_at(row: Seq<Seq<char>>, i: int) -> Seq<char> {
    if 0 <= i < row.len() {
        row[i]
    } else {
        Seq::empty()
    }
}

/// The first position of a column name in the header, or -1.
pub open spec fn first_index_of(h: Seq<Seq<char>>, c: Seq<char>) -> int
    decreases h.len(),
{
    if h.len() == 0 {
        -1
    } else if h[0] == c {
        0
    } else {
        let r = first_index_of(h.drop_first(), c);
        if r < 0 {
            -1
        } else {
            r + 1
        }
    }
}

/// The last position of the column name that the row still covers, or
/// -1: a repeated header name takes its rightmost covered occurrence.
pub open spec fn last_covered_index(h: Seq<Seq<char>>, c: Seq<char>, cover: int) -> int
    decreases h.len(),
{
    if h.len() == 0 {
        -1
    } else if h.len() - 1 < cover && h.last() == c {
        h.len() - 1
    } else {
        last_covered_index(h.drop_last(), c, cover)
    }
}

/// The value a row holds for a column, or empty when the column is not
/// covered by the row.
pub open spec fn col_value(h: Seq<Seq<char>>, row: Seq<Seq<char>>, c: Seq<char>) -> Seq<char> {
    let j = last_covered_index(h, c, row.len() as int);
    if j >= 0 {
        val_at(row, j)
    } else {
        Seq::empty()
    }
}

/// The key column positions: the first position of each configured key
/// column that the header has, in configuration order.
pub open spec fn key_indices_of(cfg: Seq<Seq<char>>, h: Seq<Seq<char>>) -> Seq<int>
    decreases cfg.len(),
{
    if cfg.len() == 0 {
        Seq::empty()
    } else {
        let rest = key_indices_of(cfg.drop_last(), h);
        let i = first_index_of(h, cfg.last());
        if i >= 0 {
            rest.push(i)
        } else {
            rest
        }
    }
}

/// The key of a row: the first field when no key columns are
/// configured, else the values of the configured columns present in
/// the header, joined with `|`; uncovered values contribute the empty
/// string.
pub open spec fn key_of(cfg: Seq<Seq<char>>, h: Seq<Seq<char>>, row: Seq<Seq<char>>) -> Seq<
    char,
> {
    if cfg.len() == 0 {
        val_at(row, 0)
    } else {
        crate::text::join_with(
            key_indices_of(cfg, h).map_values(|i: int| val_at(row, i)),
            seq!['|'],
        )
    }
}

/// The keys of the data rows, in row order.
pub open spec fn keys_of(cfg: Seq<Seq<char>>, h: Seq<Seq<char>>, rows: Seq<Seq<Seq<char>>>) -> Seq<
    Seq<char>,
> {
    rows.map_values(|r: Seq<Seq<char>>| key_of(cfg, h, r))
}

/// The distinct members of a list, keeping first occurrences in order.
pub open spec fn distinct_seq(ks: Seq<Seq<char>>) -> Seq<Seq<char>>
    decreases ks.len(),
{
    if ks.len() == 0 {
        Seq::empty()
    } else {
        let r = distinct_seq(ks.drop_last());
        if r.contains(ks.last()) {
            r
        } else {
            r.push(ks.last())
        }
    }
}

/// The row that finally stands under a key: the last row with that key.
pub open spec fn last_row_for(
    cfg: Seq<Seq<char>>,
    h: Seq<Seq<char>>,
    rows: Seq<Seq<Seq<char>>>,
    k: Seq<char>,
) -> Seq<Seq<char>>
    decreases rows.len(),
{
    if rows.len() == 0 {
        Seq::empty()
    } else if key_of(cfg, h, rows.last()) == k {
        rows.last()
    } else {
        last_row_for(cfg, h, rows.drop_last(), k)
    }
}

/// A parsed table: its header and its data rows in file order.
pub struct Table {
    /// The header fields.
    pub header: Vec<String>,
    /// The data rows, each split at the delimiter.
    pub rows: Vec<Vec<String>>,
}

impl Table {
    /// The spec-level header.
    pub open spec fn header_view(&self) -> Seq<Seq<char>> {
        self.header.deep_view()
    }

    /// The spec-level rows.
    pub open spec fn rows_view(&self) -> Seq<Seq<Seq<char>>> {
        self.rows.deep_view()
    }
}

/// Splits a line into owned fields.
fn split_fields(line: &Vec<char>, d: char) -> (r: Vec<String>)
    ensures
        r.deep_view() == split_char(line@, d),
        r@.len() >= 1,
{
    let parts = split_on_char(line, d);
    let mut out: Vec<String> = Vec::new();
    let mut i: usize = 0;
    let n = parts.len();
    proof {
        assert(out.deep_view() =~= parts.deep_view().take(0));
    }
    while i < n
        invariant
            0 <= i <= n == parts@.len(),
            parts.deep_view() == split_char(line@, d),
            out.deep_view() == parts.deep_view().take(i as int),
        decreases n - i,
    {
        let s = string_of(&parts[i]);
        proof {
            assert(parts.deep_view()[i as int] == parts@[i as int]@);
        }
        let ghost before = out.deep_view();
        out.push(s);
        i = i + 1;
        proof {
            assert(out.deep_view() =~~= before.push(parts.deep_view()[i - 1]));
            assert(parts.deep_view().take(i as int) =~= parts.deep_view().take(i - 1).push(
                parts.deep_view()[i - 1],
            ));
        }
    }
    proof {
        assert(parts.deep_view().take(n as int) =~= parts.deep_view());
    }
    out
}

/// Parses a table text: the first line becomes the header, the rest
/// the data rows, each split at the delimiter.  Quotes carry no special
/// meaning here (see the module note).
pub fn parse_table(text: &Vec<char>, d: char) -> (r: Table)
    ensures
        ({
            let recs = table_records(text@, d);
            &&& recs.len() == 0 ==> r.header_view() =~= Seq::<Seq<char>>::empty()
                && r.rows_view() =~= Seq::<Seq<Seq<char>>>::empty()
            &&& recs.len() > 0 ==> r.header_view() == recs[0] && r.rows_view() =~= recs.skip(1)
        }),
{
    let lines = split_text_lines(text);
    let ghost recs = table_records(text@, d);
    proof {
        assert(recs.len() == split_lines(text@).len());
    }
    if lines.len() == 0 {
        return Table { header: Vec::new(), rows: Vec::new() };
    }
    let header = split_fields(&lines[0], d);
    proof {
        assert(lines.deep_view()[0] == lines@[0]@);
        assert(header.deep_view() == recs[0]);
    }
    let mut rows: Vec<Vec<String>> = Vec::new();
    let mut i: usize = 1;
    let n = lines.len();
    proof {
        assert(rows.deep_view() =~= recs.skip(1).take(0));
    }
    while i < n
        invariant
            1 <= i <= n == lines@.len(),
            lines.deep_view() == split_lines(text@),
            recs == table_records(text@, d),
            recs.len() == n,
            rows.deep_view() == recs.skip(1).take(i - 1),
        decreases n - i,
    {
        let row = split_fields(&lines[i], d);
        proof {
            assert(lines.deep_view()[i as int] == lines@[i as int]@);
            assert(row.deep_view() == recs[i as int]);
            assert(recs.skip(1)[i - 1] == recs[i as int]);
        }
        let ghost before = rows.deep_view();
        rows.push(row);
        i = i + 1;
        proof {
            assert(rows.deep_view() =~~= before.push(recs.skip(1)[i - 2]));
            assert(recs.skip(1).take(i - 1) =~= recs.skip(1).take(i - 2).push(
                recs.skip(1)[i - 2],
            ));
        }
    }
    proof {
        assert(recs.skip(1).take(n - 1) =~= recs.skip(1));
    }
    Table { header, rows }
}

/// String equality through views.
fn str_eq(a: &str, b: &str) -> (r: bool)
    ensures
        r == (a@ == b@),
{
    let ca = chars_of(a);
    let cb = chars_of(b);
    crate::text::chars_eq(&ca, &cb)
}

/// Whether a list of names contains one.
fn names_contain(names: &Vec<String>, c: &str) -> (r: bool)
    ensures
        r == names.deep_view().contains(c@),
{
    let mut i: usize = 0;
    let n = names.len();
    while i < n
        invariant
            0 <= i <= n == names@.len(),
            forall|k: int| 0 <= k < i ==> names.deep_view()[k] != c@,
        decreases n - i,
    {
        if str_eq(names[i].as_str(), c) {
            proof {
                assert(names.deep_view()[i as int] == c@);
            }
            return true;
        }
        proof {
            assert(names.deep_view()[i as int] == names@[i as int]@);
        }
        i = i + 1;
    }
    proof {
        if names.deep_view().contains(c@) {
            let j = choose|j: int| 0 <= j < names.deep_view().len() && names.deep_view()[j] == c@;
            assert(false);
        }
    }
    false
}

/// The distinct members of a name list, first occurrences kept.
fn distinct_names(names: &Vec<String>) -> (r: Vec<String>)
    ensures
        r.deep_view() == distinct_seq(names.deep_view()),
{
    let mut out: Vec<String> = Vec::new();
    let mut i: usize = 0;
    let n = names.len();
    proof {
        assert(names.deep_view().take(0) =~= Seq::<Seq<char>>::empty());
        assert(out.deep_view() =~= distinct_seq(names.deep_view().take(0)));
    }
    while i < n
        invariant
            0 <= i <= n == names@.len(),
            out.deep_view() == distinct_seq(names.deep_view().take(i as int)),
        decreases n - i,
    {
        proof {
            assert(names.deep_view().take(i + 1).drop_last() =~= names.deep_view().take(i as int));
            assert(names.deep_view().take(i + 1).last() == names.deep_view()[i as int]);
            assert(names.deep_view()[i as int] == names@[i as int]@);
        }
        let present = names_contain(&out, names[i].as_str());
        if !present {
            let ghost before = out.deep_view();
            let s = names[i].clone();
            out.push(s);
            proof {
                assert(out.deep_view() =~~= before.push(names.deep_view()[i as int]));
            }
        }
        i = i + 1;
        proof {
            assert(out.deep_view() =~~= distinct_seq(names.deep_view().take(i as int)));
        }
    }
    proof {
        assert(names.deep_view().take(n as int) =~= names.deep_view());
    }
    out
}

/// Keeps the names that are present in the other list.
fn filter_present(names: &Vec<String>, other: &Vec<String>, keep_present: bool) -> (r: Vec<String>)
    ensures
        r.deep_view() == names.deep_view().filter(
            |c: Seq<char>| other.deep_view().contains(c) == keep_present,
        ),
{
    let ghost pred = |c: Seq<char>| other.deep_view().contains(c) == keep_present;
    let mut out: Vec<String> = Vec::new();
    let mut i: usize = 0;
    let n = names.len();
    proof {
        assert(names.deep_view().take(0) =~= Seq::<Seq<char>>::empty());
        assert(out.deep_view() =~= names.deep_view().take(0).filter(pred));
    }
    while i < n
        invariant
            0 <= i <= n == names@.len(),
            pred == (|c: Seq<char>| other.deep_view().contains(c) == keep_present),
            out.deep_view() == names.deep_view().take(i as int).filter(pred),
        decreases n - i,
    {
        proof {
            names.deep_view().take(i as int).lemma_filter_push(names.deep_view()[i as int], pred);
            assert(names.deep_view().take(i + 1) =~= names.deep_view().take(i as int).push(
                names.deep_view()[i as int],
            ));
            assert(names.deep_view()[i as int] == names@[i as int]@);
        }
        let present = names_contain(other, names[i].as_str());
        if present == keep_present {
            let ghost before = out.deep_view();
            let s = names[i].clone();
            out.push(s);
            proof {
                assert(out.deep_view() =~~= before.push(names.deep_view()[i as int]));
                assert(pred(names.deep_view()[i as int]));
            }
        } else {
            proof {
                assert(!pred(names.deep_view()[i as int]));
            }
        }
        i = i + 1;
        proof {
            assert(out.deep_view() =~~= names.deep_view().take(i as int).filter(pred));
        }
    }
    proof {
        assert(names.deep_view().take(n as int) =~= names.deep_view());
    }
    out
}

/// Looks a name up in a list, returning its first position.
fn find_name(names: &Vec<String>, c: &str) -> (r: Option<usize>)
    ensures
        r is Some ==> {
            &&& r->Some_0 < names@.len()
            &&& names.deep_view()[r->Some_0 as int] == c@
            &&& first_index_of(names.deep_view(), c@) == r->Some_0
        },
        r is None ==> first_index_of(names.deep_view(), c@) == -1 && !names.deep_view().contains(
            c@,
        ),
{
    let mut i: usize = 0;
    let n = names.len();
    while i < n
        invariant
            0 <= i <= n == names@.len(),
            forall|k: int| 0 <= k < i ==> names.deep_view()[k] != c@,
        decreases n - i,
    {
        if str_eq(names[i].as_str(), c) {
            proof {
                assert(names.deep_view()[i as int] == c@);
                lemma_first_index(names.deep_view(), c@, i as int);
            }
            return Some(i);
        }
        proof {
            assert(names.deep_view()[i as int] == names@[i as int]@);
        }
        i = i + 1;
    }
    proof {
        lemma_first_index_none(names.deep_view(), c@);
    }
    None
}

/// A first hit with nothing before it fixes `first_index_of`.
proof fn lemma_first_index(h: Seq<Seq<char>>, c: Seq<char>, i: int)
    requires
        0 <= i < h.len(),
        h[i] == c,
        forall|k: int| 0 <= k < i ==> h[k] != c,
    ensures
        first_index_of(h, c) == i,
    decreases h.len(),
{
    if i > 0 {
        assert(forall|k: int| 0 <= k < h.drop_first().len() ==> h.drop_first()[k] == h[k + 1]);
        lemma_first_index(h.drop_first(), c, i - 1);
    }
}

/// With no hit at all, `first_index_of` is -1.
proof fn lemma_first_index_none(h: Seq<Seq<char>>, c: Seq<char>)
    requires
        forall|k: int| 0 <= k < h.len() ==> h[k] != c,
    ensures
        first_index_of(h, c) == -1,
        !h.contains(c),
    decreases h.len(),
{
    if h.len() > 0 {
        assert(forall|k: int| 0 <= k < h.drop_first().len() ==> h.drop_first()[k] == h[k + 1]);
        lemma_first_index_none(h.drop_first(), c);
    }
}

/// The configured key columns resolved to header positions.
fn key_indices(cfg: &Vec<String>, header: &Vec<String>) -> (r: Vec<usize>)
    ensures
        r@.map_values(|u: usize| u as int) == key_indices_of(cfg.deep_view(), header.deep_view()),
        forall|k: int| 0 <= k < r@.len() ==> (#[trigger] r@[k]) < header@.len(),
{
    let mut out: Vec<usize> = Vec::new();
    let mut i: usize = 0;
    let n = cfg.len();
    proof {
        assert(cfg.deep_view().take(0) =~= Seq::<Seq<char>>::empty());
        assert(out@.map_values(|u: usize| u as int) =~= key_indices_of(
            cfg.deep_view().take(0),
            header.deep_view(),
        ));
    }
    while i < n
        invariant
            0 <= i <= n == cfg@.len(),
            out@.map_values(|u: usize| u as int) == key_indices_of(
                cfg.deep_view().take(i as int),
                header.deep_view(),
            ),
            forall|k: int| 0 <= k < out@.len() ==> (#[trigger] out@[k]) < header@.len(),
        decreases n - i,
    {
        proof {
            assert(cfg.deep_view().take(i + 1).drop_last() =~= cfg.deep_view().take(i as int));
            assert(cfg.deep_view().take(i + 1).last() == cfg.deep_view()[i as int]);
            assert(cfg.deep_view()[i as int] == cfg@[i as int]@);
        }
        match find_name(header, cfg[i].as_str()) {
            Some(j) => {
                let ghost before = out@;
                out.push(j);
                proof {
                    assert(header.deep_view().len() == header@.len());
                    assert(out@.map_values(|u: usize| u as int) =~= before.map_values(
                        |u: usize| u as int,
                    ).push(j as int));
                }
            },
            None => {},
        }
        i = i + 1;
        proof {
            assert(out@.map_values(|u: usize| u as int) =~= key_indices_of(
                cfg.deep_view().take(i as int),
                header.deep_view(),
            ));
        }
    }
    proof {
        assert(cfg.deep_view().take(n as int) =~= cfg.deep_view());
    }
    out
}

/// The key of one row under resolved key positions.
fn row_key(
    idxs: &Vec<usize>,
    cfg_empty: bool,
    row: &Vec<String>,
    Ghost(cfg): Ghost<Seq<Seq<char>>>,
    Ghost(h): Ghost<Seq<Seq<char>>>,
) -> (r: String)
    requires
        cfg_empty <==> cfg.len() == 0,
        idxs@.map_values(|u: usize| u as int) == key_indices_of(cfg, h),
    ensures
        r@ == key_of(cfg, h, row.deep_view()),
{
    if cfg_empty {
        if row.len() > 0 {
            let s = row[0].clone();
            proof {
                assert(row.deep_view()[0] == row@[0]@);
            }
            s
        } else {
            String::new()
        }
    } else {
        let mut parts: Vec<Vec<char>> = Vec::new();
        let mut i: usize = 0;
        let n = idxs.len();
        let ghost spec_parts = key_indices_of(cfg, h).map_values(
            |t: int| val_at(row.deep_view(), t),
        );
        proof {
            assert(parts.deep_view() =~= spec_parts.take(0));
        }
        while i < n
            invariant
                0 <= i <= n == idxs@.len(),
                idxs@.map_values(|u: usize| u as int) == key_indices_of(cfg, h),
                spec_parts == key_indices_of(cfg, h).map_values(
                    |t: int| val_at(row.deep_view(), t),
                ),
                n == spec_parts.len(),
                parts.deep_view() == spec_parts.take(i as int),
            decreases n - i,
        {
            let j = idxs[i];
            let part = if j < row.len() {
                chars_of(row[j].as_str())
            } else {
                Vec::new()
            };
            proof {
                if j < row@.len() {
                    assert(row.deep_view()[j as int] == row@[j as int]@);
                }
                assert(idxs@.map_values(|u: usize| u as int)[i as int] == j as int);
                assert(part@ == val_at(row.deep_view(), j as int));
                assert(spec_parts[i as int] == val_at(
                    row.deep_view(),
                    key_indices_of(cfg, h)[i as int],
                ));
            }
            let ghost before = parts.deep_view();
            parts.push(part);
            i = i + 1;
            proof {
                assert(parts.deep_view() =~~= before.push(spec_parts[i - 1]));
                assert(spec_parts.take(i as int) =~= spec_parts.take(i - 1).push(
                    spec_parts[i - 1],
                ));
            }
        }
        proof {
            assert(spec_parts.take(n as int) =~= spec_parts);
        }
        let mut sep: Vec<char> = Vec::new();
        sep.push('|');
        proof {
            assert(sep@ =~= seq!['|']);
        }
        let joined = crate::text::join(&parts, &sep);
        string_of(&joined)
    }
}

/// The keyed view of a table: distinct keys with, for each, the last
/// row that carried it.
fn build_keyed(table: &Table, cfg: &Vec<String>) -> (r: (Vec<String>, Vec<Vec<String>>))
    ensures
        r.0.deep_view() == distinct_seq(
            keys_of(cfg.deep_view(), table.header_view(), table.rows_view()),
        ),
        r.0@.len() == r.1@.len(),
        forall|j: int|
            0 <= j < r.0@.len() ==> (#[trigger] r.1@[j]).deep_view() == last_row_for(
                cfg.deep_view(),
                table.header_view(),
                table.rows_view(),
                r.0.deep_view()[j],
            ),
{
    let idxs = key_indices(cfg, &table.header);
    let cfg_empty = cfg.len() == 0;
    let ghost gcfg = cfg.deep_view();
    let ghost gh = table.header_view();
    let ghost grows = table.rows_view();
    let mut keys: Vec<String> = Vec::new();
    let mut rows: Vec<Vec<String>> = Vec::new();
    let mut i: usize = 0;
    let n = table.rows.len();
    proof {
        assert(grows.take(0) =~= Seq::<Seq<Seq<char>>>::empty());
        assert(keys_of(gcfg, gh, grows.take(0)) =~= Seq::<Seq<char>>::empty());
        assert(keys.deep_view() =~= distinct_seq(keys_of(gcfg, gh, grows.take(0))));
    }
    while i < n
        invariant
            0 <= i <= n == table.rows@.len(),
            gcfg == cfg.deep_view(),
            gh == table.header_view(),
            grows == table.rows_view(),
            cfg_empty <==> gcfg.len() == 0,
            idxs@.map_values(|u: usize| u as int) == key_indices_of(gcfg, gh),
            keys.deep_view() == distinct_seq(keys_of(gcfg, gh, grows.take(i as int))),
            keys@.len() == rows@.len(),
            forall|j: int|
                0 <= j < keys@.len() ==> (#[trigger] rows@[j]).deep_view() == last_row_for(
                    gcfg,
                    gh,
                    grows.take(i as int),
                    keys.deep_view()[j],
                ),
        decreases n - i,
    {
        let k = row_key(&idxs, cfg_empty, &table.rows[i], Ghost(gcfg), Ghost(gh));
        proof {
            assert(table.rows@[i as int].deep_view() == grows[i as int]);
            assert(k@ == key_of(gcfg, gh, grows[i as int]));
            assert(keys_of(gcfg, gh, grows.take(i + 1)) =~= keys_of(
                gcfg,
                gh,
                grows.take(i as int),
            ).push(key_of(gcfg, gh, grows[i as int])));
            assert(grows.take(i + 1).drop_last() =~= grows.take(i as int));
            assert(grows.take(i + 1).last() == grows[i as int]);
            assert(keys_of(gcfg, gh, grows.take(i + 1)).drop_last() =~= keys_of(
                gcfg,
                gh,
                grows.take(i as int),
            ));
        }
        let row = clone_columns(&table.rows[i]);
        match find_name(&keys, k.as_str()) {
            Some(pos) => {
                let ghost old_keys = keys.deep_view();
                let ghost old_rows = rows@;
                rows.set(pos, row);
                proof {
                    assert(keys.deep_view().contains(k@)) by {
                        assert(keys.deep_view()[pos as int] == k@);
                    }
                    assert(keys.deep_view() =~~= distinct_seq(
                        keys_of(gcfg, gh, grows.take(i + 1)),
                    ));
                    assert forall|j: int| 0 <= j < keys@.len() implies (
                    #[trigger] rows@[j]).deep_view() == last_row_for(
                        gcfg,
                        gh,
                        grows.take(i + 1),
                        keys.deep_view()[j],
                    ) by {
                        if j == pos {
                            assert(rows@[j].deep_view() =~~= grows[i as int]);
                        } else {
                            assert(rows@[j] == old_rows[j]);
                            assert(keys.deep_view()[j] != k@) by {
                                if keys.deep_view()[j] == k@ {
                                    lemma_distinct_no_dups(
                                        keys_of(gcfg, gh, grows.take(i as int)),
                                        j,
                                        pos as int,
                                    );
                                }
                            }
                        }
                    }
                }
            },
            None => {
                let ghost old_keys = keys.deep_view();
                keys.push(k);
                rows.push(row);
                proof {
                    assert(keys.deep_view() =~~= old_keys.push(
                        key_of(gcfg, gh, grows[i as int]),
                    ));
                    assert(keys.deep_view() =~~= distinct_seq(
                        keys_of(gcfg, gh, grows.take(i + 1)),
                    ));
                    assert forall|j: int| 0 <= j < keys@.len() implies (
                    #[trigger] rows@[j]).deep_view() == last_row_for(
                        gcfg,
                        gh,
                        grows.take(i + 1),
                        keys.deep_view()[j],
                    ) by {
                        if j == keys@.len() - 1 {
                            assert(rows@[j].deep_view() =~~= grows[i as int]);
                        } else {
                            assert(keys.deep_view()[j] == old_keys[j]);
                            assert(keys.deep_view()[j] != k@) by {
                                if old_keys[j] == k@ {
                                    assert(old_keys.contains(k@));
                                    lemma_distinct_contains(
                                        keys_of(gcfg, gh, grows.take(i as int)),
                                        k@,
                                    );
                                }
                            }
                        }
                    }
                }
            },
        }
        i = i + 1;
    }
    proof {
        assert(grows.take(n as int) =~= grows);
    }
    (keys, rows)
}

/// Entries of the distinct list are pairwise different.
proof fn lemma_distinct_no_dups(ks: Seq<Seq<char>>, j1: int, j2: int)
    requires
        0 <= j1 < distinct_seq(ks).len(),
        0 <= j2 < distinct_seq(ks).len(),
        j1 != j2,
    ensures
        distinct_seq(ks)[j1] != distinct_seq(ks)[j2],
    decreases ks.len(),
{
    if ks.len() > 0 {
        let r = distinct_seq(ks.drop_last());
        if !r.contains(ks.last()) {
            if j1 < r.len() && j2 < r.len() {
                lemma_distinct_no_dups(ks.drop_last(), j1, j2);
            } else if j1 < r.len() {
                assert(distinct_seq(ks)[j2] == ks.last());
                if r[j1] == ks.last() {
                    assert(r.contains(ks.last()));
                }
            } else {
                assert(distinct_seq(ks)[j1] == ks.last());
                if r[j2] == ks.last() {
                    assert(r.contains(ks.last()));
                }
            }
        } else {
            lemma_distinct_no_dups(ks.drop_last(), j1, j2);
        }
    }
}

/// Membership in the distinct list matches membership in the original.
proof fn lemma_distinct_contains(ks: Seq<Seq<char>>, k: Seq<char>)
    ensures
        distinct_seq(ks).contains(k) <==> ks.contains(k),
    decreases ks.len(),
{
    if ks.len() > 0 {
        lemma_distinct_contains(ks.drop_last(), k);
        assert(forall|j: int| 0 <= j < ks.len() - 1 ==> ks.drop_last()[j] == ks[j]);
        let r = distinct_seq(ks.drop_last());
        let d = distinct_seq(ks);
        if ks.contains(k) {
            let j = choose|j: int| 0 <= j < ks.len() && ks[j] == k;
            if j < ks.len() - 1 {
                assert(ks.drop_last()[j] == k);
                assert(ks.drop_last().contains(k));
                assert(r.contains(k));
                let ri = choose|ri: int| 0 <= ri < r.len() && r[ri] == k;
                assert(d[ri] == k);
                assert(d.contains(k));
            } else {
                assert(k == ks.last());
                if r.contains(k) {
                    assert(d == r);
                } else {
                    assert(d == r.push(ks.last()));
                    assert(d[d.len() - 1] == k);
                }
                assert(d.contains(k));
            }
        }
        if d.contains(k) {
            let j = choose|j: int| 0 <= j < d.len() && d[j] == k;
            if r.contains(ks.last()) {
                assert(d == r);
                assert(r.contains(k));
                assert(ks.drop_last().contains(k));
                let jj = choose|jj: int|
                    0 <= jj < ks.drop_last().len() && ks.drop_last()[jj] == k;
                assert(ks[jj] == k);
                assert(ks.contains(k));
            } else {
                assert(d == r.push(ks.last()));
                if j < r.len() {
                    assert(r[j] == k);
                    assert(r.contains(k));
                    assert(ks.drop_last().contains(k));
                    let jj = choose|jj: int|
                        0 <= jj < ks.drop_last().len() && ks.drop_last()[jj] == k;
                    assert(ks[jj] == k);
                    assert(ks.contains(k));
                } else {
                    assert(d[j] == ks.last());
                    assert(ks[ks.len() - 1] == k);
                    assert(ks.contains(k));
                }
            }
        }
    }
}

/// Clones a vector of strings field by field.
pub fn clone_columns(v: &Vec<String>) -> (r: Vec<String>)
    ensures
        r.deep_view() == v.deep_view(),
        r@.len() == v@.len(),
{
    let mut out: Vec<String> = Vec::new();
    let mut i: usize = 0;
    let n = v.len();
    proof {
        assert(out.deep_view() =~= v.deep_view().take(0));
    }
    while i < n
        invariant
            0 <= i <= n == v@.len(),
            out.deep_view() == v.deep_view().take(i as int),
            out@.len() == i,
        decreases n - i,
    {
        let s = v[i].clone();
        let ghost before = out.deep_view();
        out.push(s);
        i = i + 1;
        proof {
            assert(out.deep_view() =~~= before.push(v.deep_view()[i - 1]));
            assert(v.deep_view().take(i as int) =~= v.deep_view().take(i - 1).push(
                v.deep_view()[i - 1],
            ));
        }
    }
    proof {
        assert(v.deep_view().take(n as int) =~= v.deep_view());
    }
    out
}

/// The value a row holds for a column.
fn col_value_exec(h: &Vec<String>, row: &Vec<String>, c: &str) -> (r: String)
    ensures
        r@ == col_value(h.deep_view(), row.deep_view(), c@),
{
    let mut j = h.len();
    let ghost hd = h.deep_view();
    let ghost cover = row@.len() as int;
    proof {
        assert(hd.take(hd.len() as int) =~= hd);
    }
    while j > 0
        invariant
            0 <= j <= h@.len(),
            hd == h.deep_view(),
            cover == row@.len() as int,
            last_covered_index(hd, c@, cover) == last_covered_index(hd.take(j as int), c@, cover),
        decreases j,
    {
        proof {
            assert(hd.take(j as int).drop_last() =~= hd.take(j - 1));
            assert(hd.take(j as int).last() == hd[j - 1]);
            assert(hd[j - 1] == h@[j - 1]@);
        }
        if j - 1 < row.len() && str_eq(h[j - 1].as_str(), c) {
            proof {
                assert(last_covered_index(hd.take(j as int), c@, cover) == j - 1);
                assert(row.deep_view()[j - 1] == row@[j - 1]@);
            }
            let s = row[j - 1].clone();
            return s;
        }
        j = j - 1;
    }
    proof {
        assert(hd.take(0) =~= Seq::<Seq<char>>::empty());
        assert(last_covered_index(hd, c@, cover) == -1);
    }
    String::new()
}

/// Whether the two tables disagree on one column of one common key.
pub open spec fn field_differs(
    cfg: Seq<Seq<char>>,
    h1: Seq<Seq<char>>,
    rows1: Seq<Seq<Seq<char>>>,
    h2: Seq<Seq<char>>,
    rows2: Seq<Seq<Seq<char>>>,
    tol: Tolerance,
    c: Seq<char>,
    k: Seq<char>,
) -> bool {
    !values_equal_spec(
        col_value(h1, last_row_for(cfg, h1, rows1, k), c),
        col_value(h2, last_row_for(cfg, h2, rows2, k), c),
        tol,
    )
}

/// How many common keys disagree on a column.
pub open spec fn mm_count(
    cfg: Seq<Seq<char>>,
    h1: Seq<Seq<char>>,
    rows1: Seq<Seq<Seq<char>>>,
    h2: Seq<Seq<char>>,
    rows2: Seq<Seq<Seq<char>>>,
    tol: Tolerance,
    ks: Seq<Seq<char>>,
    c: Seq<char>,
) -> nat {
    ks.filter(|k: Seq<char>| field_differs(cfg, h1, rows1, h2, rows2, tol, c, k)).len()
}

/// The total mismatches over a list of columns.
pub open spec fn total_mm(
    cfg: Seq<Seq<char>>,
    h1: Seq<Seq<char>>,
    rows1: Seq<Seq<Seq<char>>>,
    h2: Seq<Seq<char>>,
    rows2: Seq<Seq<Seq<char>>>,
    tol: Tolerance,
    ks: Seq<Seq<char>>,
    cols: Seq<Seq<char>>,
) -> nat
    decreases cols.len(),
{
    if cols.len() == 0 {
        0
    } else {
        total_mm(cfg, h1, rows1, h2, rows2, tol, ks, cols.drop_last()) + mm_count(
            cfg,
            h1,
            rows1,
            h2,
            rows2,
            tol,
            ks,
            cols.last(),
        )
    }
}

/// The common keys on which the two tables disagree for a column, in
/// common-key order.
pub open spec fn differing_keys(
    cfg: Seq<Seq<char>>,
    h1: Seq<Seq<char>>,
    rows1: Seq<Seq<Seq<char>>>,
    h2: Seq<Seq<char>>,
    rows2: Seq<Seq<Seq<char>>>,
    tol: Tolerance,
    ks: Seq<Seq<char>>,
    c: Seq<char>,
) -> Seq<Seq<char>> {
    ks.filter(|k: Seq<char>| field_differs(cfg, h1, rows1, h2, rows2, tol, c, k))
}

/// One column's mismatch report is exact: the count is the number of
/// differing common keys, and the samples are the first five (or fewer)
/// differing records in key order, each carrying its key and the two
/// values the tables hold.
pub open spec fn mismatch_entry_ok(
    m: ColumnMismatch,
    cfg: Seq<Seq<char>>,
    h1: Seq<Seq<char>>,
    rows1: Seq<Seq<Seq<char>>>,
    h2: Seq<Seq<char>>,
    rows2: Seq<Seq<Seq<char>>>,
    tol: Tolerance,
    ks: Seq<Seq<char>>,
) -> bool {
    let dk = differing_keys(cfg, h1, rows1, h2, rows2, tol, ks, m.column_name@);
    &&& m.mismatch_count == dk.len()
    &&& m.sample_mismatches@.len() == (if dk.len() <= 5 {
        dk.len()
    } else {
        5nat
    })
    &&& forall|t: int|
        0 <= t < m.sample_mismatches@.len() ==> {
            &&& (#[trigger] m.sample_mismatches@[t]).key@ == dk[t]
            &&& m.sample_mismatches@[t].value1@ == col_value(
                h1,
                last_row_for(cfg, h1, rows1, dk[t]),
                m.column_name@,
            )
            &&& m.sample_mismatches@[t].value2@ == col_value(
                h2,
                last_row_for(cfg, h2, rows2, dk[t]),
                m.column_name@,
            )
        }
}

/// The key-set similarity in parts per million: common keys over the
/// union of keys (never above one), or one when both sets are empty.
pub open spec fn jaccard_ppm(c: nat, k1: nat, k2: nat) -> u64 {
    if k1 + k2 - c <= 0 {
        SCORE_UNIT
    } else if (c * (SCORE_UNIT as nat)) / ((k1 + k2 - c) as nat) <= (SCORE_UNIT as nat) {
        ((c * (SCORE_UNIT as nat)) / ((k1 + k2 - c) as nat)) as u64
    } else {
        SCORE_UNIT
    }
}

/// Compares two delimited files by key: column set analysis over the
/// headers, key set analysis over the keyed records, and per-column
/// mismatch statistics under the numeric tolerance.
#[verifier::rlimit(100)]
#[verifier::spinoff_prover]
/// The full postcondition of the table comparator, as one predicate so
/// that the dispatcher can promise it too.
pub open spec fn table_result_spec(
    r: StructuredComparisonResult,
    file1: FileEntry,
    file2: FileEntry,
    c1: Seq<u8>,
    c2: Seq<u8>,
    config: CompareConfig,
) -> bool {

    let cfg = config.key_columns.deep_view();
    let tol = config.numeric_tolerance;
    let recs1 = table_records(
        crate::text::lossy_chars_of(c1),
        delimiter_spec(file1.file_type),
    );
    let recs2 = table_records(
        crate::text::lossy_chars_of(c2),
        delimiter_spec(file2.file_type),
    );
    let h1 = if recs1.len() == 0 {
        Seq::<Seq<char>>::empty()
    } else {
        recs1[0]
    };
    let h2 = if recs2.len() == 0 {
        Seq::<Seq<char>>::empty()
    } else {
        recs2[0]
    };
    let rows1 = if recs1.len() == 0 {
        Seq::<Seq<Seq<char>>>::empty()
    } else {
        recs1.skip(1)
    };
    let rows2 = if recs2.len() == 0 {
        Seq::<Seq<Seq<char>>>::empty()
    } else {
        recs2.skip(1)
    };
    let ks1 = distinct_seq(keys_of(cfg, h1, rows1));
    let ks2 = distinct_seq(keys_of(cfg, h2, rows2));
    let ck = ks1.filter(|c: Seq<char>| ks2.contains(c) == true);
    let h1d = distinct_seq(h1);
    let h2d = distinct_seq(h2);
    let ccols = h1d.filter(|c: Seq<char>| h2d.contains(c) == true);
    let nkcols = ccols.filter(|c: Seq<char>| cfg.contains(c) == false);
    let tm = total_mm(cfg, h1, rows1, h2, rows2, tol, ck, nkcols);
    &&& r.file1_path@ == file1.path@
    &&& r.file2_path@ == file2.path@
    &&& r.linked_id@ == crate::textcmp::linked_id_of(
        file1.content_hash@,
        file2.content_hash@,
    )
    &&& r.file1_row_count == ks1.len()
    &&& r.file2_row_count == ks2.len()
    &&& r.common_records == ck.len()
    &&& r.only_in_file1 == ks1.filter(|c: Seq<char>| ks2.contains(c) == false).len()
    &&& r.only_in_file2 == ks2.filter(|c: Seq<char>| ks1.contains(c) == false).len()
    &&& r.common_columns.deep_view() == ccols
    &&& r.columns_only_in_file1.deep_view() == h1d.filter(
        |c: Seq<char>| h2d.contains(c) == false,
    )
    &&& r.columns_only_in_file2.deep_view() == h2d.filter(
        |c: Seq<char>| h1d.contains(c) == false,
    )
    &&& (tm <= usize::MAX ==> r.total_field_mismatches == tm)
    &&& (r.total_field_mismatches == 0 <==> tm == 0)
    &&& r.field_mismatches@.map_values(|m: ColumnMismatch| m.column_name@)
        == nkcols.filter(
        |c: Seq<char>| mm_count(cfg, h1, rows1, h2, rows2, tol, ck, c) > 0,
    )
    &&& forall|j: int|
        0 <= j < r.field_mismatches@.len() ==> mismatch_entry_ok(
            #[trigger] r.field_mismatches@[j],
            cfg,
            h1,
            rows1,
            h2,
            rows2,
            tol,
            ck,
        )
    &&& r.similarity_score == jaccard_ppm(ck.len(), ks1.len(), ks2.len())
    &&& valid_score(r.similarity_score)
    &&& r.identical == (r.only_in_file1 == 0 && r.only_in_file2 == 0
        && r.total_field_mismatches == 0)

}

pub fn compare_structured_files(
    file1: &FileEntry,
    file2: &FileEntry,
    content1: &[u8],
    content2: &[u8],
    config: &CompareConfig,
) -> (r: StructuredComparisonResult)
    requires
        config.numeric_tolerance.wf(),
    ensures
        table_result_spec(r, *file1, *file2, content1@, content2@, *config),
{
    broadcast use vstd::seq_lib::group_filter_ensures;

    let ghost cfg = config.key_columns.deep_view();
    let ghost tol = config.numeric_tolerance;
    let d1 = get_delimiter(&file1.file_type);
    let d2 = get_delimiter(&file2.file_type);
    let text1 = crate::text::decode_lossy(content1);
    let text2 = crate::text::decode_lossy(content2);
    let t1 = parse_table(&text1, d1);
    let t2 = parse_table(&text2, d2);
    let ghost h1 = t1.header_view();
    let ghost h2 = t2.header_view();
    let ghost rows1 = t1.rows_view();
    let ghost rows2 = t2.rows_view();
    proof {
        let recs1 = table_records(crate::text::lossy_chars_of(content1@), d1);
        if recs1.len() == 0 {
            assert(h1 =~= Seq::<Seq<char>>::empty());
            assert(rows1 =~= Seq::<Seq<Seq<char>>>::empty());
        }
        let recs2 = table_records(crate::text::lossy_chars_of(content2@), d2);
        if recs2.len() == 0 {
            assert(h2 =~= Seq::<Seq<char>>::empty());
            assert(rows2 =~= Seq::<Seq<Seq<char>>>::empty());
        }
    }
    // Column set analysis.
    let h1d = distinct_names(&t1.header);
    let h2d = distinct_names(&t2.header);
    let common_columns = filter_present(&h1d, &h2d, true);
    let columns_only_in_file1 = filter_present(&h1d, &h2d, false);
    let columns_only_in_file2 = filter_present(&h2d, &h1d, false);
    // Keyed records.
    let (keys1, krows1) = build_keyed(&t1, &config.key_columns);
    let (keys2, krows2) = build_keyed(&t2, &config.key_columns);
    let common_keys = filter_present(&keys1, &keys2, true);
    let only1_keys = filter_present(&keys1, &keys2, false);
    let only2_keys = filter_present(&keys2, &keys1, false);
    let ghost ks1 = keys1.deep_view();
    let ghost ks2 = keys2.deep_view();
    let ghost ck = common_keys.deep_view();
    // Field comparison over common non-key columns.
    let nkcols = filter_present(&common_columns, &config.key_columns, false);
    let ghost gnk = nkcols.deep_view();
    let mut mismatches: Vec<ColumnMismatch> = Vec::new();
    let mut total: usize = 0;
    let mut ci: usize = 0;
    let cn = nkcols.len();
    let ghost active_pred = |c: Seq<char>|
        mm_count(cfg, h1, rows1, h2, rows2, tol, ck, c) > 0;
    proof {
        assert(gnk.take(0) =~= Seq::<Seq<char>>::empty());
        assert(mismatches@.map_values(|m: ColumnMismatch| m.column_name@) =~= gnk.take(0).filter(
            active_pred,
        ));
    }
    while ci < cn
        invariant
            0 <= ci <= cn == nkcols@.len(),
            gnk == nkcols.deep_view(),
            cfg == config.key_columns.deep_view(),
            tol == config.numeric_tolerance,
            tol.wf(),
            h1 == t1.header_view(),
            h2 == t2.header_view(),
            rows1 == t1.rows_view(),
            rows2 == t2.rows_view(),
            ks1 == keys1.deep_view(),
            ks2 == keys2.deep_view(),
            ck == common_keys.deep_view(),
            ck == ks1.filter(|c: Seq<char>| ks2.contains(c) == true),
            keys1@.len() == krows1@.len(),
            keys2@.len() == krows2@.len(),
            ks1 == distinct_seq(keys_of(cfg, h1, rows1)),
            ks2 == distinct_seq(keys_of(cfg, h2, rows2)),
            forall|j: int|
                0 <= j < keys1@.len() ==> (#[trigger] krows1@[j]).deep_view() == last_row_for(
                    cfg,
                    h1,
                    rows1,
                    ks1[j],
                ),
            forall|j: int|
                0 <= j < keys2@.len() ==> (#[trigger] krows2@[j]).deep_view() == last_row_for(
                    cfg,
                    h2,
                    rows2,
                    ks2[j],
                ),
            active_pred == (|c: Seq<char>|
                mm_count(cfg, h1, rows1, h2, rows2, tol, ck, c) > 0),
            mismatches@.map_values(|m: ColumnMismatch| m.column_name@) == gnk.take(
                ci as int,
            ).filter(active_pred),
            forall|j: int|
                0 <= j < mismatches@.len() ==> mismatch_entry_ok(
                    #[trigger] mismatches@[j],
                    cfg,
                    h1,
                    rows1,
                    h2,
                    rows2,
                    tol,
                    ck,
                ),
            total as nat == (if total_mm(cfg, h1, rows1, h2, rows2, tol, ck, gnk.take(ci as int))
                <= usize::MAX {
                total_mm(cfg, h1, rows1, h2, rows2, tol, ck, gnk.take(ci as int))
            } else {
                usize::MAX as nat
            }),
        decreases cn - ci,
    {
        let colname = nkcols[ci].clone();
        proof {
            assert(nkcols.deep_view()[ci as int] == nkcols@[ci as int]@);
            assert(colname@ == gnk[ci as int]);
        }
        let mut cnt: usize = 0;
        let mut samples: Vec<FieldMismatch> = Vec::new();
        let mut kk: usize = 0;
        let kn = common_keys.len();
        let ghost diff_pred = |k: Seq<char>| field_differs(cfg, h1, rows1, h2, rows2, tol, colname@, k);
        proof {
            assert(ck.take(0) =~= Seq::<Seq<char>>::empty());
            assert(cnt as nat == ck.take(0).filter(diff_pred).len());
        }
        while kk < kn
            invariant
                0 <= kk <= kn == common_keys@.len(),
                tol.wf(),
                cfg == config.key_columns.deep_view(),
                tol == config.numeric_tolerance,
                h1 == t1.header_view(),
                h2 == t2.header_view(),
                rows1 == t1.rows_view(),
                rows2 == t2.rows_view(),
                ks1 == keys1.deep_view(),
                ks2 == keys2.deep_view(),
                ck == common_keys.deep_view(),
                ck == ks1.filter(|c: Seq<char>| ks2.contains(c) == true),
                keys1@.len() == krows1@.len(),
                keys2@.len() == krows2@.len(),
                forall|j: int|
                    0 <= j < keys1@.len() ==> (#[trigger] krows1@[j]).deep_view()
                        == last_row_for(cfg, h1, rows1, ks1[j]),
                forall|j: int|
                    0 <= j < keys2@.len() ==> (#[trigger] krows2@[j]).deep_view()
                        == last_row_for(cfg, h2, rows2, ks2[j]),
                diff_pred == (|k: Seq<char>|
                    field_differs(cfg, h1, rows1, h2, rows2, tol, colname@, k)),
                cnt as nat == ck.take(kk as int).filter(diff_pred).len(),
                cnt <= kk,
                samples@.len() == (if cnt <= 5 {
                    cnt as nat
                } else {
                    5nat
                }),
                forall|t: int|
                    0 <= t < samples@.len() ==> {
                        &&& (#[trigger] samples@[t]).key@ == ck.take(kk as int).filter(
                            diff_pred,
                        )[t]
                        &&& samples@[t].value1@ == col_value(
                            h1,
                            last_row_for(cfg, h1, rows1, samples@[t].key@),
                            colname@,
                        )
                        &&& samples@[t].value2@ == col_value(
                            h2,
                            last_row_for(cfg, h2, rows2, samples@[t].key@),
                            colname@,
                        )
                    },
            decreases kn - kk,
        {
            proof {
                ck.take(kk as int).lemma_filter_push(ck[kk as int], diff_pred);
                assert(ck.take(kk + 1) =~= ck.take(kk as int).push(ck[kk as int]));
                assert(common_keys.deep_view()[kk as int] == common_keys@[kk as int]@);
                assert(ck.contains(ck[kk as int])) by {
                    assert(ck[kk as int] == ck[kk as int]);
                }
            }
            let key = &common_keys[kk];
            proof {
                ks1.lemma_filter_contains_rev(
                    |c: Seq<char>| ks2.contains(c) == true,
                    ck[kk as int],
                );
                assert(ks1.contains(ck[kk as int]));
                ks1.lemma_filter_pred(|c: Seq<char>| ks2.contains(c) == true, kk as int);
                assert(ks2.contains(ck[kk as int]));
            }
            let idx1 = match find_name(&keys1, key.as_str()) {
                Some(i) => i,
                None => {
                    proof {
                        assert(false);
                    }
                    vstd::pervasive::unreached()
                },
            };
            let idx2 = match find_name(&keys2, key.as_str()) {
                Some(i) => i,
                None => {
                    proof {
                        assert(false);
                    }
                    vstd::pervasive::unreached()
                },
            };
            let v1 = col_value_exec(&t1.header, &krows1[idx1], colname.as_str());
            let v2 = col_value_exec(&t2.header, &krows2[idx2], colname.as_str());
            proof {
                assert(krows1@[idx1 as int].deep_view() == last_row_for(
                    cfg,
                    h1,
                    rows1,
                    ck[kk as int],
                ));
                assert(krows2@[idx2 as int].deep_view() == last_row_for(
                    cfg,
                    h2,
                    rows2,
                    ck[kk as int],
                ));
            }
            let eq = crate::numeric::values_equal(
                v1.as_str(),
                v2.as_str(),
                &config.numeric_tolerance,
            );
            if !eq {
                proof {
                    assert(diff_pred(ck[kk as int]));
                    assert(ck.take(kk + 1).filter(diff_pred) == ck.take(kk as int).filter(
                        diff_pred,
                    ).push(ck[kk as int]));
                }
                cnt = cnt + 1;
                if samples.len() < 5 {
                    let sample = FieldMismatch {
                        key: key.clone(),
                        value1: v1,
                        value2: v2,
                    };
                    let ghost old_samples = samples@;
                    proof {
                        assert(sample.key@ == ck[kk as int]);
                        assert(ck.take(kk + 1).filter(diff_pred)[cnt - 1] == ck[kk as int]);
                    }
                    samples.push(sample);
                    proof {
                        assert(forall|t: int|
                            0 <= t < old_samples.len() ==> samples@[t] == old_samples[t]);
                        assert(forall|t: int|
                            0 <= t < old_samples.len() ==> ck.take(kk + 1).filter(diff_pred)[t]
                                == ck.take(kk as int).filter(diff_pred)[t]);
                    }
                }
            } else {
                proof {
                    assert(!diff_pred(ck[kk as int]));
                    assert(ck.take(kk + 1).filter(diff_pred) == ck.take(kk as int).filter(
                        diff_pred,
                    ));
                }
            }
            kk = kk + 1;
            proof {
                assert(cnt as nat == ck.take(kk as int).filter(diff_pred).len());
            }
        }
        proof {
            assert(ck.take(kn as int) =~= ck);
            assert(cnt as nat == mm_count(cfg, h1, rows1, h2, rows2, tol, ck, colname@));
        }
        let ghost old_names = mismatches@.map_values(|m: ColumnMismatch| m.column_name@);
        if cnt > 0 {
            let cm = ColumnMismatch {
                column_name: colname,
                mismatch_count: cnt,
                sample_mismatches: samples,
            };
            proof {
                assert(mismatch_entry_ok(cm, cfg, h1, rows1, h2, rows2, tol, ck));
            }
            mismatches.push(cm);
            proof {
                assert(mismatches@.map_values(|m: ColumnMismatch| m.column_name@)
                    =~= old_names.push(gnk[ci as int]));
                assert(active_pred(gnk[ci as int]));
                assert(forall|j: int|
                    0 <= j < mismatches@.len() - 1 ==> mismatches@[j]
                        == mismatches@.subrange(0, mismatches@.len() - 1)[j]);
            }
        } else {
            proof {
                assert(!active_pred(gnk[ci as int]));
            }
        }
        let new_total = if total <= usize::MAX - cnt {
            total + cnt
        } else {
            usize::MAX
        };
        total = new_total;
        ci = ci + 1;
        proof {
            gnk.take(ci - 1).lemma_filter_push(gnk[ci - 1], active_pred);
            assert(gnk.take(ci as int) =~= gnk.take(ci - 1).push(gnk[ci - 1]));
            assert(mismatches@.map_values(|m: ColumnMismatch| m.column_name@) =~= gnk.take(
                ci as int,
            ).filter(active_pred));
            assert(gnk.take(ci as int).drop_last() =~= gnk.take(ci - 1));
            assert(total_mm(cfg, h1, rows1, h2, rows2, tol, ck, gnk.take(ci as int)) == total_mm(
                cfg,
                h1,
                rows1,
                h2,
                rows2,
                tol,
                ck,
                gnk.take(ci - 1),
            ) + mm_count(cfg, h1, rows1, h2, rows2, tol, ck, gnk[ci - 1]));
        }
    }
    proof {
        assert(gnk.take(cn as int) =~= gnk);
    }
    // Similarity over key sets.
    let c_len = common_keys.len();
    let k1_len = keys1.len();
    let k2_len = keys2.len();
    proof {
        ks1.lemma_filter_len(|c: Seq<char>| ks2.contains(c) == true);
        assert(ck.len() <= ks1.len());
        assert(c_len <= k1_len);
    }
    let denom = (k1_len as u128) + (k2_len as u128) - (c_len as u128);
    let similarity_score: u64 = if denom == 0 {
        SCORE_UNIT
    } else {
        let scaled = ((c_len as u128) * 1000000) / denom;
        proof {
            assert(SCORE_UNIT == 1000000);
        }
        if scaled <= 1000000 {
            scaled as u64
        } else {
            SCORE_UNIT
        }
    };
    proof {
        assert(SCORE_UNIT == 1000000);
        assert(similarity_score == jaccard_ppm(ck.len(), ks1.len(), ks2.len()));
    }
    let only1 = only1_keys.len();
    let only2 = only2_keys.len();
    let identical = only1 == 0 && only2 == 0 && total == 0;
    let linked_id = crate::textcmp::make_linked_id(
        file1.content_hash.as_str(),
        file2.content_hash.as_str(),
    );
    StructuredComparisonResult {
        linked_id,
        file1_path: file1.path.clone(),
        file2_path: file2.path.clone(),
        file1_row_count: k1_len,
        file2_row_count: k2_len,
        common_records: c_len,
        only_in_file1: only1,
        only_in_file2: only2,
        similarity_score,
        field_mismatches: mismatches,
        total_field_mismatches: total,
        columns_only_in_file1,
        columns_only_in_file2,
        common_columns,
        identical,
    }
}

/// No member of a list is missing from it: the one-sided filter of a
/// list against itself is empty.
pub proof fn lemma_self_filter_empty(s: Seq<Seq<char>>)
    ensures
        s.filter(|c: Seq<char>| s.contains(c) == false).len() == 0,
{
    broadcast use vstd::seq_lib::group_filter_ensures;

    let f = s.filter(|c: Seq<char>| s.contains(c) == false);
    if f.len() > 0 {
        s.lemma_filter_pred(|c: Seq<char>| s.contains(c) == false, 0);
        s.lemma_filter_contains_rev(|c: Seq<char>| s.contains(c) == false, f[0]);
        assert(false);
    }
}

/// Every member of a list is found in it: filtering a list against
/// itself keeps everything.
pub proof fn lemma_self_filter_full(s: Seq<Seq<char>>)
    ensures
        s.filter(|c: Seq<char>| s.contains(c) == true) == s,
    decreases s.len(),
{
    broadcast use vstd::seq_lib::group_filter_ensures;

    lemma_prefix_filter_full(s, s.len() as int);
    assert(s.take(s.len() as int) =~= s);
}

/// Every prefix of a list filters to itself under membership in the
/// whole list.
proof fn lemma_prefix_filter_full(s: Seq<Seq<char>>, i: int)
    requires
        0 <= i <= s.len(),
    ensures
        s.take(i).filter(|c: Seq<char>| s.contains(c) == true) == s.take(i),
    decreases i,
{
    broadcast use vstd::seq_lib::group_filter_ensures;

    let p = |c: Seq<char>| s.contains(c) == true;
    if i == 0 {
        assert(s.take(0) =~= Seq::<Seq<char>>::empty());
        assert(s.take(0).filter(p) =~= s.take(0));
    } else {
        lemma_prefix_filter_full(s, i - 1);
        s.take(i - 1).lemma_filter_push(s[i - 1], p);
        assert(s.take(i) =~= s.take(i - 1).push(s[i - 1]));
        assert(s.contains(s[i - 1]));
        assert(p(s[i - 1]));
        assert(s.take(i).filter(p) =~= s.take(i - 1).filter(p).push(s[i - 1]));
        assert(s.take(i).filter(p) =~= s.take(i));
    }
}

/// A table never disagrees with itself on any column of any key.
pub proof fn lemma_self_mm_count_zero(
    cfg: Seq<Seq<char>>,
    h: Seq<Seq<char>>,
    rows: Seq<Seq<Seq<char>>>,
    tol: Tolerance,
    ks: Seq<Seq<char>>,
    c: Seq<char>,
)
    ensures
        mm_count(cfg, h, rows, h, rows, tol, ks, c) == 0,
{
    let pred = |k: Seq<char>| field_differs(cfg, h, rows, h, rows, tol, c, k);
    assert forall|k: Seq<char>| !(#[trigger] pred(k)) by {
        let v = col_value(h, last_row_for(cfg, h, rows, k), c);
        assert(values_equal_spec(v, v, tol));
    }
    ks.lemma_all_neg_filter_empty(pred);
}

/// A table never disagrees with itself over any column list.
pub proof fn lemma_self_total_mm_zero(
    cfg: Seq<Seq<char>>,
    h: Seq<Seq<char>>,
    rows: Seq<Seq<Seq<char>>>,
    tol: Tolerance,
    ks: Seq<Seq<char>>,
    cols: Seq<Seq<char>>,
)
    ensures
        total_mm(cfg, h, rows, h, rows, tol, ks, cols) == 0,
    decreases cols.len(),
{
    if cols.len() > 0 {
        lemma_self_total_mm_zero(cfg, h, rows, tol, ks, cols.drop_last());
        lemma_self_mm_count_zero(cfg, h, rows, tol, ks, cols.last());
    }
}

/// The key-set similarity of a set with itself is one.
pub proof fn lemma_self_jaccard_full(k: nat)
    ensures
        jaccard_ppm(k, k, k) == SCORE_UNIT,
{
    if k > 0 {
        assert((k * (SCORE_UNIT as nat)) / k == SCORE_UNIT as nat) by (nonlinear_arith)
            requires
                k > 0,
        ;
    }
}

/// The identity law of the table comparator: by its contract, comparing
/// a table file against itself under any key configuration and
/// tolerance reports no one-sided keys, no field mismatches, full
/// similarity, and hence an identical result.
pub proof fn lemma_table_identity(
    cfg: Seq<Seq<char>>,
    h: Seq<Seq<char>>,
    rows: Seq<Seq<Seq<char>>>,
    tol: Tolerance,
    cols: Seq<Seq<char>>,
)
    ensures
        ({
            let ks = distinct_seq(keys_of(cfg, h, rows));
            &&& ks.filter(|c: Seq<char>| ks.contains(c) == false).len() == 0
            &&& ks.filter(|c: Seq<char>| ks.contains(c) == true) == ks
            &&& total_mm(cfg, h, rows, h, rows, tol, ks, cols) == 0
            &&& jaccard_ppm(ks.len(), ks.len(), ks.len()) == SCORE_UNIT
        }),
{
    let ks = distinct_seq(keys_of(cfg, h, rows));
    lemma_self_filter_empty(ks);
    lemma_self_filter_full(ks);
    lemma_self_total_mm_zero(cfg, h, rows, tol, ks, cols);
    lemma_self_jaccard_full(ks.len());
}

} // verus!
