//! Small string helpers shared by the export and display layers:
//! filename sanitization, path truncation for display, and relative
//! path computation.

use vstd::prelude::*;
use crate::text::{chars_of, string_of, sub_chars};

verus! {

/// Whether a character is unsafe in a filename.
pub open spec fn unsafe_char(c: char) -> bool {
    c == '/' || c == '\\' || c == ':' || c == '*' || c == '?' || c == '"' || c == '<' || c == '>'
        || c == '|'
}

/// A character made safe for a filename.
pub open spec fn sanitize_char(c: char) -> char {
    if unsafe_char(c) {
        '_'
    } else {
        c
    }
}

/// The sanitized form of a name: every unsafe character replaced by an
/// underscore.
pub open spec fn sanitize_spec(s: Seq<char>) -> Seq<char> {
    s.map_values(|c: char| sanitize_char(c))
}

/// Replaces every filesystem-unsafe character with an underscore.
pub fn sanitize_filename(s: &str) -> (r: String)
    ensures
        r@ == sanitize_spec(s@),
{
    let v = chars_of(s);
    let mut out: Vec<char> = Vec::new();
    let mut i: usize = 0;
    let n = v.len();
    proof {
        assert(out@ =~= v@.take(0).map_values(|c: char| sanitize_char(c)));
    }
    while i < n
        invariant
            0 <= i <= n == v@.len(),
            v@ == s@,
            out@ == v@.take(i as int).map_values(|c: char| sanitize_char(c)),
        decreases n - i,
    {
        let c = v[i];
        let mapped = if c == '/' || c == '\\' || c == ':' || c == '*' || c == '?' || c == '"' || c
            == '<' || c == '>' || c == '|' {
            '_'
        } else {
            c
        };
        out.push(mapped);
        i = i + 1;
        proof {
            assert(out@ =~= v@.take(i as int).map_values(|c: char| sanitize_char(c)));
        }
    }
    proof {
        assert(v@.take(n as int) =~= v@);
    }
    string_of(&out)
}

/// Replaces every filesystem-unsafe character with an underscore.
pub fn sanitize_for_filename(s: &str) -> (r: String)
    ensures
        r@ == sanitize_spec(s@),
{
    sanitize_filename(s)
}

/// A path shortened for display: kept whole when within the limit,
/// otherwise an ellipsis followed by its tail.
pub open spec fn truncate_path_spec(s: Seq<char>, max_len: int) -> Seq<char> {
    if s.len() <= max_len {
        s
    } else {
        let keep = if max_len > 3 {
            max_len - 3
        } else {
            0
        };
        seq!['.', '.', '.'] + s.skip(s.len() - keep)
    }
}

/// Shortens a path for display.
pub fn truncate_path(path: &str, max_len: usize) -> (r: String)
    ensures
        r@ == truncate_path_spec(path@, max_len as int),
{
    let v = chars_of(path);
    let n = v.len();
    if n <= max_len {
        let out = sub_chars(&v, 0, n);
        proof {
            assert(out@ =~= path@);
        }
        string_of(&out)
    } else {
        let keep = if max_len > 3 {
            max_len - 3
        } else {
            0
        };
        let mut out: Vec<char> = Vec::new();
        out.push('.');
        out.push('.');
        out.push('.');
        let tail = sub_chars(&v, n - keep, n);
        let ghost mid = out@;
        let mut k: usize = 0;
        proof {
            assert(mid =~= seq!['.', '.', '.']);
        }
        while k < tail.len()
            invariant
                0 <= k <= tail@.len(),
                out@ == mid + tail@.take(k as int),
            decreases tail@.len() - k,
        {
            out.push(tail[k]);
            k = k + 1;
            proof {
                assert(out@ =~= mid + tail@.take(k as int));
            }
        }
        proof {
            assert(tail@.take(tail@.len() as int) =~= tail@);
            assert(out@ =~= truncate_path_spec(path@, max_len as int));
        }
        string_of(&out)
    }
}

/// Whether a path starts with a base directory: either the whole path,
/// or the base followed by a separator.
pub open spec fn under_base(path: Seq<char>, base: Seq<char>) -> bool {
    &&& path.len() >= base.len()
    &&& path.take(base.len() as int) == base
    &&& (path.len() == base.len() || path[base.len() as int] == '/' || path[base.len() as int]
        == '\\')
}

/// The path relative to the base: the tail after the base and one
/// separator when the path lies under it, the path itself otherwise.
pub open spec fn relative_path_spec(path: Seq<char>, base: Seq<char>) -> Seq<char> {
    if under_base(path, base) {
        if path.len() == base.len() {
            Seq::empty()
        } else {
            path.skip(base.len() as int + 1)
        }
    } else {
        path
    }
}

/// Computes the path relative to a base directory.
pub fn relative_path(path: &str, base: &str) -> (r: String)
    ensures
        r@ == relative_path_spec(path@, base@),
{
    let p = chars_of(path);
    let b = chars_of(base);
    let pn = p.len();
    let bn = b.len();
    if pn < bn {
        let out = sub_chars(&p, 0, pn);
        proof {
            assert(out@ =~= path@);
        }
        return string_of(&out);
    }
    let prefix = sub_chars(&p, 0, bn);
    if !crate::text::chars_eq(&prefix, &b) {
        let out = sub_chars(&p, 0, pn);
        proof {
            assert(out@ =~= path@);
            assert(!under_base(path@, base@));
        }
        return string_of(&out);
    }
    if pn == bn {
        proof {
            assert(under_base(path@, base@));
        }
        return String::new();
    }
    let sep = p[bn];
    if sep == '/' || sep == '\\' {
        let out = sub_chars(&p, bn + 1, pn);
        proof {
            assert(under_base(path@, base@));
            assert(out@ =~= path@.skip(base@.len() as int + 1));
        }
        string_of(&out)
    } else {
        let out = sub_chars(&p, 0, pn);
        proof {
            assert(out@ =~= path@);
            assert(!under_base(path@, base@));
        }
        string_of(&out)
    }
}

} // verus!
