//! File-system paths as text, joined the way `PathBuf::join` joins them on Unix.
use vstd::prelude::*;
use crate::text::{chars_of, string_of, append};

verus! {

/// `part` joined onto `base`: an absolute part replaces the base; otherwise a
/// separator goes between them unless the base is empty or already ends with one.
pub open spec fn join_spec(base: Seq<char>, part: Seq<char>) -> Seq<char> {
    if part.len() > 0 && part[0] == '/' {
        part
    } else if base.len() == 0 {
        part
    } else if base.last() == '/' {
        base + part
    } else {
        base + seq!['/'] + part
    }
}

/// `part` joined onto `base`.
pub fn join(base: &str, part: &str) -> (p: String)
    ensures
        p@ == join_spec(base@, part@),
{
    let b = chars_of(base);
    let q = chars_of(part);
    if q.len() > 0 && q[0] == '/' {
        return string_of(&q);
    }
    if b.len() == 0 {
        return string_of(&q);
    }
    let mut v = b;
    if v[v.len() - 1] != '/' {
        v.push('/');
    }
    append(&mut v, &q);
    string_of(&v)
}

} // verus!
