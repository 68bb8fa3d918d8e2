//! Ref names: slash-separated names, at most three segments deep, that point
//! at a head and live as files under the store's `refs` directory.
use vstd::prelude::*;
use crate::path::{join, join_spec};
use crate::store::BlobHash;
use crate::text::{chars_of, string_of, starts_with, has_prefix};

verus! {

pub const REFS_DIR: &'static str = "refs";

pub const MAX_DEPTH: usize = 3;

/// An ASCII letter or digit, `-`, `_` or `.`.
pub open spec fn seg_char(c: char) -> bool {
    let n = c as u32;
    ||| 0x61 <= n <= 0x7a
    ||| 0x41 <= n <= 0x5a
    ||| 0x30 <= n <= 0x39
    ||| n == 0x2d
    ||| n == 0x5f
    ||| n == 0x2e
}

/// A usable segment: not empty, not hidden, and made of segment characters.
pub open spec fn segment_ok(s: Seq<char>) -> bool {
    &&& s.len() > 0
    &&& s[0] != '.'
    &&& forall|i: int| 0 <= i < s.len() ==> seg_char(#[trigger] s[i])
}

pub fn is_seg_char(c: char) -> (r: bool)
    ensures
        r == seg_char(c),
{
    let n = c as u32;
    (0x61 <= n && n <= 0x7a) || (0x41 <= n && n <= 0x5a) || (0x30 <= n && n <= 0x39) || n == 0x2d
        || n == 0x5f || n == 0x2e
}

/// Whether the characters `s` make a usable segment.
pub fn segment_chars_ok(s: &Vec<char>) -> (r: bool)
    ensures
        r == segment_ok(s@),
{
    if s.len() == 0 || s[0] == '.' {
        return false;
    }
    let mut i: usize = 0;
    while i < s.len()
        invariant
            i <= s.len(),
            forall|j: int| 0 <= j < i ==> seg_char(#[trigger] s@[j]),
        decreases s.len() - i,
    {
        if !is_seg_char(s[i]) {
            return false;
        }
        i = i + 1;
    }
    true
}

pub fn valid_segment(segment: &str) -> (r: bool)
    ensures
        r == segment_ok(segment@),
{
    segment_chars_ok(&chars_of(segment))
}

/// The segments finished so far and the one being read, as `str::split('/')` goes.
pub open spec fn split_run(s: Seq<char>) -> (Seq<Seq<char>>, Seq<char>)
    decreases s.len(),
{
    if s.len() == 0 {
        (Seq::empty(), Seq::empty())
    } else {
        let (done, cur) = split_run(s.drop_last());
        if s.last() == '/' {
            (done.push(cur), Seq::empty())
        } else {
            (done, cur.push(s.last()))
        }
    }
}

/// The pieces of `s` between slashes; one more than the number of slashes.
pub open spec fn segments(s: Seq<char>) -> Seq<Seq<char>> {
    split_run(s).0.push(split_run(s).1)
}

/// The pieces of `s` between slashes.
pub fn split_slash(s: &str) -> (v: Vec<Vec<char>>)
    ensures
        v@.len() == segments(s@).len(),
        forall|i: int| 0 <= i < v@.len() ==> (#[trigger] v@[i])@ == segments(s@)[i],
{
    let cs = chars_of(s);
    let mut done: Vec<Vec<char>> = Vec::new();
    let mut cur: Vec<char> = Vec::new();
    let mut i: usize = 0;
    while i < cs.len()
        invariant
            i <= cs.len(),
            cs@ == s@,
            done@.len() == split_run(cs@.take(i as int)).0.len(),
            forall|j: int| 0 <= j < done@.len() ==> (#[trigger] done@[j])@ == split_run(
                cs@.take(i as int),
            ).0[j],
            cur@ == split_run(cs@.take(i as int)).1,
        decreases cs.len() - i,
    {
        assert(cs@.take(i + 1).drop_last() =~= cs@.take(i as int));
        assert(cs@.take(i + 1).last() == cs@[i as int]);
        if cs[i] == '/' {
            let ghost before = done@;
            let finished = cur;
            done.push(finished);
            cur = Vec::new();
            assert forall|j: int| 0 <= j < done@.len() implies (#[trigger] done@[j])@ == split_run(
                cs@.take(i + 1),
            ).0[j] by {
                if j < before.len() {
                    assert(done@[j] == before[j]);
                }
            }
            assert(cur@ =~= Seq::<char>::empty());
        } else {
            cur.push(cs[i]);
        }
        i = i + 1;
    }
    assert(cs@.take(i as int) =~= s@);
    let ghost before = done@;
    done.push(cur);
    assert forall|j: int| 0 <= j < done@.len() implies (#[trigger] done@[j])@ == segments(s@)[j] by {
        if j < before.len() {
            assert(done@[j] == before[j]);
        }
    }
    done
}

/// A usable ref name: at most three segments, each usable.
pub open spec fn name_ok(name: Seq<char>) -> bool {
    &&& segments(name).len() <= 3
    &&& forall|i: int| 0 <= i < segments(name).len() ==> segment_ok(#[trigger] segments(name)[i])
}

pub fn valid_name(name: &str) -> (r: bool)
    ensures
        r == name_ok(name@),
{
    let segs = split_slash(name);
    if segs.len() > MAX_DEPTH {
        return false;
    }
    let mut i: usize = 0;
    while i < segs.len()
        invariant
            i <= segs.len(),
            segs@.len() == segments(name@).len(),
            forall|j: int| 0 <= j < segs@.len() ==> (#[trigger] segs@[j])@ == segments(name@)[j],
            forall|j: int| 0 <= j < i ==> segment_ok(#[trigger] segments(name@)[j]),
        decreases segs.len() - i,
    {
        if !segment_chars_ok(&segs[i]) {
            assert(segs@[i as int]@ == segments(name@)[i as int]);
            return false;
        }
        assert(segs@[i as int]@ == segments(name@)[i as int]);
        i = i + 1;
    }
    true
}

/// The directory of the refs under the store root `root`.
pub fn dir(root: &str) -> (p: String)
    ensures
        p@ == join_spec(root@, REFS_DIR@),
{
    join(root, REFS_DIR)
}

/// The segments joined onto `base` in turn.
pub open spec fn join_all(base: Seq<char>, segs: Seq<Seq<char>>) -> Seq<char>
    decreases segs.len(),
{
    if segs.len() == 0 {
        base
    } else {
        join_spec(join_all(base, segs.drop_last()), segs.last())
    }
}

/// The file of the ref `name` under the store root `root`, if the name is usable.
pub fn path(root: &str, name: &str) -> (r: Option<String>)
    ensures
        match r {
            Some(p) => name_ok(name@) && p@ == join_all(join_spec(root@, REFS_DIR@), segments(name@)),
            None => !name_ok(name@),
        },
{
    if !valid_name(name) {
        return None;
    }
    let segs = split_slash(name);
    let ghost sv = segments(name@);
    let mut p = dir(root);
    let mut i: usize = 0;
    assert(sv.take(0) =~= Seq::<Seq<char>>::empty());
    while i < segs.len()
        invariant
            i <= segs.len(),
            sv == segments(name@),
            segs@.len() == sv.len(),
            forall|j: int| 0 <= j < segs@.len() ==> (#[trigger] segs@[j])@ == sv[j],
            p@ == join_all(join_spec(root@, REFS_DIR@), sv.take(i as int)),
        decreases segs.len() - i,
    {
        let part = string_of(&segs[i]);
        assert(sv.take(i + 1).drop_last() =~= sv.take(i as int));
        assert(sv.take(i + 1).last() == segs@[i as int]@);
        p = join(p.as_str(), part.as_str());
        i = i + 1;
    }
    assert(sv.take(i as int) =~= sv);
    Some(p)
}

/// Whether `a` sorts at or before `b`, character by character.
pub open spec fn name_le(a: Seq<char>, b: Seq<char>) -> bool
    decreases a.len(),
{
    if a.len() == 0 {
        true
    } else if b.len() == 0 {
        false
    } else if a[0] != b[0] {
        a[0] < b[0]
    } else {
        name_le(a.drop_first(), b.drop_first())
    }
}

/// A listed ref: its name and the hash it points at.
pub type Listed = (Seq<char>, Seq<u8>);

/// `e` placed after every listed ref whose name sorts at or before its own.
pub open spec fn insert_named(e: Listed, t: Seq<Listed>) -> Seq<Listed>
    decreases t.len(),
{
    if t.len() == 0 {
        seq![e]
    } else if name_le(t.last().0, e.0) {
        t.push(e)
    } else {
        insert_named(e, t.drop_last()).push(t.last())
    }
}

/// The stable sort of listed refs by name.
pub open spec fn sort_named(s: Seq<Listed>) -> Seq<Listed>
    decreases s.len(),
{
    if s.len() == 0 {
        Seq::empty()
    } else {
        insert_named(s.last(), sort_named(s.drop_last()))
    }
}

pub open spec fn listed_views(s: Seq<(String, BlobHash)>) -> Seq<Listed> {
    Seq::new(s.len(), |i: int| (s[i].0@, s[i].1@))
}

pub fn chars_le(a: &Vec<char>, b: &Vec<char>) -> (r: bool)
    ensures
        r == name_le(a@, b@),
{
    let mut i: usize = 0;
    assert(a@.skip(0) =~= a@ && b@.skip(0) =~= b@);
    while i < a.len() && i < b.len() && a[i] == b[i]
        invariant
            i <= a.len(),
            i <= b.len(),
            forall|j: int| 0 <= j < i ==> a@[j] == b@[j],
            name_le(a@, b@) == name_le(a@.skip(i as int), b@.skip(i as int)),
        decreases a.len() - i,
    {
        assert(a@.skip(i as int).drop_first() =~= a@.skip(i + 1));
        assert(b@.skip(i as int).drop_first() =~= b@.skip(i + 1));
        i = i + 1;
    }
    if i == a.len() {
        true
    } else if i == b.len() {
        false
    } else {
        a[i] < b[i]
    }
}

proof fn lemma_insert_named_at(e: Listed, t: Seq<Listed>, j: int)
    requires
        0 <= j <= t.len(),
        forall|m: int| j <= m < t.len() ==> !name_le(#[trigger] t[m].0, e.0),
        j == 0 || name_le(t[j - 1].0, e.0),
    ensures
        insert_named(e, t) == t.insert(j, e),
    decreases t.len(),
{
    if t.len() == 0 {
        assert(t.insert(j, e) =~= seq![e]);
    } else if name_le(t.last().0, e.0) {
        assert(j == t.len());
        assert(t.insert(j, e) =~= t.push(e));
    } else {
        let u = t.drop_last();
        lemma_insert_named_at(e, u, j);
        assert(u.insert(j, e).push(t.last()) =~= t.insert(j, e));
    }
}

/// The refs found under the refs directory, sorted by name.
pub fn list(found: Vec<(String, BlobHash)>) -> (out: Vec<(String, BlobHash)>)
    ensures
        listed_views(out@) == sort_named(listed_views(found@)),
{
    let ghost s = listed_views(found@);
    let mut out: Vec<(String, BlobHash)> = Vec::new();
    let mut keys: Vec<Vec<char>> = Vec::new();
    let mut rest = found;
    let ghost all = rest@;
    let n = rest.len();
    let mut i: usize = 0;
    assert(listed_views(out@) =~= sort_named(s.take(0)));
    while i < n
        invariant
            n == all.len(),
            i <= all.len(),
            s == listed_views(all),
            rest@ == all.skip(i as int),
            keys@.len() == out@.len(),
            forall|k: int| 0 <= k < keys@.len() ==> (#[trigger] keys@[k])@ == out@[k].0@,
            listed_views(out@) == sort_named(s.take(i as int)),
        decreases all.len() - i,
    {
        let e = rest.remove(0);
        assert(e == all[i as int]);
        assert(rest@ =~= all.skip(i + 1));
        let ek = chars_of(e.0.as_str());
        let ghost t = listed_views(out@);
        let ghost ev = (e.0@, e.1@);
        assert(ev == s[i as int]);
        let mut j: usize = out.len();
        while j > 0 && !chars_le(&keys[j - 1], &ek)
            invariant
                j <= out@.len(),
                keys@.len() == out@.len(),
                forall|k: int| 0 <= k < keys@.len() ==> (#[trigger] keys@[k])@ == out@[k].0@,
                t == listed_views(out@),
                ek@ == ev.0,
                forall|m: int| j <= m < t.len() ==> !name_le(#[trigger] t[m].0, ev.0),
            decreases j,
        {
            assert(keys@[j - 1]@ == t[j - 1].0);
            j = j - 1;
        }
        proof {
            if j > 0 {
                assert(keys@[j - 1]@ == t[j - 1].0);
            }
            lemma_insert_named_at(ev, t, j as int);
            assert(s.take(i + 1).drop_last() =~= s.take(i as int));
        }
        let ghost kb = keys@;
        let ghost ob = out@;
        out.insert(j, e);
        keys.insert(j, ek);
        assert(listed_views(out@) =~= t.insert(j as int, ev));
        assert forall|k: int| 0 <= k < keys@.len() implies (#[trigger] keys@[k])@ == out@[k].0@ by {
            if k < j {
                assert(keys@[k] == kb[k] && out@[k] == ob[k]);
            } else if k > j {
                assert(keys@[k] == kb[k - 1] && out@[k] == ob[k - 1]);
            }
        }
        i = i + 1;
    }
    assert(s.take(i as int) =~= s);
    out
}

/// The listed refs whose names lie under `head`.
pub open spec fn under(s: Seq<Listed>, head: Seq<char>) -> Seq<Listed>
    decreases s.len(),
{
    if s.len() == 0 {
        Seq::empty()
    } else {
        let r = under(s.drop_last(), head);
        if starts_with(s.last().0, head) {
            r.push(s.last())
        } else {
            r
        }
    }
}

/// The refs of `listed` whose names lie under `prefix/`.
pub fn list_under(listed: Vec<(String, BlobHash)>, prefix: &str) -> (out: Vec<(String, BlobHash)>)
    ensures
        listed_views(out@) == under(listed_views(listed@), prefix@.push('/')),
{
    let mut head = chars_of(prefix);
    head.push('/');
    let ghost s = listed_views(listed@);
    let ghost all = listed@;
    let mut rest = listed;
    let mut out: Vec<(String, BlobHash)> = Vec::new();
    let n = rest.len();
    let mut i: usize = 0;
    assert(listed_views(out@) =~= under(s.take(0), head@));
    while i < n
        invariant
            n == all.len(),
            i <= all.len(),
            s == listed_views(all),
            head@ == prefix@.push('/'),
            rest@ == all.skip(i as int),
            listed_views(out@) == under(s.take(i as int), head@),
        decreases all.len() - i,
    {
        let e = rest.remove(0);
        assert(e == all[i as int]);
        assert(rest@ =~= all.skip(i + 1));
        assert(s.take(i + 1).drop_last() =~= s.take(i as int));
        assert(s.take(i + 1).last() == (e.0@, e.1@));
        let name = chars_of(e.0.as_str());
        if has_prefix(&name, &head) {
            let ghost before = listed_views(out@);
            out.push(e);
            assert(listed_views(out@) =~= before.push((e.0@, e.1@)));
        }
        i = i + 1;
    }
    assert(s.take(i as int) =~= s);
    out
}

} // verus!
