//! Local trust: the level this store assigns to each group it knows.
use vstd::prelude::*;
use crate::canonical::{lex_le, bytes_le, lemma_lex_total, lemma_lex_trans, lemma_lex_antisym};
use crate::identity::lemma_dgid_eq;
use crate::identity::Dgid;
use crate::store::same_bytes;
use crate::identity::parse_dgid;
use crate::text::{chars_of, string_of, trimmed, is_space, append};
use crate::lex::{split_on, split_text};
use crate::path::{join, join_spec};

verus! {

/// How far a group is trusted, from not at all up to one's own devices.
#[derive(Debug, Clone, Copy, PartialEq, Eq, PartialOrd, Ord, Structural)]
pub enum TrustLevel {
    Unknown,
    Contact,
    Cache,
    Mesh,
}

/// The position of a level in the order Unknown < Contact < Cache < Mesh.
pub open spec fn rank(level: TrustLevel) -> int {
    match level {
        TrustLevel::Unknown => 0,
        TrustLevel::Contact => 1,
        TrustLevel::Cache => 2,
        TrustLevel::Mesh => 3,
    }
}

pub open spec fn label_of(level: TrustLevel) -> Seq<char> {
    match level {
        TrustLevel::Unknown => seq!['u', 'n', 'k', 'n', 'o', 'w', 'n'],
        TrustLevel::Contact => seq!['c', 'o', 'n', 't', 'a', 'c', 't'],
        TrustLevel::Cache => seq!['c', 'a', 'c', 'h', 'e'],
        TrustLevel::Mesh => seq!['m', 'e', 's', 'h'],
    }
}

/// The level named by `text` once trimmed.
pub open spec fn parse_level(text: Seq<char>) -> Option<TrustLevel> {
    exact_level(crate::text::trimmed(text))
}

/// The level whose label is exactly `t`.
pub open spec fn exact_level(t: Seq<char>) -> Option<TrustLevel> {
    if t == label_of(TrustLevel::Unknown) {
        Some(TrustLevel::Unknown)
    } else if t == label_of(TrustLevel::Contact) {
        Some(TrustLevel::Contact)
    } else if t == label_of(TrustLevel::Cache) {
        Some(TrustLevel::Cache)
    } else if t == label_of(TrustLevel::Mesh) {
        Some(TrustLevel::Mesh)
    } else {
        None
    }
}

impl TrustLevel {
    pub fn rank(&self) -> (r: u8)
        ensures
            r as int == rank(*self),
    {
        match self {
            TrustLevel::Unknown => 0,
            TrustLevel::Contact => 1,
            TrustLevel::Cache => 2,
            TrustLevel::Mesh => 3,
        }
    }

    /// Whether this level is at least `other`.
    pub fn at_least(&self, other: TrustLevel) -> (r: bool)
        ensures
            r == (rank(*self) >= rank(other)),
    {
        self.rank() >= other.rank()
    }

    pub fn label(&self) -> (s: String)
        ensures
            s@ == label_of(*self),
    {
        let v = self.label_chars();
        crate::text::string_of(&v)
    }

    pub fn label_chars(&self) -> (v: Vec<char>)
        ensures
            v@ == label_of(*self),
    {
        let v = match self {
            TrustLevel::Unknown => vec!['u', 'n', 'k', 'n', 'o', 'w', 'n'],
            TrustLevel::Contact => vec!['c', 'o', 'n', 't', 'a', 'c', 't'],
            TrustLevel::Cache => vec!['c', 'a', 'c', 'h', 'e'],
            TrustLevel::Mesh => vec!['m', 'e', 's', 'h'],
        };
        assert(v@ =~= label_of(*self));
        v
    }

    pub fn parse(text: &str) -> (r: Option<Self>)
        ensures
            r == parse_level(text@),
    {
        let t = crate::text::trim_str(text);
        Self::parse_chars(&t)
    }

    /// The level whose label is exactly `t`.
    pub fn parse_chars(t: &Vec<char>) -> (r: Option<Self>)
        ensures
            r == exact_level(t@),
    {
        if crate::text::same_chars(t, &TrustLevel::Unknown.label_chars()) {
            Some(TrustLevel::Unknown)
        } else if crate::text::same_chars(t, &TrustLevel::Contact.label_chars()) {
            Some(TrustLevel::Contact)
        } else if crate::text::same_chars(t, &TrustLevel::Cache.label_chars()) {
            Some(TrustLevel::Cache)
        } else if crate::text::same_chars(t, &TrustLevel::Mesh.label_chars()) {
            Some(TrustLevel::Mesh)
        } else {
            None
        }
    }
}


/// Byte strings in strict lexicographic order.
pub open spec fn lex_lt(a: Seq<u8>, b: Seq<u8>) -> bool {
    lex_le(a, b) && a != b
}

/// Entries whose groups strictly increase, as a `BTreeMap` holds them.
pub open spec fn strictly_sorted(s: Seq<(Dgid, TrustLevel)>) -> bool {
    forall|i: int, j: int| 0 <= i < j < s.len() ==> lex_lt(#[trigger] s[i].0@, #[trigger] s[j].0@)
}

/// The level stored for the group with bytes `k`.
pub open spec fn lookup(s: Seq<(Dgid, TrustLevel)>, k: Seq<u8>) -> Option<TrustLevel>
    decreases s.len(),
{
    if s.len() == 0 {
        None
    } else if s[0].0@ == k {
        Some(s[0].1)
    } else {
        lookup(s.drop_first(), k)
    }
}

pub open spec fn distinct(s: Seq<(Dgid, TrustLevel)>) -> bool {
    forall|i: int, j: int| 0 <= i < j < s.len() ==> #[trigger] s[i].0@ != #[trigger] s[j].0@
}

pub proof fn lemma_lookup_hit(s: Seq<(Dgid, TrustLevel)>, i: int)
    requires
        distinct(s),
        0 <= i < s.len(),
    ensures
        lookup(s, s[i].0@) == Some(s[i].1),
    decreases s.len(),
{
    if i > 0 {
        let t = s.drop_first();
        assert(s[0].0@ != s[i].0@);
        assert forall|a: int, b: int| 0 <= a < b < t.len() implies #[trigger] t[a].0@ != #[trigger] t[b].0@ by {
            assert(t[a] == s[a + 1] && t[b] == s[b + 1]);
        }
        lemma_lookup_hit(t, i - 1);
    }
}

pub proof fn lemma_lookup_miss(s: Seq<(Dgid, TrustLevel)>, k: Seq<u8>)
    requires
        forall|i: int| 0 <= i < s.len() ==> #[trigger] s[i].0@ != k,
    ensures
        lookup(s, k) is None,
    decreases s.len(),
{
    if s.len() > 0 {
        let t = s.drop_first();
        assert forall|i: int| 0 <= i < t.len() implies #[trigger] t[i].0@ != k by {
            assert(t[i] == s[i + 1]);
        }
        lemma_lookup_miss(t, k);
    }
}

/// What `lookup` gives is decided by where the key stands among distinct keys.
pub proof fn lemma_lookup(s: Seq<(Dgid, TrustLevel)>, k: Seq<u8>)
    requires
        distinct(s),
    ensures
        (exists|i: int| 0 <= i < s.len() && #[trigger] s[i].0@ == k) ==> lookup(s, k) == Some(
            s[choose|i: int| 0 <= i < s.len() && #[trigger] s[i].0@ == k].1,
        ),
        (forall|i: int| 0 <= i < s.len() ==> #[trigger] s[i].0@ != k) ==> lookup(s, k) is None,
{
    if exists|i: int| 0 <= i < s.len() && #[trigger] s[i].0@ == k {
        let i = choose|i: int| 0 <= i < s.len() && #[trigger] s[i].0@ == k;
        lemma_lookup_hit(s, i);
    } else {
        lemma_lookup_miss(s, k);
    }
}

pub proof fn lemma_sorted_distinct(s: Seq<(Dgid, TrustLevel)>)
    requires
        strictly_sorted(s),
    ensures
        distinct(s),
{
    assert forall|i: int, j: int| 0 <= i < j < s.len() implies #[trigger] s[i].0@ != #[trigger] s[j].0@ by {
        assert(lex_lt(s[i].0@, s[j].0@));
    }
}

/// The trust this store places in groups: its own group at `Mesh`, others as set.
#[derive(Debug)]
pub struct Trust {
    own: Option<Dgid>,
    levels: Vec<(Dgid, TrustLevel)>,
}

impl Default for Trust {
    fn default() -> (t: Self)
        ensures
            t.own_group() is None,
            t.table().len() == 0,
    {
        Trust::new()
    }
}

impl Trust {
    #[verifier::type_invariant]
    closed spec fn wf(&self) -> bool {
        strictly_sorted(self.levels@)
    }

    /// The store's own group.
    pub closed spec fn own_group(&self) -> Option<Dgid> {
        self.own
    }

    /// The stored entries, in increasing order of group.
    pub closed spec fn table(&self) -> Seq<(Dgid, TrustLevel)> {
        self.levels@
    }

    /// The level stored for the group with bytes `k`.
    pub open spec fn stored(&self, k: Seq<u8>) -> Option<TrustLevel> {
        lookup(self.table(), k)
    }

    /// The level this store gives the group with bytes `k`.
    pub open spec fn level_of(&self, k: Seq<u8>) -> TrustLevel {
        if self.own_group() matches Some(o) && o@ == k {
            TrustLevel::Mesh
        } else {
            match self.stored(k) {
                Some(l) => l,
                None => TrustLevel::Unknown,
            }
        }
    }


    pub fn new() -> (t: Self)
        ensures
            t.own_group() is None,
            t.table().len() == 0,
    {
        Trust { own: None, levels: Vec::new() }
    }

    pub fn with_own(self, dgid: Dgid) -> (t: Self)
        ensures
            t.own_group() == Some(dgid),
            t.table() == self.table(),
    {
        proof {
            use_type_invariant(&self);
        }
        Trust { own: Some(dgid), levels: self.levels }
    }

    pub fn set_own(&mut self, dgid: Dgid)
        ensures
            final(self).own_group() == Some(dgid),
            final(self).table() == old(self).table(),
    {
        proof {
            use_type_invariant(&*self);
        }
        self.own = Some(dgid);
    }

    pub fn own(&self) -> (r: Option<Dgid>)
        ensures
            r == self.own_group(),
    {
        self.own
    }

    /// The stored entries in increasing order of group.
    pub fn entries(&self) -> (v: Vec<(Dgid, TrustLevel)>)
        ensures
            v@ == self.table(),
    {
        let mut v: Vec<(Dgid, TrustLevel)> = Vec::new();
        let mut i: usize = 0;
        while i < self.levels.len()
            invariant
                i <= self.levels.len(),
                v@ == self.levels@.take(i as int),
            decreases self.levels.len() - i,
        {
            v.push(self.levels[i]);
            i = i + 1;
            assert(v@ =~= self.levels@.take(i as int));
        }
        assert(self.levels@.take(i as int) =~= self.levels@);
        v
    }

    /// The position of the first entry whose group is not before `dgid`.
    fn position(&self, dgid: &Dgid) -> (j: usize)
        requires
            strictly_sorted(self.table()),
        ensures
            j <= self.table().len(),
            forall|m: int| 0 <= m < j ==> lex_lt(#[trigger] self.table()[m].0@, dgid@),
            j < self.table().len() ==> lex_le(dgid@, self.table()[j as int].0@),
    {
        let mut j: usize = 0;
        while j < self.levels.len() && bytes_le(self.levels[j].0.as_bytes(), dgid.as_bytes())
            && !same_bytes(self.levels[j].0.as_bytes(), dgid.as_bytes())
            invariant
                j <= self.levels.len(),
                forall|m: int| 0 <= m < j ==> lex_lt(#[trigger] self.levels@[m].0@, dgid@),
            decreases self.levels.len() - j,
        {
            j = j + 1;
        }
        if j < self.levels.len() {
            proof {
                lemma_lex_total(dgid@, self.levels@[j as int].0@);
            }
        }
        j
    }

    /// The level stored for `dgid`, if any.
    pub fn stored_level(&self, dgid: Dgid) -> (r: Option<TrustLevel>)
        ensures
            r == self.stored(dgid@),
    {
        proof {
            use_type_invariant(self);
            lemma_sorted_distinct(self.table());
        }
        let j = self.position(&dgid);
        if j < self.levels.len() && self.levels[j].0 == dgid {
            proof {
                lemma_lookup_hit(self.table(), j as int);
            }
            Some(self.levels[j].1)
        } else {
            proof {
                assert forall|i: int| 0 <= i < self.table().len() implies #[trigger] self.table()[i].0@
                    != dgid@ by {
                    if i > j {
                        assert(lex_lt(self.table()[j as int].0@, self.table()[i].0@));
                        if self.table()[i].0@ == dgid@ {
                            lemma_lex_antisym(dgid@, self.table()[j as int].0@);
                        }
                    }
                }
                lemma_lookup_miss(self.table(), dgid@);
            }
            None
        }
    }

    /// The level this store gives `dgid`: `Mesh` for its own group, else the stored level.
    pub fn level(&self, dgid: Dgid) -> (l: TrustLevel)
        ensures
            l == self.level_of(dgid@),
    {
        if let Some(own) = self.own {
            if own == dgid {
                return TrustLevel::Mesh;
            }
        }
        match self.stored_level(dgid) {
            Some(l) => l,
            None => TrustLevel::Unknown,
        }
    }

    /// Whether `dgid` is trusted at `at_least` or above.
    pub fn trusts(&self, dgid: Dgid, at_least: TrustLevel) -> (r: bool)
        ensures
            r == (rank(self.level_of(dgid@)) >= rank(at_least)),
    {
        self.level(dgid).at_least(at_least)
    }

    /// Stores `level` for `dgid`; storing `Unknown` forgets the group.
    pub fn set(&mut self, dgid: Dgid, level: TrustLevel)
        ensures
            final(self).own_group() == old(self).own_group(),
            final(self).stored(dgid@) == (if level == TrustLevel::Unknown {
                None
            } else {
                Some(level)
            }),
            forall|k: Seq<u8>| k != dgid@ ==> #[trigger] final(self).stored(k) == old(self).stored(k),
    {
        self.put(dgid, level, level == TrustLevel::Unknown);
    }

    /// Stores `level` for `dgid` as a loaded trust file does: every level is kept.
    pub fn insert(&mut self, dgid: Dgid, level: TrustLevel)
        ensures
            final(self).own_group() == old(self).own_group(),
            final(self).stored(dgid@) == Some(level),
            forall|k: Seq<u8>| k != dgid@ ==> #[trigger] final(self).stored(k) == old(self).stored(k),
    {
        self.put(dgid, level, false);
    }

    fn put(&mut self, dgid: Dgid, level: TrustLevel, forget: bool)
        ensures
            final(self).own_group() == old(self).own_group(),
            final(self).stored(dgid@) == (if forget {
                None
            } else {
                Some(level)
            }),
            forall|k: Seq<u8>| k != dgid@ ==> #[trigger] final(self).stored(k) == old(self).stored(k),
    {
        proof {
            use_type_invariant(&*self);
            lemma_sorted_distinct(self.table());
        }
        let ghost s = self.table();
        let j = self.position(&dgid);
        let mut levels: Vec<(Dgid, TrustLevel)> = Vec::new();
        std::mem::swap(&mut levels, &mut self.levels);
        assert(levels@ == s);
        let hit = j < levels.len() && levels[j].0 == dgid;
        if hit {
            if forget {
                levels.remove(j);
            } else {
                levels.set(j, (dgid, level));
            }
        } else if !forget {
            levels.insert(j, (dgid, level));
        }
        let ghost t = levels@;
        proof {
            assert forall|a: int, b: int| 0 <= a < b < t.len() implies lex_lt(
                #[trigger] t[a].0@,
                #[trigger] t[b].0@,
            ) by {
                Self::lemma_step_sorted(s, j as int, dgid, hit, forget, level, t, a, b);
            }
        }
        self.levels = levels;
        proof {
            lemma_sorted_distinct(t);
            assert forall|k: Seq<u8>| true implies #[trigger] lookup(t, k) == (if k == dgid@ {
                if forget {
                    None
                } else {
                    Some(level)
                }
            } else {
                lookup(s, k)
            }) by {
                Self::lemma_step_lookup(s, j as int, dgid, hit, forget, level, t, k);
            }
        }
    }

    proof fn lemma_step_sorted(
        s: Seq<(Dgid, TrustLevel)>,
        j: int,
        dgid: Dgid,
        hit: bool,
        forget: bool,
        level: TrustLevel,
        t: Seq<(Dgid, TrustLevel)>,
        a: int,
        b: int,
    )
        requires
            strictly_sorted(s),
            0 <= j <= s.len(),
            forall|m: int| 0 <= m < j ==> lex_lt(#[trigger] s[m].0@, dgid@),
            j < s.len() ==> lex_le(dgid@, s[j].0@),
            hit == (j < s.len() && s[j].0@ == dgid@),
            t == (if hit {
                if forget {
                    s.remove(j)
                } else {
                    s.update(j, (dgid, level))
                }
            } else if !forget {
                s.insert(j, (dgid, level))
            } else {
                s
            }),
            0 <= a < b < t.len(),
        ensures
            lex_lt(t[a].0@, t[b].0@),
    {
        if !hit && !forget {
            // the new entry sits between the entries before and after position j
            if a < j && b > j {
                assert(lex_lt(s[a].0@, dgid@));
                assert(t[b] == s[b - 1]);
                if j < s.len() {
                    assert(lex_le(dgid@, s[j].0@));
                    assert(dgid@ != s[j].0@);
                    if b - 1 > j {
                        assert(lex_lt(s[j].0@, s[b - 1].0@));
                        lemma_lex_trans(dgid@, s[j].0@, s[b - 1].0@);
                        if dgid@ == s[b - 1].0@ {
                            lemma_lex_antisym(dgid@, s[j].0@);
                        }
                    }
                }
                lemma_lex_trans(s[a].0@, dgid@, t[b].0@);
                if s[a].0@ == t[b].0@ {
                    lemma_lex_antisym(s[a].0@, dgid@);
                }
            } else if a == j {
                assert(t[b] == s[b - 1]);
                assert(lex_le(dgid@, s[j].0@));
                assert(dgid@ != s[j].0@);
                if b - 1 > j {
                    assert(lex_lt(s[j].0@, s[b - 1].0@));
                    lemma_lex_trans(dgid@, s[j].0@, s[b - 1].0@);
                    if dgid@ == s[b - 1].0@ {
                        lemma_lex_antisym(dgid@, s[j].0@);
                    }
                }
            } else if b == j {
                assert(lex_lt(s[a].0@, dgid@));
            } else if a > j {
                assert(t[a] == s[a - 1] && t[b] == s[b - 1]);
            }
        } else if hit && forget {
            let a2 = if a < j { a } else { a + 1 };
            let b2 = if b < j { b } else { b + 1 };
            assert(t[a] == s[a2] && t[b] == s[b2]);
        } else if hit {
            if a == j {
                assert(t[a].0@ == s[a].0@);
            }
            if b == j {
                assert(t[b].0@ == s[b].0@);
            }
        }
    }

    proof fn lemma_step_lookup(
        s: Seq<(Dgid, TrustLevel)>,
        j: int,
        dgid: Dgid,
        hit: bool,
        forget: bool,
        level: TrustLevel,
        t: Seq<(Dgid, TrustLevel)>,
        k: Seq<u8>,
    )
        requires
            strictly_sorted(s),
            strictly_sorted(t),
            distinct(s),
            distinct(t),
            0 <= j <= s.len(),
            forall|m: int| 0 <= m < j ==> lex_lt(#[trigger] s[m].0@, dgid@),
            j < s.len() ==> lex_le(dgid@, s[j].0@),
            hit == (j < s.len() && s[j].0@ == dgid@),
            t == (if hit {
                if forget {
                    s.remove(j)
                } else {
                    s.update(j, (dgid, level))
                }
            } else if !forget {
                s.insert(j, (dgid, level))
            } else {
                s
            }),
        ensures
            lookup(t, k) == (if k == dgid@ {
                if forget {
                    None
                } else {
                    Some(level)
                }
            } else {
                lookup(s, k)
            }),
    {
        // where `dgid` is absent from `s`, no entry of `s` holds it
        if !hit {
            assert forall|i: int| 0 <= i < s.len() implies #[trigger] s[i].0@ != dgid@ by {
                if i >= j && j < s.len() {
                    if i > j {
                        assert(lex_lt(s[j].0@, s[i].0@));
                        if s[i].0@ == dgid@ {
                            lemma_lex_antisym(dgid@, s[j].0@);
                        }
                    }
                }
            }
        }
        if exists|i: int| 0 <= i < s.len() && #[trigger] s[i].0@ == k {
            let i = choose|i: int| 0 <= i < s.len() && #[trigger] s[i].0@ == k;
            lemma_lookup_hit(s, i);
            if k == dgid@ {
                assert(hit && i == j);
                if forget {
                    assert forall|m: int| 0 <= m < t.len() implies #[trigger] t[m].0@ != k by {
                        let m2 = if m < j { m } else { m + 1 };
                        assert(t[m] == s[m2]);
                    }
                    lemma_lookup_miss(t, k);
                } else {
                    lemma_lookup_hit(t, j);
                }
            } else {
                let i2 = if hit {
                    if forget {
                        if i < j { i } else { i - 1 }
                    } else {
                        i
                    }
                } else if !forget {
                    if i < j { i } else { i + 1 }
                } else {
                    i
                };
                assert(t[i2] == s[i]);
                lemma_lookup_hit(t, i2);
            }
        } else {
            lemma_lookup_miss(s, k);
            if k == dgid@ {
                if !forget {
                    lemma_lookup_hit(t, j);
                } else {
                    assert forall|m: int| 0 <= m < t.len() implies #[trigger] t[m].0@ != k by {
                        assert(t[m] == s[m]);
                    }
                    lemma_lookup_miss(t, k);
                }
            } else {
                assert forall|m: int| 0 <= m < t.len() implies #[trigger] t[m].0@ != k by {
                    if hit && forget {
                        let m2 = if m < j { m } else { m + 1 };
                        assert(t[m] == s[m2]);
                    } else if hit {
                        if m != j {
                            assert(t[m] == s[m]);
                        }
                    } else if !forget {
                        if m < j {
                            assert(t[m] == s[m]);
                        } else if m > j {
                            assert(t[m] == s[m - 1]);
                        }
                    }
                }
                lemma_lookup_miss(t, k);
            }
        }
    }
}


pub const TRUST_FILE: &'static str = "trust";

/// The position of the first white-space character of `t`.
pub open spec fn first_space(t: Seq<char>) -> Option<int>
    decreases t.len(),
{
    if t.len() == 0 {
        None
    } else if is_space(t[0]) {
        Some(0)
    } else {
        match first_space(t.drop_first()) {
            Some(i) => Some(i + 1),
            None => None,
        }
    }
}

proof fn lemma_first_space(t: Seq<char>, i: int)
    requires
        0 <= i <= t.len(),
        forall|j: int| 0 <= j < i ==> !is_space(#[trigger] t[j]),
    ensures
        i < t.len() && is_space(t[i]) ==> first_space(t) == Some(i),
        i == t.len() ==> first_space(t) is None,
    decreases i,
{
    if i > 0 {
        assert forall|j: int| 0 <= j < i - 1 implies !is_space(#[trigger] t.drop_first()[j]) by {
            assert(t.drop_first()[j] == t[j + 1]);
        }
        lemma_first_space(t.drop_first(), i - 1);
    }
}

/// What one line of a trust file says: after trimming, a group and a level
/// separated by the first white space; blank lines, `#` comments and lines
/// that do not read say nothing.
pub open spec fn line_entry(line: Seq<char>) -> Option<(Seq<u8>, TrustLevel)> {
    let t = trimmed(line);
    if t.len() == 0 || t[0] == '#' {
        None
    } else {
        match first_space(t) {
            None => None,
            Some(i) => match (parse_dgid(t.take(i)), parse_level(t.skip(i + 1))) {
                (Some(d), Some(l)) => Some((d, l)),
                _ => None,
            },
        }
    }
}

/// The level the lines of a trust file give the group `k`: the last line
/// that names it.
pub open spec fn loaded_level(lines: Seq<Seq<char>>, k: Seq<u8>) -> Option<TrustLevel>
    decreases lines.len(),
{
    if lines.len() == 0 {
        None
    } else {
        match line_entry(lines.last()) {
            Some((d, l)) => if d == k {
                Some(l)
            } else {
                loaded_level(lines.drop_last(), k)
            },
            None => loaded_level(lines.drop_last(), k),
        }
    }
}

pub open spec fn newline() -> Seq<char> {
    seq!['\n']
}

/// The text of a trust file: one `group level` line per entry, in order.
pub open spec fn trust_text(s: Seq<(Dgid, TrustLevel)>) -> Seq<char>
    decreases s.len(),
{
    if s.len() == 0 {
        Seq::empty()
    } else {
        crate::identity::dgid_prefix() + crate::hex::hex_of(s[0].0@) + seq![' '] + label_of(s[0].1)
            + newline() + trust_text(s.drop_first())
    }
}

/// What one line of a trust file says.
pub fn read_line(line: &Vec<char>) -> (r: Option<(Dgid, TrustLevel)>)
    ensures
        match r {
            Some((d, l)) => line_entry(line@) == Some((d@, l)),
            None => line_entry(line@) is None,
        },
{
    let t = crate::text::trim_chars(line);
    if t.len() == 0 || t[0] == '#' {
        return None;
    }
    let mut i: usize = 0;
    while i < t.len() && !crate::text::space(t[i])
        invariant
            i <= t.len(),
            forall|j: int| 0 <= j < i ==> !is_space(#[trigger] t@[j]),
        decreases t.len() - i,
    {
        i = i + 1;
    }
    proof {
        lemma_first_space(t@, i as int);
    }
    if i == t.len() {
        return None;
    }
    let head = string_of(&crate::text::slice(&t, 0, i));
    let rest = string_of(&crate::text::tail(&t, i + 1));
    assert(head@ =~= t@.take(i as int));
    match (Dgid::parse(head.as_str()), TrustLevel::parse(rest.as_str())) {
        (Some(d), Some(l)) => Some((d, l)),
        _ => None,
    }
}

impl Trust {
    /// The trust file of the store at `dir`.
    pub fn path(dir: &str) -> (p: String)
        ensures
            p@ == join_spec(dir@, TRUST_FILE@),
    {
        join(dir, TRUST_FILE)
    }

    /// The trust a trust file's text sets: every line that reads, the last
    /// line for a group winning. No group of its own is set.
    #[verifier::rlimit(40)]
    pub fn from_text(text: &str) -> (t: Self)
        ensures
            t.own_group() is None,
            forall|k: Seq<u8>| #[trigger] t.stored(k) == loaded_level(split_on(text@, newline()), k),
    {
        let nl = vec!['\n'];
        assert(nl@ =~= newline());
        let lines = split_text(&chars_of(text), &nl);
        let ghost all = split_on(text@, newline());
        let mut trust = Trust::new();
        let mut i: usize = 0;
        proof {
            assert(all.take(0) =~= Seq::<Seq<char>>::empty());
            assert forall|k: Seq<u8>| #[trigger] trust.stored(k) == loaded_level(all.take(0), k) by {
                assert(trust.table().len() == 0);
            }
        }
        while i < lines.len()
            invariant
                i <= lines.len(),
                lines@.len() == all.len(),
                forall|j: int| 0 <= j < lines@.len() ==> (#[trigger] lines@[j])@ == all[j],
                trust.own_group() is None,
                forall|k: Seq<u8>| #[trigger] trust.stored(k) == loaded_level(all.take(i as int), k),
            decreases lines.len() - i,
        {
            let ghost before = trust;
            proof {
                assert(all.take(i + 1).drop_last() =~= all.take(i as int));
                assert(all.take(i + 1).last() == all[i as int]);
            }
            match read_line(&lines[i]) {
                Some((d, l)) => {
                    trust.insert(d, l);
                },
                None => {},
            }
            i = i + 1;
        }
        proof {
            assert(all.take(lines.len() as int) =~= all);
        }
        trust
    }

    /// The text the trust file holds: one `group level` line per stored
    /// entry, in order of group.
    pub fn to_text(&self) -> (s: String)
        ensures
            s@ == trust_text(self.table()),
    {
        let mut v: Vec<char> = Vec::new();
        let mut i: usize = self.levels.len();
        assert(self.levels@.skip(i as int) =~= Seq::<(Dgid, TrustLevel)>::empty());
        while i > 0
            invariant
                i <= self.levels.len(),
                v@ == trust_text(self.levels@.skip(i as int)),
            decreases i,
        {
            i = i - 1;
            let (d, l) = self.levels[i];
            let mut line = chars_of(d.to_string().as_str());
            line.push(' ');
            append(&mut line, &l.label_chars());
            line.push('\n');
            append(&mut line, &v);
            proof {
                assert(self.levels@.skip(i as int).drop_first() =~= self.levels@.skip(i + 1));
                assert(line@ =~= trust_text(self.levels@.skip(i as int)));
            }
            v = line;
        }
        assert(self.levels@.skip(0) =~= self.levels@);
        string_of(&v)
    }
}


/// One line of a trust file, without its newline.
pub open spec fn entry_line(e: (Dgid, TrustLevel)) -> Seq<char> {
    crate::identity::dgid_prefix() + crate::hex::hex_of(e.0@) + seq![' '] + label_of(e.1)
}

proof fn lemma_split_line(l: Seq<char>, r: Seq<char>)
    requires
        forall|j: int| 0 <= j < l.len() ==> #[trigger] l[j] != '\n',
    ensures
        split_on(l + newline() + r, newline()) == seq![l] + split_on(r, newline()),
{
    let s = l + newline() + r;
    let n = newline();
    crate::lex::lemma_first_run(s, n);
    assert(s.subrange(l.len() as int, l.len() as int + 1) =~= n);
    match crate::lex::first_run(s, n) {
        Some(i) => {
            if i < l.len() {
                assert(s.subrange(i, i + 1)[0] == s[i]);
                assert(s[i] == l[i]);
            }
            assert(i == l.len());
            assert(s.take(i) =~= l);
            assert(s.skip(i + 1) =~= r);
        },
        None => {},
    }
}

proof fn lemma_line_plain(e: (Dgid, TrustLevel))
    ensures
        forall|j: int| 0 <= j < entry_line(e).len() ==> #[trigger] entry_line(e)[j] != '\n',
        line_entry(entry_line(e)) == Some((e.0@, e.1)),
{
    crate::identity::lemma_dgid_len(e.0);
    let h = crate::hex::hex_of(e.0@);
    let p = crate::identity::dgid_prefix();
    let t = entry_line(e);
    crate::address::lemma_hex_chars(e.0@);
    assert(h.len() == 64);
    assert forall|j: int| 0 <= j < t.len() implies #[trigger] t[j] != '\n' by {
        if 5 <= j < 69 {
            assert(t[j] == h[j - 5]);
        }
    }
    assert forall|j: int| 0 <= j < 69 implies !is_space(#[trigger] t[j]) by {
        if 5 <= j {
            assert(t[j] == h[j - 5]);
            assert(crate::hex::is_hex_digit(h[j - 5]));
        }
    }
    assert(t[69] == ' ');
    assert(t.last() == label_of(e.1).last());
    crate::text::lemma_trimmed_plain(t);
    lemma_first_space(t, 69);
    assert(t.take(69) =~= p + h);
    crate::identity::lemma_dgid_round_trip(e.0@);
    let lab = label_of(e.1);
    assert(t.skip(70) =~= lab);
    crate::text::lemma_trimmed_plain(lab);
    assert(exact_level(lab) == Some(e.1));
}

/// The lines of a trust file, without their newlines.
pub open spec fn entry_lines(s: Seq<(Dgid, TrustLevel)>) -> Seq<Seq<char>> {
    Seq::new(s.len(), |i: int| entry_line(s[i]))
}

#[verifier::spinoff_prover]
#[verifier::rlimit(50)]
proof fn lemma_split_text(s: Seq<(Dgid, TrustLevel)>)
    ensures
        split_on(trust_text(s), newline()) == entry_lines(s) + seq![Seq::<char>::empty()],
    decreases s.len(),
{
    if s.len() == 0 {
        crate::lex::lemma_first_run(Seq::<char>::empty(), newline());
        assert(entry_lines(s) + seq![Seq::<char>::empty()] =~= seq![Seq::<char>::empty()]);
    } else {
        let a = entry_line(s[0]);
        let rest = trust_text(s.drop_first());
        lemma_line_plain(s[0]);
        lemma_split_text(s.drop_first());
        assert(trust_text(s) =~= a + newline() + rest);
        lemma_split_line(a, rest);
        assert(entry_lines(s) =~= seq![a] + entry_lines(s.drop_first()));
        assert(seq![a] + (entry_lines(s.drop_first()) + seq![Seq::<char>::empty()]) =~= entry_lines(s)
            + seq![Seq::<char>::empty()]);
    }
}

proof fn lemma_lookup_drop_last(s: Seq<(Dgid, TrustLevel)>, k: Seq<u8>)
    requires
        s.len() > 0,
        s.last().0@ != k,
    ensures
        lookup(s, k) == lookup(s.drop_last(), k),
    decreases s.len(),
{
    if s.len() > 1 {
        assert(s.drop_first().drop_last() =~= s.drop_last().drop_first());
        assert(s.drop_last()[0] == s[0]);
        assert(s.drop_first().last() == s.last());
        lemma_lookup_drop_last(s.drop_first(), k);
        assert(lookup(s.drop_last(), k) == if s[0].0@ == k {
            Some(s[0].1)
        } else {
            lookup(s.drop_last().drop_first(), k)
        });
    } else {
        assert(s[0] == s.last());
        assert(s.drop_first().len() == 0);
        assert(s.drop_last().len() == 0);
        assert(lookup(s.drop_first(), k) is None);
        assert(lookup(s.drop_last(), k) is None);
    }
}

proof fn lemma_loaded_lookup(s: Seq<(Dgid, TrustLevel)>, k: Seq<u8>)
    requires
        distinct(s),
    ensures
        loaded_level(entry_lines(s), k) == lookup(s, k),
    decreases s.len(),
{
    if s.len() > 0 {
        let e = s.last();
        lemma_line_plain(e);
        assert(entry_lines(s).last() == entry_line(e));
        assert(entry_lines(s).drop_last() =~= entry_lines(s.drop_last()));
        if e.0@ == k {
            lemma_lookup_hit(s, s.len() - 1);
        } else {
            lemma_lookup_drop_last(s, k);
            let t = s.drop_last();
            assert forall|i: int, j: int| 0 <= i < j < t.len() implies #[trigger] t[i].0@ != #[trigger] t[j].0@ by {
                assert(t[i] == s[i] && t[j] == s[j]);
            }
            lemma_loaded_lookup(t, k);
        }
    }
}

/// Saving trust and loading the saved text gives every group the level it
/// had: `from_text(to_text(t))` stores what `t` stores.
pub proof fn law_trust_text_round_trip(t: Trust)
    requires
        strictly_sorted(t.table()),
    ensures
        forall|k: Seq<u8>| loaded_level(split_on(trust_text(t.table()), newline()), k) == t.stored(k),
{
    let s = t.table();
    lemma_sorted_distinct(s);
    lemma_split_text(s);
    assert forall|k: Seq<u8>| loaded_level(split_on(trust_text(s), newline()), k) == t.stored(k) by {
        let ls = entry_lines(s) + seq![Seq::<char>::empty()];
        assert(ls.drop_last() =~= entry_lines(s));
        assert(trimmed(Seq::<char>::empty()).len() == 0) by {
            assert(Seq::<char>::empty().len() == 0);
        }
        lemma_loaded_lookup(s, k);
    }
}

/// A level's label, with or without white space around it, reads back as
/// the level; a text whose trimmed form is no label reads as no level.
pub proof fn law_level_label_round_trip(level: TrustLevel, before: Seq<char>, after: Seq<char>, text: Seq<char>)
    requires
        forall|i: int| 0 <= i < before.len() ==> crate::text::is_space(#[trigger] before[i]),
        forall|i: int| 0 <= i < after.len() ==> crate::text::is_space(#[trigger] after[i]),
    ensures
        parse_level(label_of(level)) == Some(level),
        parse_level(before + label_of(level) + after) == Some(level),
        (forall|l: TrustLevel| trimmed(text) != label_of(l)) ==> parse_level(text) is None,
{
    let t = label_of(level);
    assert(!crate::text::is_space(t[0]));
    assert(!crate::text::is_space(t.last()));
    crate::text::lemma_trimmed_plain(t);
    crate::text::lemma_trimmed_padded(before, t, after);
    assert(label_of(TrustLevel::Unknown) != label_of(TrustLevel::Contact));
    assert(label_of(TrustLevel::Unknown) != label_of(TrustLevel::Cache));
    assert(label_of(TrustLevel::Unknown) != label_of(TrustLevel::Mesh));
    assert(label_of(TrustLevel::Contact) != label_of(TrustLevel::Cache));
    assert(label_of(TrustLevel::Contact) != label_of(TrustLevel::Mesh));
    assert(label_of(TrustLevel::Cache) != label_of(TrustLevel::Mesh));
    if (forall|l: TrustLevel| trimmed(text) != label_of(l)) {
        assert(trimmed(text) != label_of(TrustLevel::Unknown));
        assert(trimmed(text) != label_of(TrustLevel::Contact));
        assert(trimmed(text) != label_of(TrustLevel::Cache));
        assert(trimmed(text) != label_of(TrustLevel::Mesh));
    }
}

/// Trust climbs from unknown through contact and cache to mesh; a node
/// trusts its own group as mesh, and a group it holds no level for (other
/// than its own) as unknown.
pub proof fn law_trust_ladder_and_own_group(t: Trust, k: Seq<u8>)
    ensures
        rank(TrustLevel::Unknown) < rank(TrustLevel::Contact) < rank(TrustLevel::Cache) < rank(TrustLevel::Mesh),
        (t.own_group() matches Some(o) && o@ == k) ==> t.level_of(k) == TrustLevel::Mesh,
        !(t.own_group() matches Some(o) && o@ == k) && t.stored(k) is None ==> t.level_of(k) == TrustLevel::Unknown,
{
}

} // verus!
