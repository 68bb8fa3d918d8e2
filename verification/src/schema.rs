//! Modules as content: a module's identity record, the collection that holds
//! its versions, and how versions order.
use vstd::prelude::*;
use crate::cbor::{Value, Data};
use crate::canonical::CanonError;
use crate::record::Cir;
use crate::address::CiHash;
use crate::refs::{segment_ok, valid_segment, name_le, chars_le};
use crate::text::{chars_of, string_of, append, starts_with, copy_chars};
use crate::lex::{is_digit, parse_decimal, parse_unsigned};
use crate::fields::{text, entry};
use crate::collection::integer;

verus! {

pub const MODULE_KIND: &'static str = "wasm-module";

pub const MODULE_PREFIX: &'static str = "modules";

/// What a module does for its host.
#[derive(Debug, Clone, Copy, PartialEq, Eq)]
pub enum Role {
    Engine,
    Plugin,
}

pub open spec fn role_label(r: Role) -> Seq<char> {
    match r {
        Role::Engine => seq!['e', 'n', 'g', 'i', 'n', 'e'],
        Role::Plugin => seq!['p', 'l', 'u', 'g', 'i', 'n'],
    }
}

impl Role {
    /// The lower-case name of the role.
    pub fn label(&self) -> (s: &'static str)
        ensures
            s@ == role_label(*self),
    {
        let s = match self {
            Role::Engine => "engine",
            Role::Plugin => "plugin",
        };
        proof {
            reveal_strlit("engine");
            reveal_strlit("plugin");
        }
        s
    }
}

/// A module: its name, role, version and the host interface it was built for.
#[derive(Debug, Clone, PartialEq, Eq)]
pub struct Module {
    pub abi_version: u32,
    pub name: String,
    pub role: Role,
    pub version: String,
}

pub open spec fn module_data(m: Module) -> Data {
    Data::Table(
        seq![
            (Data::Text("abi_version"@), Data::Integer(m.abi_version as int)),
            (Data::Text("name"@), Data::Text(m.name@)),
            (Data::Text("role"@), Data::Text(role_label(m.role))),
            (Data::Text("version"@), Data::Text(m.version@)),
        ],
    )
}

/// A module's map encodes without floats when its texts fit.
proof fn lemma_module_ok(m: Module)
    requires
        crate::record::text_fits(m.name@),
        crate::record::text_fits(m.version@),
    ensures
        crate::record::canon_ok(module_data(m)),
{
    reveal_strlit("abi_version");
    reveal_strlit("name");
    reveal_strlit("role");
    reveal_strlit("version");
    crate::record::lemma_ascii_fits("abi_version"@);
    crate::record::lemma_ascii_fits("name"@);
    crate::record::lemma_ascii_fits("role"@);
    crate::record::lemma_ascii_fits("version"@);
    crate::record::lemma_ascii_fits(role_label(m.role));
    let e = module_data(m)->Table_0;
    assert forall|i: int| 0 <= i < e.len() implies crate::record::entry_ok(#[trigger] e[i]) by {}
    crate::record::lemma_table_ok(e);
}

/// The identity record of the module `m`.
pub open spec fn module_record(m: Module) -> crate::record::RecordV {
    crate::record::RecordV {
        record: crate::record::CIR_KIND@,
        kind: MODULE_KIND@,
        body: crate::canonical::canon(module_data(m)),
    }
}

impl Module {
    pub fn new(name: &str, role: Role, version: &str, abi_version: u32) -> (m: Self)
        ensures
            m.name@ == name@,
            m.role == role,
            m.version@ == version@,
            m.abi_version == abi_version,
    {
        Module {
            abi_version,
            name: crate::text::owned(name),
            role,
            version: crate::text::owned(version),
        }
    }

    /// The module as a record body: its four fields by name.
    pub fn to_value(&self) -> (v: Value)
        ensures
            v@ == module_data(*self),
    {
        let mut e: Vec<(Value, Value)> = Vec::new();
        proof {
            assert(crate::cbor::data_pairs(e@) =~= Seq::<(Data, Data)>::empty());
        }
        crate::fields::put(&mut e, "abi_version", integer(self.abi_version as u64));
        crate::fields::put(&mut e, "name", text(self.name.as_str()));
        crate::fields::put(&mut e, "role", text(self.role.label()));
        crate::fields::put(&mut e, "version", text(self.version.as_str()));
        let ghost d = module_data(*self);
        assert(crate::cbor::data_pairs(e@) =~= d->Table_0);
        Value::Table(e)
    }

    /// The module's identity record.
    pub fn cir(&self) -> (r: Result<Cir, CanonError>)
        ensures
            match r {
                Ok(c) => crate::record::canon_ok(module_data(*self)) && c@ == module_record(*self),
                Err(_) => !crate::record::canon_ok(module_data(*self)),
            },
            r is Ok,
    {
        crate::record::text_fits_str(self.name.as_str());
        crate::record::text_fits_str(self.version.as_str());
        proof {
            lemma_module_ok(*self);
        }
        let body = self.to_value();
        Cir::new(MODULE_KIND, &body)
    }

    /// The module's content identity.
    pub fn ci(&self) -> (r: Result<CiHash, CanonError>)
        ensures
            match r {
                Ok(a) => crate::record::canon_ok(module_data(*self)) && a.0@ == crate::store::blake3_digest(
                    crate::canonical::canonical_bytes(crate::record::record_data(module_record(*self))),
                ),
                Err(_) => !crate::record::canon_ok(module_data(*self)) || !crate::record::canon_ok(
                    crate::record::record_data(module_record(*self)),
                ),
            },
            r is Ok,
    {
        crate::record::text_fits_str(self.name.as_str());
        crate::record::text_fits_str(self.version.as_str());
        proof {
            lemma_module_ok(*self);
            crate::record::lemma_canon_ok(module_data(*self));
            reveal_strlit("cir");
            reveal_strlit("wasm-module");
            crate::record::lemma_ascii_fits(crate::record::CIR_KIND@);
            crate::record::lemma_ascii_fits(MODULE_KIND@);
            crate::record::lemma_record_ok(module_record(*self));
        }
        match self.cir() {
            Ok(c) => c.address(),
            Err(e) => Err(e),
        }
    }
}

/// The collection that holds the versions of the module `name`.
pub open spec fn collection_of(name: Seq<char>) -> Seq<char> {
    MODULE_PREFIX@ + seq!['/'] + name
}

/// The collection that holds the versions of the module `name`.
pub fn collection_name(name: &str) -> (s: String)
    ensures
        s@ == collection_of(name@),
{
    let mut v = chars_of(MODULE_PREFIX);
    v.push('/');
    append(&mut v, &chars_of(name));
    string_of(&v)
}

/// The module a collection holds: what follows `modules/`, when that is a
/// usable ref segment.
pub open spec fn module_of(collection: Seq<char>) -> Option<Seq<char>> {
    let p = MODULE_PREFIX@ + seq!['/'];
    if starts_with(collection, p) && segment_ok(collection.skip(p.len() as int)) {
        Some(collection.skip(p.len() as int))
    } else {
        None
    }
}

/// The module the collection `collection` holds, if it holds one.
pub fn module_name(collection: &str) -> (r: Option<String>)
    ensures
        match r {
            Some(n) => module_of(collection@) == Some(n@),
            None => module_of(collection@) is None,
        },
{
    let mut p = chars_of(MODULE_PREFIX);
    p.push('/');
    assert(p@ =~= MODULE_PREFIX@ + seq!['/']);
    let c = chars_of(collection);
    if !crate::text::has_prefix(&c, &p) {
        return None;
    }
    let rest = crate::text::tail(&c, p.len());
    let name = string_of(&rest);
    if valid_segment(name.as_str()) {
        Some(name)
    } else {
        None
    }
}

/// A module's collection names the module again, for every usable name.
pub proof fn law_collection_name_round_trip(name: Seq<char>)
    requires
        segment_ok(name),
    ensures
        module_of(collection_of(name)) == Some(name),
{
    let p = MODULE_PREFIX@ + seq!['/'];
    let c = collection_of(name);
    assert(c.take(p.len() as int) =~= p);
    assert(c.skip(p.len() as int) =~= name);
}

/// Whether `c` separates the parts of a version.
pub open spec fn is_sep(c: char) -> bool {
    c == '.' || c == '-' || c == '+'
}

/// The parts of a version, split at every separator; empty parts included.
pub open spec fn parts(s: Seq<char>) -> Seq<Seq<char>>
    decreases s.len(),
{
    if s.len() == 0 {
        seq![Seq::empty()]
    } else {
        let p = parts(s.drop_last());
        if is_sep(s.last()) {
            p.push(Seq::empty())
        } else {
            p.update(p.len() - 1, p.last().push(s.last()))
        }
    }
}

proof fn lemma_parts_len(s: Seq<char>)
    ensures
        parts(s).len() >= 1,
    decreases s.len(),
{
    if s.len() > 0 {
        lemma_parts_len(s.drop_last());
    }
}

/// The number of ASCII digits `s` starts with.
pub open spec fn lead_digits(s: Seq<char>) -> nat
    decreases s.len(),
{
    if s.len() > 0 && is_digit(s[0]) {
        1 + lead_digits(s.drop_first())
    } else {
        0
    }
}

/// What a part of a version counts for: the digits it starts with, as a
/// number; 0 where there are none or they overflow.
pub open spec fn part_value(s: Seq<char>) -> u64 {
    match parse_unsigned(s.take(lead_digits(s) as int), u64::MAX as nat) {
        Some(n) => n as u64,
        None => 0,
    }
}

/// The key versions order by: the value of each part.
pub open spec fn version_key_spec(s: Seq<char>) -> Seq<u64> {
    parts(s).map_values(|p: Seq<char>| part_value(p))
}

proof fn lemma_lead_digits(s: Seq<char>, i: int)
    requires
        0 <= i <= s.len(),
        forall|j: int| 0 <= j < i ==> is_digit(s[j]),
        i == s.len() || !is_digit(s[i]),
    ensures
        lead_digits(s) == i,
    decreases i,
{
    if i > 0 {
        lemma_lead_digits(s.drop_first(), i - 1);
    }
}

fn part_key(p: &Vec<char>) -> (n: u64)
    ensures
        n == part_value(p@),
{
    let mut i: usize = 0;
    while i < p.len() && p[i] >= '0' && p[i] <= '9'
        invariant
            i <= p.len(),
            forall|j: int| 0 <= j < i ==> is_digit(p@[j]),
        decreases p.len() - i,
    {
        i = i + 1;
    }
    proof {
        lemma_lead_digits(p@, i as int);
    }
    let digits = crate::text::slice(p, 0, i);
    assert(digits@ =~= p@.take(i as int));
    match parse_decimal(&digits, u64::MAX) {
        Some(n) => n,
        None => 0,
    }
}

/// The ordering key of the version `version`.
pub fn version_key(version: &str) -> (k: Vec<u64>)
    ensures
        k@ == version_key_spec(version@),
{
    let s = chars_of(version);
    let mut done: Vec<u64> = Vec::new();
    let mut cur: Vec<char> = Vec::new();
    let mut i: usize = 0;
    proof {
        assert(s@.take(0) =~= Seq::<char>::empty());
    }
    while i < s.len()
        invariant
            i <= s.len(),
            parts(s@.take(i as int)).len() == done@.len() + 1,
            parts(s@.take(i as int)).last() == cur@,
            forall|j: int| 0 <= j < done@.len() ==> done@[j] == part_value(#[trigger] parts(s@.take(i as int))[j]),
        decreases s.len() - i,
    {
        let c = s[i];
        proof {
            assert(s@.take(i + 1).drop_last() =~= s@.take(i as int));
            lemma_parts_len(s@.take(i as int));
        }
        if c == '.' || c == '-' || c == '+' {
            let n = part_key(&cur);
            done.push(n);
            cur = Vec::new();
        } else {
            cur.push(c);
        }
        i = i + 1;
    }
    let n = part_key(&cur);
    done.push(n);
    proof {
        assert(s@.take(s.len() as int) =~= s@);
        assert(done@ =~= version_key_spec(s@));
    }
    done
}

/// Whether the key `a` orders strictly before `b`, element by element, a
/// proper prefix first.
pub open spec fn key_lt(a: Seq<u64>, b: Seq<u64>) -> bool
    decreases a.len(),
{
    if b.len() == 0 {
        false
    } else if a.len() == 0 {
        true
    } else if a[0] != b[0] {
        a[0] < b[0]
    } else {
        key_lt(a.drop_first(), b.drop_first())
    }
}

fn keys_lt(a: &Vec<u64>, b: &Vec<u64>) -> (r: bool)
    ensures
        r == key_lt(a@, b@),
{
    let mut i: usize = 0;
    assert(a@.skip(0) =~= a@ && b@.skip(0) =~= b@);
    while i < a.len() && i < b.len() && a[i] == b[i]
        invariant
            i <= a.len(),
            i <= b.len(),
            key_lt(a@, b@) == key_lt(a@.skip(i as int), b@.skip(i as int)),
        decreases a.len() - i,
    {
        proof {
            assert(a@.skip(i as int).drop_first() =~= a@.skip(i + 1));
            assert(b@.skip(i as int).drop_first() =~= b@.skip(i + 1));
        }
        i = i + 1;
    }
    if i == b.len() {
        false
    } else if i == a.len() {
        true
    } else {
        a[i] < b[i]
    }
}

/// Whether the version `left` is newer than `right`: a greater key, or the
/// same key and a greater text.
pub open spec fn newer_spec(left: Seq<char>, right: Seq<char>) -> bool {
    let (l, r) = (version_key_spec(left), version_key_spec(right));
    if key_lt(r, l) {
        true
    } else if key_lt(l, r) {
        false
    } else {
        !name_le(left, right)
    }
}

/// Whether the version `left` is newer than the version `right`.
pub fn newer(left: &str, right: &str) -> (r: bool)
    ensures
        r == newer_spec(left@, right@),
{
    let l = version_key(left);
    let rk = version_key(right);
    if keys_lt(&rk, &l) {
        true
    } else if keys_lt(&l, &rk) {
        false
    } else {
        !chars_le(&chars_of(left), &chars_of(right))
    }
}

proof fn lemma_key_lt_first_difference(a: Seq<u64>, b: Seq<u64>, i: int)
    requires
        0 <= i <= a.len(),
        i <= b.len(),
        forall|j: int| 0 <= j < i ==> a[j] == b[j],
        (i < a.len() && i < b.len() && a[i] < b[i]) || (i == a.len() && i < b.len()),
    ensures
        key_lt(a, b),
        !key_lt(b, a),
    decreases i,
{
    if i > 0 {
        assert forall|j: int| 0 <= j < i - 1 implies a.drop_first()[j] == b.drop_first()[j] by {
            assert(a[j + 1] == b[j + 1]);
        }
        lemma_key_lt_first_difference(a.drop_first(), b.drop_first(), i - 1);
        assert(a[0] == b[0]);
    }
}

/// Versions compare by their numbers, part by part: the version whose first
/// differing number is greater is newer, and so is one whose numbers extend
/// the other's; then neither is the other newer than it.
pub proof fn law_newer_compares_numbers_part_by_part(left: Seq<char>, right: Seq<char>)
    ensures
        ({
            let l = version_key_spec(left);
            let r = version_key_spec(right);
            (exists|i: int|
                0 <= i < l.len() && i < r.len() && (#[trigger] l[i]) > r[i] && forall|j: int| 0 <= j < i ==> l[j] == r[j])
                ==> newer_spec(left, right) && !newer_spec(right, left)
        }),
        ({
            let l = version_key_spec(left);
            let r = version_key_spec(right);
            r.len() < l.len() && (forall|j: int| 0 <= j < r.len() ==> l[j] == r[j]) ==> newer_spec(left, right)
                && !newer_spec(right, left)
        }),
{
    let l = version_key_spec(left);
    let r = version_key_spec(right);
    if exists|i: int|
        0 <= i < l.len() && i < r.len() && (#[trigger] l[i]) > r[i] && forall|j: int| 0 <= j < i ==> l[j] == r[j] {
        let i = choose|i: int|
            0 <= i < l.len() && i < r.len() && (#[trigger] l[i]) > r[i] && forall|j: int| 0 <= j < i ==> l[j] == r[j];
        lemma_key_lt_first_difference(r, l, i);
    }
    if r.len() < l.len() && (forall|j: int| 0 <= j < r.len() ==> l[j] == r[j]) {
        lemma_key_lt_first_difference(r, l, r.len() as int);
    }
}

} // verus!
