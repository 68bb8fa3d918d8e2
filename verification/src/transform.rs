//! Running transforms: what a runner is handed and what it answers, and the
//! services a host supplies to fetch and run.
use vstd::prelude::*;
use crate::address::{CiHash, ci_prefix, parse_prefixed, prefixed_text};
use crate::cbor::{Value, Data, data_pairs, lemma_data_pairs_push};
use crate::fields::{get, field, find_field, put, put_opt, text, opt_push, text_of};
use crate::hex::{hex_of, parse_hex};
use crate::ops::{text_entry, find_text_entry};
use crate::store::BlobHash;
use crate::record::{Tdr, RecordV, canon_ok, text_fits, entry_ok, lemma_table_ok, lemma_ascii_fits, lemma_hex_text_fits};
use crate::assoc::{unique_keys, as_map, lemma_as_map, lemma_as_map_update, lemma_as_map_insert};
use crate::mesh::{name_lt, names_increasing, lemma_name_total, lemma_name_lt_trans};
use crate::text::{chars_of, string_of, append, starts_with, has_prefix, tail, trimmed, owned};

verus! {

/// Fetches the bytes at a URL for a transform's inputs; hosts supply it.
pub trait Fetcher {
    fn get(&self, url: &str) -> Result<Vec<u8>, String>;
}

/// What a transform module is run with: its arguments and its named inputs,
/// in name order.
#[derive(Debug, Clone, PartialEq, Eq)]
pub struct RunRequest {
    pub args: Option<Vec<u8>>,
    pub inputs: Vec<(String, Vec<u8>)>,
}

/// What a transform run answers: its output, or the inputs it still needs.
#[derive(Debug, Clone, PartialEq, Eq)]
pub enum RunReply {
    Output(Vec<u8>),
    NeedInputs(Vec<String>),
}

/// Runs a transform module on a request; hosts supply it.
pub trait TransformRunner {
    fn run(&self, module: &[u8], request: &RunRequest) -> Result<RunReply, String>;
}

pub const HTTP_GET: &'static str = "http-get";

pub const WASM_TRANSFORM: &'static str = "wasm-transform";

/// How many times a transform may ask for more inputs before a run gives up.
pub const MAX_ROUNDS: usize = 16;

pub open spec fn blob_word() -> Seq<char> {
    seq!['b', 'l', 'o', 'b', ':']
}

/// A blob hash written with or without `blob:` before it.
pub open spec fn loose_blob(t: Seq<char>) -> Option<Seq<u8>> {
    let h = if starts_with(t, blob_word()) {
        t.skip(5)
    } else {
        t
    };
    parse_hex(trimmed(h), 32)
}

/// The blob hash in `t`, with or without `blob:` before it.
pub fn read_loose_blob(t: &str) -> (r: Option<BlobHash>)
    ensures
        match r {
            Some(h) => loose_blob(t@) == Some(h@),
            None => loose_blob(t@) is None,
        },
{
    let c = chars_of(t);
    let w = vec!['b', 'l', 'o', 'b', ':'];
    assert(w@ =~= blob_word());
    let rest = if has_prefix(&c, &w) {
        tail(&c, 5)
    } else {
        c
    };
    BlobHash::parse(string_of(&rest).as_str())
}

/// Where one input of a transform comes from: a content identity to
/// resolve, a blob already pinned, a URL to fetch, or a query by kind and name.
#[derive(Debug, Clone, PartialEq, Eq)]
pub enum Input {
    Ci(CiHash),
    Pinned { ci: Option<CiHash>, url: Option<String>, blob: BlobHash },
    Url(String),
    Query { kind: String, name: String },
}

pub enum InputV {
    Ci(Seq<u8>),
    Pinned { ci: Option<Seq<u8>>, url: Option<Seq<char>>, blob: Seq<u8> },
    Url(Seq<char>),
    Query { kind: Seq<char>, name: Seq<char> },
}

impl View for Input {
    type V = InputV;

    open spec fn view(&self) -> InputV {
        match self {
            Input::Ci(c) => InputV::Ci(c.0@),
            Input::Pinned { ci, url, blob } => InputV::Pinned {
                ci: match ci {
                    Some(c) => Some(c.0@),
                    None => None,
                },
                url: match url {
                    Some(u) => Some(u@),
                    None => None,
                },
                blob: blob@,
            },
            Input::Url(u) => InputV::Url(u@),
            Input::Query { kind, name } => InputV::Query { kind: kind@, name: name@ },
        }
    }
}

/// An input as a map.
pub open spec fn input_data(i: InputV) -> Data {
    match i {
        InputV::Ci(c) => Data::Table(seq![(Data::Text("ci"@), Data::Text(prefixed_text(ci_prefix(), c)))]),
        InputV::Pinned { ci, url, blob } => Data::Table(
            opt_push(
                opt_push(
                    seq![(Data::Text("blob"@), Data::Text(blob_word() + hex_of(blob)))],
                    "ci"@,
                    match ci {
                        Some(c) => Some(Data::Text(prefixed_text(ci_prefix(), c))),
                        None => None,
                    },
                ),
                "url"@,
                match url {
                    Some(u) => Some(Data::Text(u)),
                    None => None,
                },
            ),
        ),
        InputV::Url(u) => Data::Table(seq![(Data::Text("url"@), Data::Text(u))]),
        InputV::Query { kind, name } => Data::Table(
            seq![
                (
                    Data::Text("query"@),
                    Data::Table(seq![(Data::Text("kind"@), Data::Text(kind)), (Data::Text("name"@), Data::Text(name))]),
                ),
            ],
        ),
    }
}

/// The input a map holds: a pinned blob when it names one, else a content
/// identity, else a URL, else a query with a kind and a name.
pub open spec fn decode_input(d: Data) -> Option<InputV> {
    match d {
        Data::Table(entries) => {
            let blob = match field(entries, "blob"@) {
                Some(Data::Text(t)) => loose_blob(t),
                _ => None,
            };
            let ci = match field(entries, "ci"@) {
                Some(Data::Text(t)) => parse_prefixed(t, ci_prefix()),
                _ => None,
            };
            let url = text_of(field(entries, "url"@));
            if blob is Some {
                Some(InputV::Pinned { ci, url, blob: blob->0 })
            } else if ci is Some {
                Some(InputV::Ci(ci->0))
            } else if url is Some {
                Some(InputV::Url(url->0))
            } else {
                match field(entries, "query"@) {
                    Some(Data::Table(q)) => if text_entry(q, "kind"@) is Some && text_entry(q, "name"@) is Some {
                        Some(InputV::Query { kind: text_entry(q, "kind"@)->0, name: text_entry(q, "name"@)->0 })
                    } else {
                        None
                    },
                    _ => None,
                }
            }
        },
        _ => None,
    }
}

pub open spec fn pinned_blob(i: InputV) -> Option<Seq<u8>> {
    match i {
        InputV::Pinned { blob, .. } => Some(blob),
        _ => None,
    }
}

impl Input {
    /// The blob an input is pinned to.
    pub fn blob(&self) -> (r: Option<BlobHash>)
        ensures
            match r {
                Some(h) => pinned_blob(self@) == Some(h@),
                None => pinned_blob(self@) is None,
            },
    {
        match self {
            Input::Pinned { blob, .. } => Some(*blob),
            _ => None,
        }
    }

    /// A copy of the input.
    pub fn copy(&self) -> (c: Self)
        ensures
            c@ == self@,
    {
        match self {
            Input::Ci(c) => Input::Ci(*c),
            Input::Pinned { ci, url, blob } => Input::Pinned {
                ci: *ci,
                url: match url {
                    Some(u) => Some(u.clone()),
                    None => None,
                },
                blob: *blob,
            },
            Input::Url(u) => Input::Url(u.clone()),
            Input::Query { kind, name } => Input::Query { kind: kind.clone(), name: name.clone() },
        }
    }

    /// The input as a map.
    pub fn to_value(&self) -> (v: Value)
        ensures
            v@ == input_data(self@),
    {
        let mut e: Vec<(Value, Value)> = Vec::new();
        proof {
            assert(data_pairs(e@) =~= Seq::<(Data, Data)>::empty());
        }
        match self {
            Input::Ci(c) => {
                put(&mut e, "ci", Value::Text(c.to_string()));
            },
            Input::Pinned { ci, url, blob } => {
                let mut b = vec!['b', 'l', 'o', 'b', ':'];
                assert(b@ =~= blob_word());
                append(&mut b, &crate::hex::encode(blob.as_bytes()));
                put(&mut e, "blob", Value::Text(string_of(&b)));
                let c = match ci {
                    Some(c) => Some(Value::Text(c.to_string())),
                    None => None,
                };
                put_opt(&mut e, "ci", c);
                let u = match url {
                    Some(u) => Some(Value::Text(u.clone())),
                    None => None,
                };
                put_opt(&mut e, "url", u);
            },
            Input::Url(u) => {
                put(&mut e, "url", Value::Text(u.clone()));
            },
            Input::Query { kind, name } => {
                let mut q: Vec<(Value, Value)> = Vec::new();
                proof {
                    assert(data_pairs(q@) =~= Seq::<(Data, Data)>::empty());
                }
                put(&mut q, "kind", Value::Text(kind.clone()));
                put(&mut q, "name", Value::Text(name.clone()));
                assert(data_pairs(q@) =~= seq![(Data::Text("kind"@), Data::Text(kind@)), (Data::Text("name"@), Data::Text(name@))]);
                put(&mut e, "query", Value::Table(q));
            },
        }
        let ghost d = input_data(self@);
        assert(data_pairs(e@) =~= d->Table_0);
        Value::Table(e)
    }

    /// The input the map `v` holds.
    pub fn from_value(v: &Value) -> (r: Option<Self>)
        ensures
            match r {
                Some(i) => decode_input(v@) == Some(i@),
                None => decode_input(v@) is None,
            },
    {
        let entries = match v {
            Value::Table(entries) => entries,
            _ => return None,
        };
        let blob = match find_field(entries, "blob") {
            Some(Value::Text(t)) => read_loose_blob(t.as_str()),
            _ => None,
        };
        let ci = match find_field(entries, "ci") {
            Some(Value::Text(t)) => CiHash::parse(t.as_str()),
            _ => None,
        };
        let url = match find_field(entries, "url") {
            Some(Value::Text(t)) => Some(t.clone()),
            _ => None,
        };
        match blob {
            Some(blob) => return Some(Input::Pinned { ci, url, blob }),
            None => {},
        }
        match ci {
            Some(c) => return Some(Input::Ci(c)),
            None => {},
        }
        match url {
            Some(u) => return Some(Input::Url(u)),
            None => {},
        }
        match find_field(entries, "query") {
            Some(Value::Table(q)) => {
                let kind = find_text_entry(q, &chars_of("kind"));
                let name = find_text_entry(q, &chars_of("name"));
                match (kind, name) {
                    (Some(k), Some(n)) => Some(Input::Query { kind: string_of(&k), name: string_of(&n) }),
                    _ => None,
                }
            },
            _ => None,
        }
    }
}

/// The entries declared under `inputs` in a transform's body.
pub open spec fn declared_of(body: Data) -> Seq<(Data, Data)> {
    match body {
        Data::Table(e) => match field(e, "inputs"@) {
            Some(Data::Table(d)) => d,
            _ => Seq::empty(),
        },
        _ => Seq::empty(),
    }
}

/// The inputs the declared entries name: each text key with an entry that
/// reads as an input, a later entry of a name winning.
pub open spec fn input_map(d: Seq<(Data, Data)>) -> Map<Seq<char>, InputV>
    decreases d.len(),
{
    if d.len() == 0 {
        Map::empty()
    } else {
        let m = input_map(d.drop_last());
        match d.last().0 {
            Data::Text(n) => match decode_input(d.last().1) {
                Some(i) => m.insert(n, i),
                None => m,
            },
            _ => m,
        }
    }
}

pub open spec fn input_names(v: Seq<(String, Input)>) -> Seq<Seq<char>> {
    Seq::new(v.len(), |i: int| v[i].0@)
}

pub open spec fn input_views(v: Seq<(String, Input)>) -> Seq<(Seq<char>, InputV)> {
    Seq::new(v.len(), |i: int| (v[i].0@, v[i].1@))
}

pub(crate) proof fn lemma_inputs_unique(v: Seq<(String, Input)>)
    requires
        names_increasing(input_names(v)),
    ensures
        unique_keys(input_views(v)),
{
    assert forall|a: int, b: int| 0 <= a < b < input_views(v).len() implies #[trigger] input_views(v)[a].0
        != #[trigger] input_views(v)[b].0 by {
        assert(input_names(v)[a] == input_views(v)[a].0);
        assert(input_names(v)[b] == input_views(v)[b].0);
    }
}

fn name_before(s: &String, key: &Vec<char>) -> (r: bool)
    ensures
        r == name_lt(s@, key@),
{
    let here = chars_of(s.as_str());
    crate::refs::chars_le(&here, key) && !crate::text::same_chars(&here, key)
}

/// Puts `input` under `name` in the list in name order, in place of any
/// input of that name.
pub(crate) fn put_input(v: &mut Vec<(String, Input)>, name: String, input: Input)
    requires
        names_increasing(input_names(old(v)@)),
    ensures
        names_increasing(input_names(final(v)@)),
        as_map(input_views(final(v)@)) == as_map(input_views(old(v)@)).insert(name@, input@),
{
    let ghost s = v@;
    let ghost ks = input_names(s);
    let ghost iv = input@;
    proof {
        lemma_inputs_unique(s);
    }
    let key = chars_of(name.as_str());
    let mut i: usize = 0;
    while i < v.len() && name_before(&v[i].0, &key)
        invariant
            i <= v.len(),
            s == v@,
            ks == input_names(s),
            names_increasing(ks),
            key@ == name@,
            forall|j: int| 0 <= j < i ==> name_lt(#[trigger] ks[j], key@),
        decreases v.len() - i,
    {
        assert(ks[i as int] == v@[i as int].0@);
        i = i + 1;
    }
    let same = i < v.len() && crate::text::same_chars(&chars_of(v[i].0.as_str()), &key);
    if same {
        proof {
            assert(ks[i as int] == name@);
            lemma_as_map_update(input_views(s), i as int, iv);
        }
        v.remove(i);
        v.insert(i, (name, input));
        proof {
            assert(input_views(v@) =~= input_views(s).update(i as int, (input_views(s)[i as int].0, iv)));
            assert(input_names(v@) =~= ks);
        }
    } else {
        proof {
            if i < ks.len() {
                assert(ks[i as int] == v@[i as int].0@);
                lemma_name_total(ks[i as int], key@);
            }
            assert forall|j: int| i <= j < ks.len() implies name_lt(key@, #[trigger] ks[j]) by {
                if j > i {
                    lemma_name_lt_trans(key@, ks[i as int], ks[j]);
                }
            }
            assert forall|j: int| 0 <= j < s.len() implies (#[trigger] input_views(s)[j]).0 != key@ by {
                assert(input_views(s)[j].0 == ks[j]);
            }
            lemma_as_map_insert(input_views(s), i as int, key@, iv);
        }
        let ghost nv = name@;
        v.insert(i, (name, input));
        proof {
            assert(input_views(v@) =~= input_views(s).insert(i as int, (nv, iv)));
            let t = input_names(v@);
            assert(t =~= ks.insert(i as int, nv));
            assert forall|a: int, b: int| 0 <= a < b < t.len() implies name_lt(#[trigger] t[a], #[trigger] t[b]) by {
                if b < i {
                    assert(t[a] == ks[a] && t[b] == ks[b]);
                } else if b == i {
                    assert(t[a] == ks[a]);
                } else if a < i {
                    assert(t[a] == ks[a] && t[b] == ks[b - 1]);
                } else if a == i {
                    assert(t[b] == ks[b - 1]);
                } else {
                    assert(t[a] == ks[a - 1]);
                    assert(t[b] == ks[b - 1]);
                }
            }
        }
    }
}

/// The inputs a transform declares, in name order.
pub fn inputs(tdr: &Tdr) -> (r: Vec<(String, Input)>)
    ensures
        names_increasing(input_names(r@)),
        as_map(input_views(r@)) == input_map(declared_of(tdr.body@)),
{
    let mut r: Vec<(String, Input)> = Vec::new();
    proof {
        assert(input_views(r@) =~= Seq::<(Seq<char>, InputV)>::empty());
        assert(as_map(input_views(r@)) =~= Map::<Seq<char>, InputV>::empty());
    }
    let declared = match &tdr.body {
        Value::Table(entries) => match find_field(entries, "inputs") {
            Some(Value::Table(d)) => d,
            _ => return r,
        },
        _ => return r,
    };
    let ghost d = data_pairs(declared@);
    proof {
        crate::cbor::lemma_data_pairs(declared@);
        assert(d.take(0) =~= Seq::<(Data, Data)>::empty());
    }
    let mut i: usize = 0;
    while i < declared.len()
        invariant
            i <= declared.len(),
            d == data_pairs(declared@),
            d.len() == declared.len(),
            forall|j: int| 0 <= j < declared.len() ==> #[trigger] d[j] == (declared@[j].0@, declared@[j].1@),
            names_increasing(input_names(r@)),
            as_map(input_views(r@)) == input_map(d.take(i as int)),
        decreases declared.len() - i,
    {
        assert(d.take(i + 1).drop_last() =~= d.take(i as int));
        assert(d.take(i + 1).last() == d[i as int]);
        match &declared[i].0 {
            Value::Text(name) => match Input::from_value(&declared[i].1) {
                Some(input) => {
                    put_input(&mut r, name.clone(), input);
                },
                None => {},
            },
            _ => {},
        }
        i = i + 1;
    }
    assert(d.take(i as int) =~= d);
    r
}

/// Whether a transform is locked: every input it declares is pinned, and an
/// `http-get` declares its URL.
pub open spec fn locked_spec(t: RecordV) -> bool {
    let m = input_map(declared_of(t.body));
    &&& forall|n: Seq<char>| #[trigger] m.contains_key(n) ==> pinned_blob(m[n]) is Some
    &&& (t.kind == HTTP_GET@ ==> m.contains_key("url"@))
}

/// Whether a transform is locked.
pub fn is_locked(tdr: &Tdr) -> (r: bool)
    ensures
        r == locked_spec(tdr@),
{
    let declared = inputs(tdr);
    let ghost m = input_map(declared_of(tdr.body@));
    let ghost iv = input_views(declared@);
    proof {
        lemma_inputs_unique(declared@);
        lemma_as_map(iv);
    }
    let mut all_pinned = true;
    let mut has_url = false;
    let url = chars_of("url");
    let mut i: usize = 0;
    while i < declared.len()
        invariant
            i <= declared.len(),
            iv == input_views(declared@),
            m == as_map(iv),
            url@ == "url"@,
            all_pinned == forall|j: int| 0 <= j < i ==> pinned_blob(#[trigger] iv[j].1) is Some,
            has_url == exists|j: int| 0 <= j < i && (#[trigger] iv[j]).0 == "url"@,
        decreases declared.len() - i,
    {
        assert(iv[i as int] == (declared@[i as int].0@, declared@[i as int].1@));
        let ghost before = all_pinned;
        let pinned_here = declared[i].1.blob().is_some();
        if !pinned_here {
            all_pinned = false;
        }
        proof {
            assert(pinned_here == pinned_blob(iv[i as int].1) is Some);
            if before && pinned_here {
                assert forall|j: int| 0 <= j < i + 1 implies pinned_blob(#[trigger] iv[j].1) is Some by {
                    if j < i {
                        assert(pinned_blob(iv[j].1) is Some);
                    }
                }
            } else if !before {
                let w = choose|w: int| 0 <= w < i && !(pinned_blob(#[trigger] iv[w].1) is Some);
                assert(!(forall|j: int| 0 <= j < i + 1 ==> pinned_blob(#[trigger] iv[j].1) is Some));
            } else {
                assert(!(forall|j: int| 0 <= j < i + 1 ==> pinned_blob(#[trigger] iv[j].1) is Some));
            }
        }
        if crate::text::same_chars(&chars_of(declared[i].0.as_str()), &url) {
            has_url = true;
        }
        i = i + 1;
    }
    proof {
        assert((forall|n: Seq<char>| #[trigger] m.contains_key(n) ==> pinned_blob(m[n]) is Some) == all_pinned) by {
            if all_pinned {
                assert forall|n: Seq<char>| #[trigger] m.contains_key(n) implies pinned_blob(m[n]) is Some by {
                    let j = choose|j: int| 0 <= j < iv.len() && iv[j].0 == n;
                    assert(m[iv[j].0] == iv[j].1);
                }
            } else {
                let j = choose|j: int| 0 <= j < iv.len() && !(pinned_blob(#[trigger] iv[j].1) is Some);
                assert(m.contains_key(iv[j].0));
                assert(m[iv[j].0] == iv[j].1);
            }
        }
        assert(m.contains_key("url"@) == has_url) by {
            if has_url {
                let j = choose|j: int| 0 <= j < iv.len() && (#[trigger] iv[j]).0 == "url"@;
                assert(m.contains_key(iv[j].0));
            }
            if m.contains_key("url"@) {
                let j = choose|j: int| 0 <= j < iv.len() && iv[j].0 == "url"@;
                assert((#[trigger] iv[j]).0 == "url"@);
            }
        }
    }
    let url_step = crate::record::same_text(tdr.kind.as_str(), HTTP_GET);
    all_pinned && (!url_step || has_url)
}

pub open spec fn extra_views(extra: Seq<(String, String)>) -> Seq<(Seq<char>, Seq<char>)> {
    Seq::new(extra.len(), |i: int| (extra[i].0@, extra[i].1@))
}

/// Whether `with_fields` replaces an entry keyed `k`: its inputs, or a field
/// it sets anew.
pub open spec fn replaced(k: Data, extra: Seq<(Seq<char>, Seq<char>)>) -> bool {
    match k {
        Data::Text(t) => t == "inputs"@ || exists|i: int| 0 <= i < extra.len() && (#[trigger] extra[i]).0 == t,
        _ => false,
    }
}

/// The entries not replaced, in order.
pub open spec fn kept_entries(e: Seq<(Data, Data)>, extra: Seq<(Seq<char>, Seq<char>)>) -> Seq<(Data, Data)>
    decreases e.len(),
{
    if e.len() == 0 {
        Seq::empty()
    } else if replaced(e.last().0, extra) {
        kept_entries(e.drop_last(), extra)
    } else {
        kept_entries(e.drop_last(), extra).push(e.last())
    }
}

/// A transform's body with the fields `extra` set, in order, and its inputs
/// replaced by `inputs`; an empty list of inputs leaves none.
pub open spec fn body_with(body: Data, inputs: Seq<(Seq<char>, InputV)>, extra: Seq<(Seq<char>, Seq<char>)>) -> Data {
    let base = match body {
        Data::Table(e) => e,
        _ => Seq::empty(),
    };
    Data::Table(
        kept_entries(base, extra) + Seq::new(extra.len(), |i: int| (Data::Text(extra[i].0), Data::Text(extra[i].1)))
            + if inputs.len() == 0 {
            Seq::empty()
        } else {
            seq![
                (
                    Data::Text("inputs"@),
                    Data::Table(Seq::new(inputs.len(), |i: int| (Data::Text(inputs[i].0), input_data(inputs[i].1)))),
                ),
            ]
        },
    )
}

proof fn lemma_kept_from(e: Seq<(Data, Data)>, extra: Seq<(Seq<char>, Seq<char>)>)
    ensures
        kept_entries(e, extra).len() <= e.len(),
        forall|k: int|
            0 <= k < kept_entries(e, extra).len() ==> exists|j: int|
                0 <= j < e.len() && e[j] == #[trigger] kept_entries(e, extra)[k],
    decreases e.len(),
{
    if e.len() > 0 {
        let d = e.drop_last();
        lemma_kept_from(d, extra);
        let kd = kept_entries(d, extra);
        assert forall|k: int| 0 <= k < kept_entries(e, extra).len() implies exists|j: int|
            0 <= j < e.len() && e[j] == #[trigger] kept_entries(e, extra)[k] by {
            if k < kd.len() {
                assert(kept_entries(e, extra)[k] == kd[k]);
                let j = choose|j: int| 0 <= j < d.len() && d[j] == #[trigger] kd[k];
                assert(e[j] == d[j]);
            } else {
                assert(kept_entries(e, extra)[k] == e.last());
                assert(e[e.len() - 1] == e.last());
            }
        }
    }
}

/// A pinned input's map encodes without floats.
pub proof fn lemma_pinned_ok(ci: Option<Seq<u8>>, url: Option<Seq<char>>, blob: Seq<u8>)
    requires
        blob.len() == 32,
        ci matches Some(c) ==> c.len() == 32,
        url matches Some(u) ==> text_fits(u),
    ensures
        canon_ok(input_data(InputV::Pinned { ci, url, blob })),
{
    reveal_strlit("blob");
    reveal_strlit("ci");
    reveal_strlit("url");
    lemma_ascii_fits("blob"@);
    lemma_ascii_fits("ci"@);
    lemma_ascii_fits("url"@);
    lemma_hex_text_fits(blob_word(), blob);
    let e0 = seq![(Data::Text("blob"@), Data::Text(blob_word() + hex_of(blob)))];
    let e1 = opt_push(
        e0,
        "ci"@,
        match ci {
            Some(c) => Some(Data::Text(prefixed_text(ci_prefix(), c))),
            None => None,
        },
    );
    let e2 = opt_push(
        e1,
        "url"@,
        match url {
            Some(u) => Some(Data::Text(u)),
            None => None,
        },
    );
    if ci is Some {
        lemma_hex_text_fits(ci_prefix(), ci->0);
        assert(prefixed_text(ci_prefix(), ci->0) == ci_prefix() + hex_of(ci->0));
    }
    assert forall|i: int| 0 <= i < e2.len() implies entry_ok(#[trigger] e2[i]) by {
        if i == 0 {
            assert(e2[i] == e0[0]);
        } else if i == 1 && ci is Some {
            assert(e2[i] == e1[1]);
        }
    }
    lemma_table_ok(e2);
}

/// Setting fields and replacing the inputs of an encodable body keeps it
/// encodable, when every new text fits and the body stays countable.
pub proof fn lemma_body_with_ok(body: Data, inputs: Seq<(Seq<char>, InputV)>, extra: Seq<(Seq<char>, Seq<char>)>)
    requires
        canon_ok(body),
        body_with(body, inputs, extra)->Table_0.len() < crate::cbor::u64_lim(),
        inputs.len() < crate::cbor::u64_lim(),
        forall|i: int| 0 <= i < extra.len() ==> text_fits((#[trigger] extra[i]).0) && text_fits(extra[i].1),
        forall|i: int|
            0 <= i < inputs.len() ==> text_fits((#[trigger] inputs[i]).0) && canon_ok(
                input_data(inputs[i].1),
            ),
    ensures
        canon_ok(body_with(body, inputs, extra)),
{
    let base = match body {
        Data::Table(e) => e,
        _ => Seq::empty(),
    };
    if body is Table {
        lemma_table_ok(base);
    }
    lemma_kept_from(base, extra);
    let kept = kept_entries(base, extra);
    let ex = Seq::new(extra.len(), |i: int| (Data::Text(extra[i].0), Data::Text(extra[i].1)));
    let inner = Seq::new(inputs.len(), |i: int| (Data::Text(inputs[i].0), input_data(inputs[i].1)));
    let tail = if inputs.len() == 0 {
        Seq::empty()
    } else {
        seq![(Data::Text("inputs"@), Data::Table(inner))]
    };
    let all = kept + ex + tail;
    assert(body_with(body, inputs, extra)->Table_0 == all);
    if inputs.len() > 0 {
        reveal_strlit("inputs");
        lemma_ascii_fits("inputs"@);
        assert forall|i: int| 0 <= i < inner.len() implies entry_ok(#[trigger] inner[i]) by {
            assert(text_fits(inputs[i].0));
        }
        lemma_table_ok(inner);
    }
    assert forall|i: int| 0 <= i < all.len() implies entry_ok(#[trigger] all[i]) by {
        if i < kept.len() {
            assert(all[i] == kept[i]);
            let j = choose|j: int| 0 <= j < base.len() && base[j] == #[trigger] kept[i];
            assert(entry_ok(base[j]));
        } else if i < kept.len() + ex.len() {
            assert(all[i] == ex[i - kept.len()]);
            assert(text_fits(extra[i - kept.len()].0));
        } else {
            assert(all[i] == tail[i - kept.len() - ex.len()]);
        }
    }
    lemma_table_ok(all);
}

/// The transform `tdr` with the fields `extra` set and its inputs replaced.
pub fn with_fields(tdr: &Tdr, inputs: &Vec<(String, Input)>, extra: &Vec<(String, String)>) -> (t: Tdr)
    ensures
        t@ == (RecordV {
            record: tdr@.record,
            kind: tdr@.kind,
            body: body_with(tdr@.body, input_views(inputs@), extra_views(extra@)),
        }),
        body_with(tdr@.body, input_views(inputs@), extra_views(extra@))->Table_0.len() < crate::cbor::u64_lim(),
{
    let ghost ev = extra_views(extra@);
    let mut entries: Vec<(Value, Value)> = Vec::new();
    proof {
        assert(data_pairs(entries@) =~= Seq::<(Data, Data)>::empty());
    }
    match &tdr.body {
        Value::Table(old) => {
            let ghost d = data_pairs(old@);
            proof {
                crate::cbor::lemma_data_pairs(old@);
                assert(d.take(0) =~= Seq::<(Data, Data)>::empty());
            }
            let mut i: usize = 0;
            while i < old.len()
                invariant
                    i <= old.len(),
                    d == data_pairs(old@),
                    d.len() == old.len(),
                    forall|j: int| 0 <= j < old.len() ==> #[trigger] d[j] == (old@[j].0@, old@[j].1@),
                    ev == extra_views(extra@),
                    data_pairs(entries@) == kept_entries(d.take(i as int), ev),
                decreases old.len() - i,
            {
                assert(d.take(i + 1).drop_last() =~= d.take(i as int));
                assert(d.take(i + 1).last() == d[i as int]);
                let drop = match &old[i].0 {
                    Value::Text(k) => {
                        let kc = chars_of(k.as_str());
                        let mut hit = crate::text::same_chars(&kc, &chars_of("inputs"));
                        let mut j: usize = 0;
                        while j < extra.len()
                            invariant
                                j <= extra.len(),
                                ev == extra_views(extra@),
                                kc@ == k@,
                                hit == (k@ == "inputs"@ || exists|m: int| 0 <= m < j && (#[trigger] ev[m]).0 == k@),
                            decreases extra.len() - j,
                        {
                            assert(ev[j as int] == (extra@[j as int].0@, extra@[j as int].1@));
                            if crate::text::same_chars(&kc, &chars_of(extra[j].0.as_str())) {
                                hit = true;
                            }
                            j = j + 1;
                        }
                        hit
                    },
                    _ => false,
                };
                if !drop {
                    let k = crate::canonical::copy_value(&old[i].0);
                    let v = crate::canonical::copy_value(&old[i].1);
                    proof {
                        lemma_data_pairs_push(entries@, k, v);
                    }
                    entries.push((k, v));
                }
                i = i + 1;
            }
            assert(d.take(i as int) =~= d);
        },
        _ => {},
    }
    let ghost kept = data_pairs(entries@);
    let mut j: usize = 0;
    while j < extra.len()
        invariant
            j <= extra.len(),
            ev == extra_views(extra@),
            data_pairs(entries@) == kept + Seq::new(j as nat, |m: int| (Data::Text(ev[m].0), Data::Text(ev[m].1))),
        decreases extra.len() - j,
    {
        let ghost before = data_pairs(entries@);
        let k = Value::Text(extra[j].0.clone());
        let v = Value::Text(extra[j].1.clone());
        proof {
            lemma_data_pairs_push(entries@, k, v);
        }
        entries.push((k, v));
        assert(data_pairs(entries@) =~= kept + Seq::new((j + 1) as nat, |m: int| (Data::Text(ev[m].0), Data::Text(ev[m].1))));
        j = j + 1;
    }
    let ghost with_extra = data_pairs(entries@);
    let ghost iv = input_views(inputs@);
    if inputs.len() > 0 {
        let mut list: Vec<(Value, Value)> = Vec::new();
        let mut k: usize = 0;
        proof {
            assert(data_pairs(list@) =~= Seq::<(Data, Data)>::empty());
        }
        while k < inputs.len()
            invariant
                k <= inputs.len(),
                iv == input_views(inputs@),
                data_pairs(list@) == Seq::new(k as nat, |m: int| (Data::Text(iv[m].0), input_data(iv[m].1))),
            decreases inputs.len() - k,
        {
            let key = Value::Text(inputs[k].0.clone());
            let val = inputs[k].1.to_value();
            proof {
                lemma_data_pairs_push(list@, key, val);
            }
            list.push((key, val));
            assert(data_pairs(list@) =~= Seq::new((k + 1) as nat, |m: int| (Data::Text(iv[m].0), input_data(iv[m].1))));
            k = k + 1;
        }
        put(&mut entries, "inputs", Value::Table(list));
    }
    let count = entries.len();
    proof {
        crate::cbor::lemma_data_pairs(entries@);
        assert(count <= usize::MAX);
    }
    let t = Tdr { record: tdr.record.clone(), kind: tdr.kind.clone(), body: Value::Table(entries) };
    assert(data_pairs(entries@) =~= body_with(tdr@.body, iv, ev)->Table_0);
    t
}

/// The text field `name` of a transform's body.
pub open spec fn body_text(body: Data, name: Seq<char>) -> Option<Seq<char>> {
    match body {
        Data::Table(entries) => text_entry(entries, name),
        _ => None,
    }
}

/// Why a transform names no usable module, if it does not.
pub open spec fn module_error(body: Data) -> Option<Seq<char>> {
    match body_text(body, "module"@) {
        None => Some("a wasm-transform names its module"@),
        Some(t) => if loose_blob(t) is None {
            Some("module "@ + crate::ops::debug_quoted(t) + " is not a blob hash"@)
        } else {
            None
        },
    }
}

/// The blob that holds a transform's module.
pub fn module_blob(tdr: &Tdr) -> (r: Result<BlobHash, String>)
    ensures
        match r {
            Ok(h) => module_error(tdr@.body) is None && (body_text(tdr@.body, "module"@) matches Some(t) && loose_blob(t) == Some(h@)),
            Err(e) => module_error(tdr@.body) == Some(e@),
        },
{
    let text = match crate::routing::text_field(tdr, "module") {
        Some(t) => t,
        None => return Err(owned("a wasm-transform names its module")),
    };
    match read_loose_blob(text.as_str()) {
        Some(h) => Ok(h),
        None => {
            let mut m = chars_of("module ");
            append(&mut m, &chars_of(crate::ops::quoted(text.as_str()).as_str()));
            append(&mut m, &chars_of(" is not a blob hash"));
            Err(string_of(&m))
        },
    }
}

/// Whether every hash an input holds has the 32 bytes of a digest.
pub open spec fn input_wf(i: InputV) -> bool {
    match i {
        InputV::Ci(c) => c.len() == 32,
        InputV::Pinned { ci, blob, .. } => blob.len() == 32 && (ci matches Some(c) ==> c.len() == 32),
        _ => true,
    }
}

/// An input read back from its map is the input.
#[verifier::spinoff_prover]
#[verifier::rlimit(40)]
pub proof fn law_input_round_trip(i: InputV)
    requires
        input_wf(i),
    ensures
        decode_input(input_data(i)) == Some(i),
{
    reveal_strlit("blob");
    reveal_strlit("ci");
    reveal_strlit("url");
    reveal_strlit("query");
    reveal_strlit("kind");
    reveal_strlit("name");
    reveal_with_fuel(field, 3);
    reveal_with_fuel(text_entry, 3);
    match i {
        InputV::Ci(c) => {
            let e = seq![(Data::Text("ci"@), Data::Text(prefixed_text(ci_prefix(), c)))];
            assert(e.drop_first() =~= Seq::<(Data, Data)>::empty());
            assert("ci"@.len() == 2 && "blob"@.len() == 4);
            assert("ci"@ != "blob"@);
            assert(field(e, "blob"@) is None);
            assert(field(e, "ci"@) == Some(Data::Text(prefixed_text(ci_prefix(), c))));
            crate::address::lemma_prefixed_round_trip(ci_prefix(), c);
            assert(input_data(i) == Data::Table(e));
            assert(parse_prefixed(prefixed_text(ci_prefix(), c), ci_prefix()) == Some(c));
            assert(decode_input(input_data(i)) == Some(i));
        },
        InputV::Url(u) => {
            let e = seq![(Data::Text("url"@), Data::Text(u))];
            assert(e.drop_first() =~= Seq::<(Data, Data)>::empty());
            assert("url"@.len() == 3 && "blob"@.len() == 4 && "ci"@.len() == 2);
            assert("url"@ != "blob"@ && "url"@ != "ci"@);
            assert(decode_input(input_data(i)) == Some(i));
        },
        InputV::Pinned { ci, url, blob } => {
            let a = (Data::Text("blob"@), Data::Text(blob_word() + hex_of(blob)));
            let base = seq![a];
            assert(base =~= Seq::<(Data, Data)>::empty().push(a));
            crate::fields::lemma_field_push(Seq::<(Data, Data)>::empty(), a.0, a.1);
            let cd = match ci {
                Some(c) => Some(Data::Text(prefixed_text(ci_prefix(), c))),
                None => None,
            };
            let ud = match url {
                Some(u) => Some(Data::Text(u)),
                None => None,
            };
            let s1 = opt_push(base, "ci"@, cd);
            crate::fields::lemma_opt_push(base, "ci"@, cd);
            crate::fields::lemma_opt_push(s1, "url"@, ud);
            let h = hex_of(blob);
            let t = blob_word() + h;
            assert(t.take(5) =~= blob_word());
            assert(t.skip(5) =~= h);
            crate::address::lemma_hex_chars(blob);
            assert(is_hex_digit_at(h, 0));
            assert(is_hex_digit_at(h, 63));
            crate::text::lemma_trimmed_plain(h);
            crate::hex::lemma_parse_hex_of(blob);
            if let Some(c) = ci {
                crate::address::lemma_prefixed_round_trip(ci_prefix(), c);
            }
            assert(decode_input(input_data(i)) == Some(i));
        },
        InputV::Query { kind, name } => {
            let q = seq![(Data::Text("kind"@), Data::Text(kind)), (Data::Text("name"@), Data::Text(name))];
            assert("kind"@[0] != "name"@[0]);
            assert("query"@.len() == 5 && "blob"@.len() == 4 && "ci"@.len() == 2 && "url"@.len() == 3);
            assert(q.drop_first() =~= seq![(Data::Text("name"@), Data::Text(name))]);
            assert(q.drop_first().drop_first() =~= Seq::<(Data, Data)>::empty());
            assert(decode_input(input_data(i)) == Some(i));
        },
    }
}

spec fn is_hex_digit_at(h: Seq<char>, k: int) -> bool {
    crate::hex::is_hex_digit(h[k])
}

proof fn lemma_field_concat(a: Seq<(Data, Data)>, b: Seq<(Data, Data)>, n: Seq<char>)
    ensures
        field(a + b, n) == match field(a, n) {
            Some(x) => Some(x),
            None => field(b, n),
        },
    decreases a.len(),
{
    if a.len() > 0 {
        assert((a + b).drop_first() =~= a.drop_first() + b);
        assert((a + b)[0] == a[0]);
        lemma_field_concat(a.drop_first(), b, n);
    } else {
        assert(a + b =~= b);
    }
}

proof fn lemma_no_field(e: Seq<(Data, Data)>, n: Seq<char>)
    requires
        forall|i: int| 0 <= i < e.len() ==> (#[trigger] e[i]).0 != Data::Text(n),
    ensures
        field(e, n) is None,
    decreases e.len(),
{
    if e.len() > 0 {
        assert forall|i: int| 0 <= i < e.drop_first().len() implies (#[trigger] e.drop_first()[i]).0 != Data::Text(n) by {
            assert(e.drop_first()[i] == e[i + 1]);
        }
        lemma_no_field(e.drop_first(), n);
    }
}

proof fn lemma_kept_no_inputs(e: Seq<(Data, Data)>, extra: Seq<(Seq<char>, Seq<char>)>)
    ensures
        forall|i: int| 0 <= i < kept_entries(e, extra).len() ==> (#[trigger] kept_entries(e, extra)[i]).0 != Data::Text("inputs"@),
    decreases e.len(),
{
    if e.len() > 0 {
        lemma_kept_no_inputs(e.drop_last(), extra);
        let r = kept_entries(e.drop_last(), extra);
        if !replaced(e.last().0, extra) {
            assert forall|i: int| 0 <= i < r.push(e.last()).len() implies (#[trigger] r.push(e.last())[i]).0 != Data::Text("inputs"@) by {
                if i < r.len() {
                    assert(r.push(e.last())[i] == r[i]);
                }
            }
        }
    }
}

proof fn lemma_input_map_listed(iv: Seq<(Seq<char>, InputV)>)
    requires
        forall|i: int| 0 <= i < iv.len() ==> input_wf(#[trigger] iv[i].1),
    ensures
        input_map(Seq::new(iv.len(), |i: int| (Data::Text(iv[i].0), input_data(iv[i].1)))) == as_map(iv),
    decreases iv.len(),
{
    let s = Seq::new(iv.len(), |i: int| (Data::Text(iv[i].0), input_data(iv[i].1)));
    if iv.len() > 0 {
        let t = iv.drop_last();
        assert forall|i: int| 0 <= i < t.len() implies input_wf(#[trigger] t[i].1) by {
            assert(t[i] == iv[i]);
        }
        lemma_input_map_listed(t);
        assert(s.drop_last() =~= Seq::new(t.len(), |i: int| (Data::Text(t[i].0), input_data(t[i].1))));
        law_input_round_trip(iv.last().1);
    } else {
        assert(as_map(iv) =~= Map::<Seq<char>, InputV>::empty());
    }
}

/// The inputs a transform reads back after `with_fields` pinned them are
/// the inputs it was given, when no field set anew is named `inputs`.
pub proof fn law_pinned_inputs_read_back(
    body: Data,
    iv: Seq<(Seq<char>, InputV)>,
    extra: Seq<(Seq<char>, Seq<char>)>,
)
    requires
        forall|i: int| 0 <= i < iv.len() ==> input_wf(#[trigger] iv[i].1),
        forall|i: int| 0 <= i < extra.len() ==> (#[trigger] extra[i]).0 != "inputs"@,
    ensures
        input_map(declared_of(body_with(body, iv, extra))) == as_map(iv),
{
    let base = match body {
        Data::Table(e) => e,
        _ => Seq::empty(),
    };
    let k = kept_entries(base, extra);
    let x = Seq::new(extra.len(), |i: int| (Data::Text(extra[i].0), Data::Text(extra[i].1)));
    let listed = Seq::new(iv.len(), |i: int| (Data::Text(iv[i].0), input_data(iv[i].1)));
    let tail = if iv.len() == 0 {
        Seq::<(Data, Data)>::empty()
    } else {
        seq![(Data::Text("inputs"@), Data::Table(listed))]
    };
    lemma_kept_no_inputs(base, extra);
    lemma_no_field(k, "inputs"@);
    assert forall|i: int| 0 <= i < x.len() implies (#[trigger] x[i]).0 != Data::Text("inputs"@) by {}
    lemma_no_field(x, "inputs"@);
    lemma_field_concat(k, x, "inputs"@);
    lemma_field_concat(k + x, tail, "inputs"@);
    assert(body_with(body, iv, extra) == Data::Table(k + x + tail));
    lemma_input_map_listed(iv);
    if iv.len() == 0 {
        assert(tail =~= Seq::<(Data, Data)>::empty());
        assert(as_map(iv) =~= Map::<Seq<char>, InputV>::empty());
    } else {
        assert(tail.drop_first() =~= Seq::<(Data, Data)>::empty());
    }
}

} // verus!
