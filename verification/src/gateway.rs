//! The HTTP gateway's decisions: decoding request text, naming refs safely,
//! authorising writes, and which handler a request goes to.
use vstd::prelude::*;
use vstd::utf8::{valid_utf8, decode_utf8};
use crate::cbor::utf8_text;
use crate::hex::{pair, pair_ok, pair_value};
use crate::lex::{first_of, find_first, split_on, split_text, contains_run, has_run};
use crate::path::{join, join_spec};
use crate::refs::{name_ok, valid_name, name_le};
use crate::text::{chars_of, string_of, starts_with, has_prefix, tail, slice, owned};
use crate::trust::{TrustLevel, parse_level};

verus! {

pub const TOKEN_FILE: &'static str = "gateway-token";

pub const PORT_FILE: &'static str = "gateway-port";

/// The file holding the gateway's write token under `dir`.
pub fn token_path(dir: &str) -> (p: String)
    ensures
        p@ == join_spec(dir@, TOKEN_FILE@),
{
    join(dir, TOKEN_FILE)
}

/// The file holding the gateway's port under `dir`.
pub fn port_path(dir: &str) -> (p: String)
    ensures
        p@ == join_spec(dir@, PORT_FILE@),
{
    join(dir, PORT_FILE)
}

/// The byte that `%` followed by `h` and `l` spells: two ASCII hex digits.
pub open spec fn pct_pair(h: u8, l: u8) -> Option<u8> {
    if h < 128 && l < 128 && pair_ok(h as char, l as char) {
        Some(pair_value(h as char, l as char))
    } else {
        None
    }
}

/// The bytes that percent-encoded `s` stands for: `%XX` is a byte, `+` is a space.
pub open spec fn pct_bytes(s: Seq<u8>) -> Option<Seq<u8>>
    decreases s.len(),
{
    if s.len() == 0 {
        Some(Seq::empty())
    } else if s[0] == 37u8 {
        if s.len() < 3 {
            None
        } else {
            match pct_pair(s[1], s[2]) {
                Some(b) => match pct_bytes(s.skip(3)) {
                    Some(rest) => Some(seq![b] + rest),
                    None => None,
                },
                None => None,
            }
        }
    } else {
        let b = if s[0] == 43u8 {
            32u8
        } else {
            s[0]
        };
        match pct_bytes(s.skip(1)) {
            Some(rest) => Some(seq![b] + rest),
            None => None,
        }
    }
}

/// The text that percent-encoded `text` stands for, if its bytes decode and are UTF-8.
pub open spec fn pct_decoded(text: Seq<char>) -> Option<Seq<char>> {
    match pct_bytes(vstd::utf8::encode_utf8(text)) {
        Some(b) => if valid_utf8(b) {
            Some(decode_utf8(b))
        } else {
            None
        },
        None => None,
    }
}

fn pct_byte(h: u8, l: u8) -> (r: Option<u8>)
    ensures
        r == pct_pair(h, l),
{
    if h < 128 && l < 128 {
        pair(h as char, l as char)
    } else {
        None
    }
}

/// The text that percent-encoded `text` stands for.
pub fn percent_decode(text: &str) -> (r: Option<String>)
    ensures
        match r {
            Some(t) => pct_decoded(text@) == Some(t@),
            None => pct_decoded(text@) is None,
        },
{
    let input = text.as_bytes();
    let mut out: Vec<u8> = Vec::new();
    let mut i: usize = 0;
    assert(input@.skip(0) =~= input@);
    while i < input.len()
        invariant
            i <= input.len(),
            input@ == vstd::utf8::encode_utf8(text@),
            match pct_bytes(input@.skip(i as int)) {
                Some(rest) => pct_bytes(input@) == Some(out@ + rest),
                None => pct_bytes(input@) is None,
            },
        decreases input.len() - i,
    {
        let ghost s = input@.skip(i as int);
        let b = input[i];
        assert(s[0] == b);
        if b == 37 {
            if input.len() - i < 3 {
                return None;
            }
            assert(s[1] == input@[i + 1] && s[2] == input@[i + 2]);
            match pct_byte(input[i + 1], input[i + 2]) {
                Some(v) => {
                    assert(s.skip(3) =~= input@.skip(i + 3));
                    let ghost before = out@;
                    out.push(v);
                    proof {
                        match pct_bytes(input@.skip(i + 3)) {
                            Some(rest) => {
                                assert(before + (seq![v] + rest) =~= out@ + rest);
                            },
                            None => {},
                        }
                    }
                    i = i + 3;
                },
                None => return None,
            }
        } else {
            let v: u8 = if b == 43 {
                32
            } else {
                b
            };
            assert(s.skip(1) =~= input@.skip(i + 1));
            let ghost before = out@;
            out.push(v);
            proof {
                match pct_bytes(input@.skip(i + 1)) {
                    Some(rest) => {
                        assert(before + (seq![v] + rest) =~= out@ + rest);
                    },
                    None => {},
                }
            }
            i = i + 1;
        }
    }
    assert(input@.skip(i as int) =~= Seq::<u8>::empty());
    assert(out@ + Seq::<u8>::empty() =~= out@);
    utf8_text(out.as_slice())
}

/// The name of the ref whose manifest `/gateway/ref/<name>/manifest` asks
/// for: one plain segment, never a path out of the refs directory.
pub open spec fn manifest_name_spec(path: Seq<char>) -> Option<Seq<char>> {
    let head = "/gateway/ref/"@;
    let tail_text = "/manifest"@;
    if starts_with(path, head) && path.len() >= head.len() + tail_text.len() && path.skip(
        path.len() - tail_text.len(),
    ) == tail_text {
        let name = path.subrange(head.len() as int, path.len() - tail_text.len());
        if name.len() == 0 || first_of(name, '/') is Some || first_of(name, '\\') is Some
            || contains_run(name, ".."@) {
            None
        } else {
            Some(name)
        }
    } else {
        None
    }
}

/// The ref name in a manifest path.
pub fn manifest_ref_name(path: &str) -> (r: Option<String>)
    ensures
        match r {
            Some(n) => manifest_name_spec(path@) == Some(n@),
            None => manifest_name_spec(path@) is None,
        },
{
    proof {
        reveal_strlit("/gateway/ref/");
        reveal_strlit("/manifest");
    }
    let cs = chars_of(path);
    let head = chars_of("/gateway/ref/");
    let end = chars_of("/manifest");
    if !has_prefix(&cs, &head) || cs.len() < head.len() + end.len() {
        return None;
    }
    let last = tail(&cs, cs.len() - end.len());
    if !crate::text::same_chars(&last, &end) {
        return None;
    }
    let name = slice(&cs, head.len(), cs.len() - end.len());
    if name.len() == 0 || find_first(&name, '/').is_some() || find_first(&name, '\\').is_some()
        || has_run(&name, &chars_of("..")) {
        return None;
    }
    Some(string_of(&name))
}

/// A collection name in a request path: percent-decoded and a usable ref name.
pub fn collection_name(raw: &str) -> (r: Option<String>)
    ensures
        match r {
            Some(n) => pct_decoded(raw@) == Some(n@) && name_ok(n@),
            None => pct_decoded(raw@) is None || !name_ok(pct_decoded(raw@)->0),
        },
{
    match percent_decode(raw) {
        Some(n) => if valid_name(n.as_str()) {
            Some(n)
        } else {
            None
        },
        None => None,
    }
}

/// `m` with `k` set to `v`, keeping the keys in increasing order, each once.
pub open spec fn assoc_put(m: Seq<(Seq<char>, Seq<char>)>, k: Seq<char>, v: Seq<char>) -> Seq<
    (Seq<char>, Seq<char>),
>
    decreases m.len(),
{
    if m.len() == 0 {
        seq![(k, v)]
    } else if m.last().0 == k {
        m.drop_last().push((k, v))
    } else if name_le(m.last().0, k) {
        m.push((k, v))
    } else {
        assoc_put(m.drop_last(), k, v).push(m.last())
    }
}

/// The parameters a query string sets, as `key=value` pairs between `&`s,
/// each percent-decoded; pairs that do not decode are skipped, later ones win.
pub open spec fn params_of(pairs: Seq<Seq<char>>) -> Seq<(Seq<char>, Seq<char>)>
    decreases pairs.len(),
{
    if pairs.len() == 0 {
        Seq::empty()
    } else {
        let m = params_of(pairs.drop_last());
        match pair_param(pairs.last()) {
            Some((k, v)) => assoc_put(m, k, v),
            None => m,
        }
    }
}

/// The key and value that one `key=value` pair sets, both percent-decoded.
pub open spec fn pair_param(p: Seq<char>) -> Option<(Seq<char>, Seq<char>)> {
    match first_of(p, '=') {
        Some(i) => match (pct_decoded(p.take(i)), pct_decoded(p.skip(i + 1))) {
            (Some(k), Some(v)) => Some((k, v)),
            _ => None,
        },
        None => None,
    }
}

fn read_pair(p: &Vec<char>) -> (r: Option<(String, String)>)
    ensures
        match r {
            Some((k, v)) => pair_param(p@) == Some((k@, v@)),
            None => pair_param(p@) is None,
        },
{
    match find_first(p, '=') {
        Some(e) => {
            assert(e < p.len());
            let key = percent_decode(string_of(&slice(p, 0, e)).as_str());
            let value = percent_decode(string_of(&tail(p, e + 1)).as_str());
            match (key, value) {
                (Some(k), Some(v)) => Some((k, v)),
                _ => None,
            }
        },
        None => None,
    }
}

pub open spec fn params_spec(query: Seq<char>) -> Seq<(Seq<char>, Seq<char>)> {
    params_of(split_on(query, "&"@))
}

pub open spec fn param_views(v: Seq<(String, String)>) -> Seq<(Seq<char>, Seq<char>)> {
    Seq::new(v.len(), |i: int| (v[i].0@, v[i].1@))
}

fn chars_eq(a: &Vec<char>, b: &Vec<char>) -> (r: bool)
    ensures
        r == (a@ == b@),
{
    crate::text::same_chars(a, b)
}

fn put_param(m: &mut Vec<(String, String)>, k: String, v: String)
    ensures
        param_views(final(m)@) == assoc_put(param_views(old(m)@), k@, v@),
    decreases old(m)@.len(),
{
    let n = m.len();
    if n == 0 {
        m.push((k, v));
        assert(param_views(m@) =~= seq![(k@, v@)]);
        return;
    }
    let ghost before = param_views(m@);
    let last_key = chars_of(m[n - 1].0.as_str());
    let key = chars_of(k.as_str());
    assert(before.last() == (m@[n - 1].0@, m@[n - 1].1@));
    if chars_eq(&last_key, &key) {
        m.set(n - 1, (k, v));
        assert(param_views(m@) =~= before.drop_last().push((k@, v@)));
    } else if crate::refs::chars_le(&last_key, &key) {
        m.push((k, v));
        assert(param_views(m@) =~= before.push((k@, v@)));
    } else {
        let top = m.pop().unwrap();
        assert(param_views(m@) =~= before.drop_last());
        put_param(m, k, v);
        let ghost mid = param_views(m@);
        m.push(top);
        assert(param_views(m@) =~= mid.push(before.last()));
    }
}

/// The parameters that `query` sets, sorted by key.
pub fn parse_params(query: &str) -> (m: Vec<(String, String)>)
    ensures
        param_views(m@) == params_spec(query@),
{
    proof {
        reveal_strlit("&");
    }
    let pairs = split_text(&chars_of(query), &chars_of("&"));
    let ghost ps = split_on(query@, "&"@);
    let mut m: Vec<(String, String)> = Vec::new();
    let mut i: usize = 0;
    assert(param_views(m@) =~= params_of(ps.take(0)));
    while i < pairs.len()
        invariant
            i <= pairs.len(),
            pairs@.len() == ps.len(),
            forall|j: int| 0 <= j < pairs@.len() ==> (#[trigger] pairs@[j])@ == ps[j],
            param_views(m@) == params_of(ps.take(i as int)),
        decreases pairs.len() - i,
    {
        assert(ps.take(i + 1).drop_last() =~= ps.take(i as int));
        assert(ps.take(i + 1).last() == pairs@[i as int]@);
        match read_pair(&pairs[i]) {
            Some((k, v)) => put_param(&mut m, k, v),
            None => {},
        }
        i = i + 1;
    }
    assert(ps.take(i as int) =~= ps);
    m
}

/// The value a sorted parameter list gives `key`.
pub open spec fn param_get(m: Seq<(Seq<char>, Seq<char>)>, key: Seq<char>) -> Option<Seq<char>>
    decreases m.len(),
{
    if m.len() == 0 {
        None
    } else if m.last().0 == key {
        Some(m.last().1)
    } else {
        param_get(m.drop_last(), key)
    }
}

fn lookup_param(m: &Vec<(String, String)>, key: &str) -> (r: Option<String>)
    ensures
        match r {
            Some(v) => param_get(param_views(m@), key@) == Some(v@),
            None => param_get(param_views(m@), key@) is None,
        },
{
    let k = chars_of(key);
    let ghost pv = param_views(m@);
    let mut i = m.len();
    assert(pv.take(i as int) =~= pv);
    while i > 0
        invariant
            i <= m@.len(),
            pv == param_views(m@),
            param_get(pv, key@) == param_get(pv.take(i as int), key@),
            k@ == key@,
        decreases i,
    {
        let ghost t = pv.take(i as int);
        assert(t.last() == (m@[i - 1].0@, m@[i - 1].1@));
        assert(t.drop_last() =~= pv.take(i - 1));
        if chars_eq(&chars_of(m[i - 1].0.as_str()), &k) {
            return Some(m[i - 1].1.clone());
        }
        i = i - 1;
    }
    None
}

/// What a named resolver is asked: its name and the query's parameters.
#[derive(Debug, Clone, PartialEq, Eq)]
pub struct ResolveRequest {
    pub name: String,
    pub params: Vec<(String, String)>,
}

impl ResolveRequest {
    /// The value of the parameter `key`.
    pub fn get(&self, key: &str) -> (r: Option<String>)
        ensures
            match r {
                Some(v) => param_get(param_views(self.params@), key@) == Some(v@),
                None => param_get(param_views(self.params@), key@) is None,
            },
    {
        lookup_param(&self.params, key)
    }
}

/// What a resolver answers.
#[derive(Debug, Clone, PartialEq, Eq)]
pub struct ResolveReply {
    pub status: u16,
    pub content_type: String,
    pub body: Vec<u8>,
}

impl ResolveReply {
    /// A JSON reply with `body` as its text.
    pub fn json(status: u16, body: &str) -> (r: Self)
        ensures
            r.status == status,
            r.content_type@ == "application/json"@,
            r.body@ == vstd::utf8::encode_utf8(body@),
    {
        ResolveReply {
            status,
            content_type: owned("application/json"),
            body: crate::fetch::bytes_of(body.as_bytes()),
        }
    }
}

/// The content type a gateway reply carries for what a resolver names:
/// JSON and plain text pass, anything else is served as bytes.
pub open spec fn served_type(t: Seq<char>) -> Seq<char> {
    if t == "application/json"@ {
        "application/json"@
    } else if t == "text/plain"@ {
        "text/plain"@
    } else {
        "application/octet-stream"@
    }
}

pub fn served_content_type(t: &str) -> (r: &'static str)
    ensures
        r@ == served_type(t@),
{
    if crate::record::same_text(t, "application/json") {
        "application/json"
    } else if crate::record::same_text(t, "text/plain") {
        "text/plain"
    } else {
        "application/octet-stream"
    }
}

/// A gateway reply.
#[derive(Debug, Clone, PartialEq, Eq)]
pub struct Response {
    pub status: u16,
    pub content_type: String,
    pub immutable: bool,
    pub body: Vec<u8>,
    pub disposition: Option<String>,
}

/// A request to the gateway.
#[derive(Debug, Clone, PartialEq, Eq)]
pub struct Request {
    pub method: String,
    pub path: String,
    pub query: String,
    pub bearer: Option<String>,
    pub body: Vec<u8>,
}

/// The UTF-8 bytes of an optional text.
pub open spec fn text_bytes(o: Option<&str>) -> Option<Seq<u8>> {
    match o {
        Some(t) => Some(vstd::utf8::encode_utf8(t@)),
        None => None,
    }
}

/// Why a write is refused: its status and message.
pub open spec fn write_refusal(local: bool, token: Option<Seq<u8>>, bearer: Option<Seq<u8>>) -> Option<(u16, Seq<char>)> {
    if local {
        None
    } else {
        match token {
            None => Some((403u16, "writes are disabled on this gateway: no token"@)),
            Some(t) => match bearer {
                None => Some((401u16, "writes need a bearer token"@)),
                Some(b) => if b == t {
                    None
                } else {
                    Some((401u16, "wrong token"@))
                },
            },
        }
    }
}

/// Whether a write may go ahead: from the local socket always; over HTTP
/// only with a bearer token equal to the gateway's.
pub fn authorized(local: bool, token: Option<&str>, bearer: Option<&str>) -> (r: Result<(), (u16, String)>)
    ensures
        match r {
            Ok(()) => write_refusal(
                local,
                match token {
                    Some(t) => Some(vstd::utf8::encode_utf8(t@)),
                    None => None,
                },
                match bearer {
                    Some(b) => Some(vstd::utf8::encode_utf8(b@)),
                    None => None,
                },
            ) is None,
            Err((status, message)) => write_refusal(
                local,
                match token {
                    Some(t) => Some(vstd::utf8::encode_utf8(t@)),
                    None => None,
                },
                match bearer {
                    Some(b) => Some(vstd::utf8::encode_utf8(b@)),
                    None => None,
                },
            ) == Some((status, message@)),
        },
{
    if local {
        return Ok(());
    }
    let token = match token {
        Some(t) => t,
        None => return Err((403, owned("writes are disabled on this gateway: no token"))),
    };
    let bearer = match bearer {
        Some(b) => b,
        None => return Err((401, owned("writes need a bearer token"))),
    };
    if !crate::pair::constant_time_eq(bearer.as_bytes(), token.as_bytes()) {
        return Err((401, owned("wrong token")));
    }
    Ok(())
}

/// The file name a blob is offered under: the characters of the asked name
/// that are ASCII letters, digits, `.`, `_` or `-`; none when no name is asked.
pub open spec fn disposition_spec(name: Option<Seq<char>>) -> Option<Seq<char>> {
    match name {
        Some(n) => if n.len() > 0 {
            Some(n.filter(|c: char| crate::refs::seg_char(c)))
        } else {
            None
        },
        None => None,
    }
}

pub fn disposition(name: Option<String>) -> (r: Option<String>)
    ensures
        match r {
            Some(d) => disposition_spec(
                match name {
                    Some(n) => Some(n@),
                    None => None,
                },
            ) == Some(d@),
            None => disposition_spec(
                match name {
                    Some(n) => Some(n@),
                    None => None,
                },
            ) is None,
        },
{
    let n = match name {
        Some(n) => n,
        None => return None,
    };
    let cs = chars_of(n.as_str());
    if cs.len() == 0 {
        return None;
    }
    let ghost f = |c: char| crate::refs::seg_char(c);
    let mut out: Vec<char> = Vec::new();
    let mut i: usize = 0;
    assert(cs@.take(0).filter(f) =~= Seq::<char>::empty());
    while i < cs.len()
        invariant
            i <= cs.len(),
            f == (|c: char| crate::refs::seg_char(c)),
            out@ == cs@.take(i as int).filter(f),
        decreases cs.len() - i,
    {
        assert(cs@.take(i + 1) =~= cs@.take(i as int).push(cs@[i as int]));
        proof {
            cs@.take(i as int).lemma_filter_push(cs@[i as int], f);
        }
        if crate::refs::is_seg_char(cs[i]) {
            out.push(cs[i]);
        }
        i = i + 1;
    }
    assert(cs@.take(i as int) =~= cs@);
    Some(string_of(&out))
}

} // verus!

verus! {

/// Which handler answers a GET, with what it needs from the path and query.
#[derive(Debug)]
pub enum GetPlan {
    Pair,
    Members,
    Ui,
    Status,
    Stats,
    Refs,
    Modules,
    Blobs,
    Index,
    Collections,
    Trust,
    Resolvers,
    Resolve { name: String, params: Vec<(String, String)> },
    BadResolverName,
    Manifest { name: String },
    Blob { hash: String, name: Option<String> },
    Record { hash: String },
    Artifacts { ci: String, minimum: TrustLevel, td: Option<String> },
    CollectionOps { name: String },
    Collection { name: String },
    NotACollection,
    Unknown,
}

pub enum GetPlanV {
    Pair,
    Members,
    Ui,
    Status,
    Stats,
    Refs,
    Modules,
    Blobs,
    Index,
    Collections,
    Trust,
    Resolvers,
    Resolve { name: Seq<char>, params: Seq<(Seq<char>, Seq<char>)> },
    BadResolverName,
    Manifest { name: Seq<char> },
    Blob { hash: Seq<char>, name: Option<Seq<char>> },
    Record { hash: Seq<char> },
    Artifacts { ci: Seq<char>, minimum: TrustLevel, td: Option<Seq<char>> },
    CollectionOps { name: Seq<char> },
    Collection { name: Seq<char> },
    NotACollection,
    Unknown,
}

pub open spec fn str_opt(o: Option<String>) -> Option<Seq<char>> {
    match o {
        Some(s) => Some(s@),
        None => None,
    }
}

impl View for GetPlan {
    type V = GetPlanV;

    open spec fn view(&self) -> GetPlanV {
        match self {
            GetPlan::Pair => GetPlanV::Pair,
            GetPlan::Members => GetPlanV::Members,
            GetPlan::Ui => GetPlanV::Ui,
            GetPlan::Status => GetPlanV::Status,
            GetPlan::Stats => GetPlanV::Stats,
            GetPlan::Refs => GetPlanV::Refs,
            GetPlan::Modules => GetPlanV::Modules,
            GetPlan::Blobs => GetPlanV::Blobs,
            GetPlan::Index => GetPlanV::Index,
            GetPlan::Collections => GetPlanV::Collections,
            GetPlan::Trust => GetPlanV::Trust,
            GetPlan::Resolvers => GetPlanV::Resolvers,
            GetPlan::Resolve { name, params } => GetPlanV::Resolve {
                name: name@,
                params: param_views(params@),
            },
            GetPlan::BadResolverName => GetPlanV::BadResolverName,
            GetPlan::Manifest { name } => GetPlanV::Manifest { name: name@ },
            GetPlan::Blob { hash, name } => GetPlanV::Blob { hash: hash@, name: str_opt(*name) },
            GetPlan::Record { hash } => GetPlanV::Record { hash: hash@ },
            GetPlan::Artifacts { ci, minimum, td } => GetPlanV::Artifacts {
                ci: ci@,
                minimum: *minimum,
                td: str_opt(*td),
            },
            GetPlan::CollectionOps { name } => GetPlanV::CollectionOps { name: name@ },
            GetPlan::Collection { name } => GetPlanV::Collection { name: name@ },
            GetPlan::NotACollection => GetPlanV::NotACollection,
            GetPlan::Unknown => GetPlanV::Unknown,
        }
    }
}

/// `s` with `head` taken off its front, if it starts so.
pub open spec fn after(s: Seq<char>, head: Seq<char>) -> Option<Seq<char>> {
    if starts_with(s, head) {
        Some(s.skip(head.len() as int))
    } else {
        None
    }
}

/// The handler for a collection path `rest` (after `/gateway/collection/`).
pub open spec fn collection_plan(rest: Seq<char>) -> GetPlanV {
    let tail_text = "/ops"@;
    if rest.len() >= tail_text.len() && rest.skip(rest.len() - tail_text.len()) == tail_text {
        let raw = rest.take(rest.len() - tail_text.len());
        match pct_decoded(raw) {
            Some(n) => if name_ok(n) {
                GetPlanV::CollectionOps { name: n }
            } else {
                GetPlanV::NotACollection
            },
            None => GetPlanV::NotACollection,
        }
    } else {
        match pct_decoded(rest) {
            Some(n) => if name_ok(n) {
                GetPlanV::Collection { name: n }
            } else {
                GetPlanV::NotACollection
            },
            None => GetPlanV::NotACollection,
        }
    }
}

/// The handler a GET of `path` with `query` goes to.
pub open spec fn get_plan(path: Seq<char>, query: Seq<char>) -> GetPlanV {
    if path == "/gateway/pair"@ {
        GetPlanV::Pair
    } else if path == "/gateway/members"@ {
        GetPlanV::Members
    } else if path == "/"@ || path == "/ui"@ || path == "/index.html"@ {
        GetPlanV::Ui
    } else if path == "/gateway/status"@ {
        GetPlanV::Status
    } else if path == "/gateway/stats"@ {
        GetPlanV::Stats
    } else if path == "/gateway/refs"@ {
        GetPlanV::Refs
    } else if path == "/gateway/modules"@ {
        GetPlanV::Modules
    } else if path == "/gateway/blobs"@ {
        GetPlanV::Blobs
    } else if path == "/gateway/index"@ {
        GetPlanV::Index
    } else if path == "/gateway/collections"@ {
        GetPlanV::Collections
    } else if path == "/gateway/trust"@ {
        GetPlanV::Trust
    } else if path == "/gateway/resolvers"@ {
        GetPlanV::Resolvers
    } else if let Some(name) = after(path, "/gateway/resolve/"@) {
        match pct_decoded(name) {
            Some(n) => if n.len() > 0 {
                GetPlanV::Resolve { name: n, params: params_spec(query) }
            } else {
                GetPlanV::BadResolverName
            },
            None => GetPlanV::BadResolverName,
        }
    } else if let Some(name) = manifest_name_spec(path) {
        GetPlanV::Manifest { name }
    } else if let Some(hash) = after(path, "/gateway/blob/"@) {
        GetPlanV::Blob { hash, name: param_get(params_spec(query), "name"@) }
    } else if let Some(hash) = after(path, "/gateway/record/"@) {
        GetPlanV::Record { hash }
    } else if let Some(ci) = after(path, "/gateway/artifacts/"@) {
        let params = params_spec(query);
        GetPlanV::Artifacts {
            ci,
            minimum: match param_get(params, "min"@) {
                Some(m) => match parse_level(m) {
                    Some(l) => l,
                    None => TrustLevel::Cache,
                },
                None => TrustLevel::Cache,
            },
            td: param_get(params, "td"@),
        }
    } else if let Some(rest) = after(path, "/gateway/collection/"@) {
        collection_plan(rest)
    } else {
        GetPlanV::Unknown
    }
}

/// `s` after `head`, if it starts so.
pub fn strip_prefix_text(s: &str, head: &str) -> (r: Option<String>)
    ensures
        match r {
            Some(t) => after(s@, head@) == Some(t@),
            None => after(s@, head@) is None,
        },
{
    let cs = chars_of(s);
    let h = chars_of(head);
    if has_prefix(&cs, &h) {
        Some(string_of(&tail(&cs, h.len())))
    } else {
        None
    }
}

fn plan_collection(rest: &str) -> (p: GetPlan)
    ensures
        p@ == collection_plan(rest@),
{
    proof {
        reveal_strlit("/ops");
    }
    let cs = chars_of(rest);
    let end = chars_of("/ops");
    if cs.len() >= end.len() && crate::text::same_chars(&tail(&cs, cs.len() - end.len()), &end) {
        let raw = string_of(&slice(&cs, 0, cs.len() - end.len()));
        match collection_name(raw.as_str()) {
            Some(name) => GetPlan::CollectionOps { name },
            None => GetPlan::NotACollection,
        }
    } else {
        match collection_name(rest) {
            Some(name) => GetPlan::Collection { name },
            None => GetPlan::NotACollection,
        }
    }
}

fn level_or_cache(m: Option<String>) -> (l: TrustLevel)
    ensures
        l == match str_opt(m) {
            Some(t) => match parse_level(t) {
                Some(l) => l,
                None => TrustLevel::Cache,
            },
            None => TrustLevel::Cache,
        },
{
    match m {
        Some(t) => match TrustLevel::parse(t.as_str()) {
            Some(l) => l,
            None => TrustLevel::Cache,
        },
        None => TrustLevel::Cache,
    }
}

/// The handler a GET of `path` with `query` goes to.
pub fn plan_get(path: &str, query: &str) -> (p: GetPlan)
    ensures
        p@ == get_plan(path@, query@),
{
    if crate::record::same_text(path, "/gateway/pair") {
        return GetPlan::Pair;
    }
    if crate::record::same_text(path, "/gateway/members") {
        return GetPlan::Members;
    }
    if crate::record::same_text(path, "/") || crate::record::same_text(path, "/ui")
        || crate::record::same_text(path, "/index.html") {
        return GetPlan::Ui;
    }
    if crate::record::same_text(path, "/gateway/status") {
        return GetPlan::Status;
    }
    if crate::record::same_text(path, "/gateway/stats") {
        return GetPlan::Stats;
    }
    if crate::record::same_text(path, "/gateway/refs") {
        return GetPlan::Refs;
    }
    if crate::record::same_text(path, "/gateway/modules") {
        return GetPlan::Modules;
    }
    if crate::record::same_text(path, "/gateway/blobs") {
        return GetPlan::Blobs;
    }
    if crate::record::same_text(path, "/gateway/index") {
        return GetPlan::Index;
    }
    if crate::record::same_text(path, "/gateway/collections") {
        return GetPlan::Collections;
    }
    if crate::record::same_text(path, "/gateway/trust") {
        return GetPlan::Trust;
    }
    if crate::record::same_text(path, "/gateway/resolvers") {
        return GetPlan::Resolvers;
    }
    if let Some(name) = strip_prefix_text(path, "/gateway/resolve/") {
        return match percent_decode(name.as_str()) {
            Some(n) => if !crate::text::no_chars(n.as_str()) {
                GetPlan::Resolve { name: n, params: parse_params(query) }
            } else {
                GetPlan::BadResolverName
            },
            None => GetPlan::BadResolverName,
        };
    }
    if let Some(name) = manifest_ref_name(path) {
        return GetPlan::Manifest { name };
    }
    if let Some(hash) = strip_prefix_text(path, "/gateway/blob/") {
        let params = parse_params(query);
        return GetPlan::Blob { hash, name: lookup_param(&params, "name") };
    }
    if let Some(hash) = strip_prefix_text(path, "/gateway/record/") {
        return GetPlan::Record { hash };
    }
    if let Some(ci) = strip_prefix_text(path, "/gateway/artifacts/") {
        let params = parse_params(query);
        let minimum = level_or_cache(lookup_param(&params, "min"));
        let td = lookup_param(&params, "td");
        return GetPlan::Artifacts { ci, minimum, td };
    }
    if let Some(rest) = strip_prefix_text(path, "/gateway/collection/") {
        return plan_collection(rest.as_str());
    }
    GetPlan::Unknown
}

/// Which handler answers a POST.
#[derive(Debug, PartialEq, Eq)]
pub enum PostPlan {
    Pair,
    Revoke,
    Seed,
    Blob,
    Cir,
    Tdr,
    Attest,
    Trust,
    Collection { name: String },
    Unknown,
}

pub enum PostPlanV {
    Pair,
    Revoke,
    Seed,
    Blob,
    Cir,
    Tdr,
    Attest,
    Trust,
    Collection { name: Seq<char> },
    Unknown,
}

impl View for PostPlan {
    type V = PostPlanV;

    open spec fn view(&self) -> PostPlanV {
        match self {
            PostPlan::Pair => PostPlanV::Pair,
            PostPlan::Revoke => PostPlanV::Revoke,
            PostPlan::Seed => PostPlanV::Seed,
            PostPlan::Blob => PostPlanV::Blob,
            PostPlan::Cir => PostPlanV::Cir,
            PostPlan::Tdr => PostPlanV::Tdr,
            PostPlan::Attest => PostPlanV::Attest,
            PostPlan::Trust => PostPlanV::Trust,
            PostPlan::Collection { name } => PostPlanV::Collection { name: name@ },
            PostPlan::Unknown => PostPlanV::Unknown,
        }
    }
}

/// The handler a POST to `path` goes to.
pub open spec fn post_plan(path: Seq<char>) -> PostPlanV {
    if path == "/gateway/pair"@ {
        PostPlanV::Pair
    } else if path == "/gateway/revoke"@ {
        PostPlanV::Revoke
    } else if path == "/gateway/seed"@ {
        PostPlanV::Seed
    } else if path == "/gateway/blob"@ {
        PostPlanV::Blob
    } else if path == "/gateway/cir"@ {
        PostPlanV::Cir
    } else if path == "/gateway/tdr"@ {
        PostPlanV::Tdr
    } else if path == "/gateway/attest"@ {
        PostPlanV::Attest
    } else if path == "/gateway/trust"@ {
        PostPlanV::Trust
    } else {
        match after(path, "/gateway/collection/"@) {
            Some(rest) => match pct_decoded(rest) {
                Some(n) => if name_ok(n) {
                    PostPlanV::Collection { name: n }
                } else {
                    PostPlanV::Unknown
                },
                None => PostPlanV::Unknown,
            },
            None => PostPlanV::Unknown,
        }
    }
}

pub fn plan_post(path: &str) -> (p: PostPlan)
    ensures
        p@ == post_plan(path@),
{
    if crate::record::same_text(path, "/gateway/pair") {
        PostPlan::Pair
    } else if crate::record::same_text(path, "/gateway/revoke") {
        PostPlan::Revoke
    } else if crate::record::same_text(path, "/gateway/seed") {
        PostPlan::Seed
    } else if crate::record::same_text(path, "/gateway/blob") {
        PostPlan::Blob
    } else if crate::record::same_text(path, "/gateway/cir") {
        PostPlan::Cir
    } else if crate::record::same_text(path, "/gateway/tdr") {
        PostPlan::Tdr
    } else if crate::record::same_text(path, "/gateway/attest") {
        PostPlan::Attest
    } else if crate::record::same_text(path, "/gateway/trust") {
        PostPlan::Trust
    } else {
        match strip_prefix_text(path, "/gateway/collection/") {
            Some(rest) => match collection_name(rest.as_str()) {
                Some(name) => PostPlan::Collection { name },
                None => PostPlan::Unknown,
            },
            None => PostPlan::Unknown,
        }
    }
}

/// What the gateway does with a request: its method decides, and a write
/// must be authorised first.
#[derive(Debug)]
pub enum Dispatch {
    Options,
    Get(GetPlan),
    Post(PostPlan),
    Denied(u16, String),
    BadMethod,
}

pub enum DispatchV {
    Options,
    Get(GetPlanV),
    Post(PostPlanV),
    Denied(u16, Seq<char>),
    BadMethod,
}

impl View for Dispatch {
    type V = DispatchV;

    open spec fn view(&self) -> DispatchV {
        match self {
            Dispatch::Options => DispatchV::Options,
            Dispatch::Get(p) => DispatchV::Get(p@),
            Dispatch::Post(p) => DispatchV::Post(p@),
            Dispatch::Denied(s, m) => DispatchV::Denied(*s, m@),
            Dispatch::BadMethod => DispatchV::BadMethod,
        }
    }
}

/// The dispatch of a request: a preflight is answered at once, a read goes
/// to the handler its path and query name, a write to the handler its path
/// names once it is authorised, and any other method is refused.
pub open spec fn dispatch_spec(
    method: Seq<char>,
    path: Seq<char>,
    query: Seq<char>,
    local: bool,
    token: Option<Seq<u8>>,
    bearer: Option<Seq<u8>>,
) -> DispatchV {
    if method == "OPTIONS"@ {
        DispatchV::Options
    } else if method == "GET"@ {
        DispatchV::Get(get_plan(path, query))
    } else if method == "POST"@ {
        match write_refusal(local, token, bearer) {
            None => DispatchV::Post(post_plan(path)),
            Some((s, m)) => DispatchV::Denied(s, m),
        }
    } else {
        DispatchV::BadMethod
    }
}

pub open spec fn bad_method_message() -> Seq<char> {
    "only GET, POST and OPTIONS are served"@
}

pub open spec fn unknown_path_message() -> Seq<char> {
    "unknown gateway path"@
}

pub open spec fn not_a_collection_message() -> Seq<char> {
    "not a collection name"@
}

/// The status and message a dispatch is answered with before any handler
/// runs: 204 to a preflight, 405 to another method, the refusal of a write,
/// and 404 to a path that names no handler.
pub open spec fn fixed_reply_spec(d: DispatchV) -> Option<(u16, Seq<char>)> {
    match d {
        DispatchV::Options => Some((204u16, Seq::empty())),
        DispatchV::BadMethod => Some((405u16, bad_method_message())),
        DispatchV::Denied(s, m) => Some((s, m)),
        DispatchV::Get(GetPlanV::Unknown) => Some((404u16, unknown_path_message())),
        DispatchV::Get(GetPlanV::NotACollection) => Some((404u16, not_a_collection_message())),
        DispatchV::Post(PostPlanV::Unknown) => Some((404u16, unknown_path_message())),
        _ => None,
    }
}

/// The status and message of a dispatch that no handler answers.
pub fn fixed_reply(d: &Dispatch) -> (r: Option<(u16, String)>)
    ensures
        match r {
            Some((s, m)) => fixed_reply_spec(d@) == Some((s, m@)),
            None => fixed_reply_spec(d@) is None,
        },
{
    match d {
        Dispatch::Options => Some((204, String::new())),
        Dispatch::BadMethod => Some((405, owned("only GET, POST and OPTIONS are served"))),
        Dispatch::Denied(s, m) => Some((*s, m.clone())),
        Dispatch::Get(GetPlan::Unknown) => Some((404, owned("unknown gateway path"))),
        Dispatch::Get(GetPlan::NotACollection) => Some((404, owned("not a collection name"))),
        Dispatch::Post(PostPlan::Unknown) => Some((404, owned("unknown gateway path"))),
        _ => None,
    }
}

/// The part of a request target before its first `?`.
pub open spec fn target_path(target: Seq<char>) -> Seq<char> {
    match first_of(target, '?') {
        Some(i) => target.take(i),
        None => target,
    }
}

/// The part of a request target after its first `?`; empty without one.
pub open spec fn target_query(target: Seq<char>) -> Seq<char> {
    match first_of(target, '?') {
        Some(i) => target.skip(i + 1),
        None => Seq::empty(),
    }
}

/// Splits a request target at its first `?` into path and query.
pub fn split_target(target: &str) -> (r: (String, String))
    ensures
        r.0@ == target_path(target@),
        r.1@ == target_query(target@),
{
    let cs = chars_of(target);
    match find_first(&cs, '?') {
        Some(i) => (string_of(&slice(&cs, 0, i)), string_of(&tail(&cs, i + 1))),
        None => (owned(target), String::new()),
    }
}

/// The dispatch of a request with `method` to `path` and `query`.
pub fn route_request(
    method: &str,
    path: &str,
    query: &str,
    local: bool,
    token: Option<&str>,
    bearer: Option<&str>,
) -> (d: Dispatch)
    ensures
        d@ == dispatch_spec(method@, path@, query@, local, text_bytes(token), text_bytes(bearer)),
{
    if crate::record::same_text(method, "OPTIONS") {
        Dispatch::Options
    } else if crate::record::same_text(method, "GET") {
        Dispatch::Get(plan_get(path, query))
    } else if crate::record::same_text(method, "POST") {
        match authorized(local, token, bearer) {
            Ok(()) => Dispatch::Post(plan_post(path)),
            Err((s, m)) => Dispatch::Denied(s, m),
        }
    } else {
        Dispatch::BadMethod
    }
}

/// The dispatch of a request for `target` from outside, on a gateway that
/// holds no token.
pub fn route(method: &str, target: &str) -> (d: Dispatch)
    ensures
        d@ == dispatch_spec(method@, target_path(target@), target_query(target@), false, None, None),
{
    let (path, query) = split_target(target);
    route_request(method, path.as_str(), query.as_str(), false, None, None)
}

/// Whether the gateway takes writes: from the local socket, or with a token set.
pub fn writes_enabled(token: Option<&str>, local: bool) -> (r: bool)
    ensures
        r == (token is Some || local),
{
    token.is_some() || local
}

/// The sum of the sizes of `blobs`.
pub open spec fn total_size(blobs: Seq<crate::ops::BlobInfo>) -> int
    decreases blobs.len(),
{
    if blobs.len() == 0 {
        0
    } else {
        total_size(blobs.drop_last()) + blobs.last().size
    }
}

proof fn lemma_total_grows(blobs: Seq<crate::ops::BlobInfo>, i: int)
    requires
        0 <= i <= blobs.len(),
    ensures
        total_size(blobs.take(i)) <= total_size(blobs),
    decreases blobs.len() - i,
{
    if i < blobs.len() {
        lemma_total_grows(blobs, i + 1);
        assert(blobs.take(i + 1).drop_last() =~= blobs.take(i));
    } else {
        assert(blobs.take(i) =~= blobs);
    }
}

/// How many blobs the store holds and how many bytes they take, as the
/// gateway's statistics report them.
pub fn blob_totals(blobs: &Vec<crate::ops::BlobInfo>) -> (r: (usize, u64))
    requires
        total_size(blobs@) <= u64::MAX,
    ensures
        r.0 == blobs@.len(),
        r.1 == total_size(blobs@),
{
    let mut sum: u64 = 0;
    let mut i: usize = 0;
    while i < blobs.len()
        invariant
            i <= blobs.len(),
            total_size(blobs@) <= u64::MAX,
            sum == total_size(blobs@.take(i as int)),
        decreases blobs.len() - i,
    {
        assert(blobs@.take(i + 1).drop_last() =~= blobs@.take(i as int));
        proof {
            lemma_total_grows(blobs@, i + 1);
        }
        sum = sum + blobs[i].size;
        i = i + 1;
    }
    assert(blobs@.take(i as int) =~= blobs@);
    (blobs.len(), sum)
}

/// Who may write: a write from the local socket always goes ahead; one from
/// outside only when the gateway holds a token and the request bears that
/// same token, and otherwise it is refused with 403 (no token held) or 401.
/// Reads never need a token.
pub proof fn law_writes_need_the_gateway_token(
    path: Seq<char>,
    query: Seq<char>,
    local: bool,
    token: Option<Seq<u8>>,
    bearer: Option<Seq<u8>>,
)
    ensures
        dispatch_spec("POST"@, path, query, true, token, bearer) is Post,
        dispatch_spec("POST"@, path, query, false, token, bearer) is Post <==> (token is Some && bearer == token),
        !(dispatch_spec("POST"@, path, query, false, token, bearer) is Post) ==> (dispatch_spec(
            "POST"@,
            path,
            query,
            false,
            token,
            bearer,
        ) matches DispatchV::Denied(status, _) && status == (if token is None {
            403u16
        } else {
            401u16
        })),
        dispatch_spec("GET"@, path, query, local, token, bearer) is Get,
{
    reveal_strlit("POST");
    reveal_strlit("GET");
    reveal_strlit("OPTIONS");
    assert("POST"@[0] != "OPTIONS"@[0]);
    assert("POST"@[0] != "GET"@[0]);
    assert("GET"@[0] != "OPTIONS"@[0]);
}

} // verus!
