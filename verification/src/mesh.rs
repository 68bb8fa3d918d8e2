//! The mesh's decisions: whom to admit, which refs to follow, when gossip
//! has nothing new, and which node backfills a ref nobody holds.
use vstd::prelude::*;
use crate::gossip::RefAdvert;
use crate::identity::Dgid;
use crate::record::same_text;
use crate::refs::{chars_le, name_le};
use crate::text::{chars_of, string_of, starts_with, trimmed, trim_str, has_prefix, slice, concat, owned};
use crate::trust::{Trust, TrustLevel, rank};

verus! {

/// Failed dials after which a peer counts as unreachable.
pub const DIAL_FAILURE_LIMIT: u32 = 5;

pub const PEERS_FILE: &'static str = "peers";

/// Whether `ids` holds `id`.
pub fn holds_text(ids: &Vec<String>, id: &str) -> (r: bool)
    ensures
        r == exists|i: int| 0 <= i < ids@.len() && (#[trigger] ids@[i])@ == id@,
{
    let mut i: usize = 0;
    while i < ids.len()
        invariant
            i <= ids.len(),
            forall|j: int| 0 <= j < i ==> (#[trigger] ids@[j])@ != id@,
        decreases ids.len() - i,
    {
        if same_text(ids[i].as_str(), id) {
            return true;
        }
        i = i + 1;
    }
    false
}

/// Whether a peer may be added: one that speaks to us always may; one that
/// another peer introduces may not if we forgot it.
pub fn admits_introduction(forgotten: &Vec<String>, id: &str, introduced_by: Option<&str>) -> (r: bool)
    ensures
        r == (introduced_by is None || !exists|i: int|
            0 <= i < forgotten@.len() && (#[trigger] forgotten@[i])@ == id@),
{
    introduced_by.is_none() || !holds_text(forgotten, id)
}

/// `s` without trailing `/`s.
pub open spec fn trim_slashes(s: Seq<char>) -> Seq<char>
    decreases s.len(),
{
    if s.len() > 0 && s.last() == '/' {
        trim_slashes(s.drop_last())
    } else {
        s
    }
}

fn trim_end_slashes(s: &Vec<char>) -> (t: Vec<char>)
    ensures
        t@ == trim_slashes(s@),
{
    let mut n = s.len();
    assert(s@.take(n as int) =~= s@);
    while n > 0 && s[n - 1] == '/'
        invariant
            n <= s.len(),
            trim_slashes(s@) == trim_slashes(s@.take(n as int)),
        decreases n,
    {
        assert(s@.take(n as int).drop_last() =~= s@.take(n - 1));
        n = n - 1;
    }
    proof {
        if n > 0 {
            assert(s@.take(n as int).last() == s@[n - 1]);
        }
    }
    slice(s, 0, n)
}

/// A gateway a seed value names: an `http://` or `https://` URL, trimmed,
/// without trailing slashes.
pub open spec fn gateway_url_spec(value: Seq<char>) -> Option<Seq<char>> {
    let v = trimmed(value);
    if starts_with(v, "http://"@) || starts_with(v, "https://"@) {
        Some(trim_slashes(v))
    } else {
        None
    }
}

pub fn gateway_url(value: &str) -> (r: Option<String>)
    ensures
        match r {
            Some(u) => gateway_url_spec(value@) == Some(u@),
            None => gateway_url_spec(value@) is None,
        },
{
    let v = trim_str(value);
    if has_prefix(&v, &chars_of("http://")) || has_prefix(&v, &chars_of("https://")) {
        Some(string_of(&trim_end_slashes(&v)))
    } else {
        None
    }
}

/// The status endpoint of the gateway at `base`.
pub fn status_url(base: &str) -> (r: String)
    ensures
        r@ == trim_slashes(base@) + "/gateway/status"@,
{
    let b = string_of(&trim_end_slashes(&chars_of(base)));
    concat(b.as_str(), "/gateway/status")
}

/// Whether a seed value is usable: a gateway URL, or else whatever parsing
/// it as a peer address or ticket found.
pub fn is_seed(value: &str, as_peer: Result<(), String>) -> (r: Result<(), String>)
    ensures
        gateway_url_spec(value@) is Some ==> r is Ok,
        gateway_url_spec(value@) is None ==> r == as_peer,
{
    if gateway_url(value).is_some() {
        Ok(())
    } else {
        as_peer
    }
}

/// What `serde_json::from_str` reads in a gateway's status text: `None`
/// when it refuses the text (not JSON, or nested past its recursion limit),
/// else the `ticket` and `node_id` members of the value it parses, each
/// where the value is an object and the member a JSON string.
pub uninterp spec fn status_json(status: Seq<char>) -> Option<(Option<Seq<char>>, Option<Seq<char>>)>;

pub open spec fn opt_chars(o: Option<String>) -> Option<Seq<char>> {
    match o {
        Some(s) => Some(s@),
        None => None,
    }
}

/// Parses `status` with `serde_json::from_str` into a `serde_json::Value`
/// and takes its `ticket` and `node_id` members where `Value::as_str` finds
/// strings; where the text is not JSON, the parser's error text. The
/// contract claims that the members are a function of the text alone; it
/// says nothing of what the error text holds.
#[verifier::external_body]
fn status_members(status: &str) -> (r: Result<(Option<String>, Option<String>), String>)
    ensures
        match r {
            Ok((t, n)) => status_json(status@) == Some((opt_chars(t), opt_chars(n))),
            Err(_) => status_json(status@) is None,
        },
{
    match serde_json::from_str::<serde_json::Value>(status) {
        Ok(v) => Ok((
            v.get("ticket").and_then(serde_json::Value::as_str).map(String::from),
            v.get("node_id").and_then(serde_json::Value::as_str).map(String::from),
        )),
        Err(e) => Err(e.to_string()),
    }
}

/// The `ticket` and `node_id` texts of a gateway's status, where they are
/// strings; an error where the status is not JSON.
pub fn status_fields(status: &str) -> (r: Result<(Option<String>, Option<String>), String>)
    ensures
        match r {
            Ok((t, n)) => status_json(status@) == Some((opt_chars(t), opt_chars(n))),
            Err(_) => status_json(status@) is None,
        },
{
    status_members(status)
}

pub open spec fn no_usable_seed_text() -> Seq<char> {
    "the gateway status names no usable ticket or node id"@
}

/// The seed a gateway's status gives: its ticket where that is usable, else
/// its node id where that is usable, else an error. `ticket_ok` and
/// `node_ok` say whether each parses as a ticket and as a node id.
pub fn pick_seed(ticket: Option<String>, ticket_ok: bool, node_id: Option<String>, node_ok: bool) -> (r: Result<String, String>)
    ensures
        ticket is Some && ticket_ok ==> r == Ok::<String, String>(ticket->0),
        !(ticket is Some && ticket_ok) && node_id is Some && node_ok ==> r == Ok::<String, String>(node_id->0),
        !(ticket is Some && ticket_ok) && !(node_id is Some && node_ok) ==> (r matches Err(e) && e@
            == no_usable_seed_text()),
{
    match ticket {
        Some(t) => if ticket_ok {
            return Ok(t);
        },
        None => {},
    }
    match node_id {
        Some(n) => if node_ok {
            return Ok(n);
        },
        None => {},
    }
    proof {
        reveal_strlit("the gateway status names no usable ticket or node id");
    }
    Err(owned("the gateway status names no usable ticket or node id"))
}

/// Whether a ref's owner agrees: both owners known and different is the only refusal.
pub fn owner_matches(ours: &Option<String>, theirs: &Option<String>) -> (r: bool)
    ensures
        r == match (ours, theirs) {
            (Some(a), Some(b)) => a@ == b@,
            _ => true,
        },
{
    match (ours, theirs) {
        (Some(a), Some(b)) => same_text(a.as_str(), b.as_str()),
        _ => true,
    }
}

pub open spec fn advert_same(a: RefAdvert, b: RefAdvert) -> bool {
    &&& a.name@ == b.name@
    &&& a.manifest@ == b.manifest@
    &&& a.total == b.total
    &&& a.held == b.held
    &&& match (a.owner, b.owner) {
        (Some(x), Some(y)) => x@ == y@,
        (None, None) => true,
        _ => false,
    }
}

/// Whether two advert lists say the same, entry by entry.
pub fn same_adverts(left: &Vec<RefAdvert>, right: &Vec<RefAdvert>) -> (r: bool)
    ensures
        r == (left@.len() == right@.len() && forall|i: int|
            0 <= i < left@.len() ==> advert_same(#[trigger] left@[i], right@[i])),
{
    if left.len() != right.len() {
        return false;
    }
    let mut i: usize = 0;
    while i < left.len()
        invariant
            left.len() == right.len(),
            i <= left.len(),
            forall|j: int| 0 <= j < i ==> advert_same(#[trigger] left@[j], right@[j]),
        decreases left.len() - i,
    {
        let a = &left[i];
        let b = &right[i];
        let owners = match (&a.owner, &b.owner) {
            (Some(x), Some(y)) => same_text(x.as_str(), y.as_str()),
            (None, None) => true,
            _ => false,
        };
        if !(same_text(a.name.as_str(), b.name.as_str()) && same_text(
            a.manifest.as_str(),
            b.manifest.as_str(),
        ) && a.total == b.total && a.held == b.held && owners) {
            assert(!advert_same(left@[i as int], right@[i as int]));
            return false;
        }
        i = i + 1;
    }
    true
}

/// Whether `a` sorts strictly before `b`.
pub open spec fn name_lt(a: Seq<char>, b: Seq<char>) -> bool {
    name_le(a, b) && a != b
}

/// Whether this node wins the election to backfill a ref nobody holds: it
/// must sort before every peer it knows that is still reachable (a peer is
/// reachable while its recorded dial failures stay under the limit).
pub open spec fn wins_election(self_id: Seq<char>, known: Seq<(Seq<char>, Option<u32>)>) -> bool {
    forall|i: int|
        0 <= i < known.len() && reachable((#[trigger] known[i]).1) ==> name_lt(self_id, known[i].0)
}

/// A peer with a dial record under the failure limit.
pub open spec fn reachable(failures: Option<u32>) -> bool {
    match failures {
        Some(f) => f < DIAL_FAILURE_LIMIT,
        None => false,
    }
}

pub open spec fn known_views(v: Seq<(String, Option<u32>)>) -> Seq<(Seq<char>, Option<u32>)> {
    Seq::new(v.len(), |i: int| (v[i].0@, v[i].1))
}

pub fn wins_backfill_election(self_id: &str, known: &Vec<(String, Option<u32>)>) -> (r: bool)
    ensures
        r == wins_election(self_id@, known_views(known@)),
{
    let me = chars_of(self_id);
    let ghost kv = known_views(known@);
    let mut i: usize = 0;
    while i < known.len()
        invariant
            i <= known.len(),
            kv == known_views(known@),
            me@ == self_id@,
            forall|j: int| 0 <= j < i && reachable((#[trigger] kv[j]).1) ==> name_lt(self_id@, kv[j].0),
        decreases known.len() - i,
    {
        assert(kv[i as int] == (known@[i as int].0@, known@[i as int].1));
        let reachable = match known[i].1 {
            Some(f) => f < DIAL_FAILURE_LIMIT,
            None => false,
        };
        if reachable {
            let other = chars_of(known[i].0.as_str());
            let lt = chars_le(&me, &other) && !crate::text::same_chars(&me, &other);
            if !lt {
                return false;
            }
        }
        i = i + 1;
    }
    true
}

/// Milliseconds a node waits after starting before it backfills anything.
pub const BACKFILL_SETTLE_MS: u64 = 30_000;

/// Milliseconds before a backfill of one ref is tried again.
pub const BACKFILL_RETRY_MS: u64 = 600_000;

/// Whether one of `adverts` names `name` with at least one blob.
pub open spec fn advertises(adverts: Seq<RefAdvert>, name: Seq<char>) -> bool {
    exists|i: int| 0 <= i < adverts.len() && (#[trigger] adverts[i]).name@ == name && adverts[i].total > 0
}

fn advertised(adverts: &Vec<RefAdvert>, name: &str) -> (r: bool)
    ensures
        r == advertises(adverts@, name@),
{
    let mut i: usize = 0;
    while i < adverts.len()
        invariant
            i <= adverts.len(),
            forall|j: int| 0 <= j < i ==> !((#[trigger] adverts@[j]).name@ == name@ && adverts@[j].total > 0),
        decreases adverts.len() - i,
    {
        if adverts[i].total > 0 && same_text(adverts[i].name.as_str(), name) {
            return true;
        }
        i = i + 1;
    }
    false
}

/// Whether no ref named `name` with a blob is held here (`locals`) or
/// advertised by any peer (`peers`, one list of adverts each).
pub fn missing_everywhere(name: &str, locals: &Vec<RefAdvert>, peers: &Vec<Vec<RefAdvert>>) -> (r: bool)
    ensures
        r == (!advertises(locals@, name@) && forall|p: int| 0 <= p < peers@.len() ==> !advertises(#[trigger] peers@[p]@, name@)),
{
    if advertised(locals, name) {
        return false;
    }
    let mut p: usize = 0;
    while p < peers.len()
        invariant
            p <= peers.len(),
            forall|q: int| 0 <= q < p ==> !advertises(#[trigger] peers@[q]@, name@),
        decreases peers.len() - p,
    {
        if advertised(&peers[p], name) {
            return false;
        }
        p = p + 1;
    }
    true
}

/// Whether this node backfills the ref `name` now: only with a backfill
/// registered, once it has run `BACKFILL_SETTLE_MS`, not within
/// `BACKFILL_RETRY_MS` of its last backfill of `name`, only when no one has
/// the ref, and only when it wins the election among reachable peers.
pub fn should_backfill(
    name: &str,
    registered: bool,
    since_start_ms: u64,
    since_last_ms: Option<u64>,
    locals: &Vec<RefAdvert>,
    peers: &Vec<Vec<RefAdvert>>,
    self_id: &str,
    known: &Vec<(String, Option<u32>)>,
) -> (r: bool)
    ensures
        r == (registered && since_start_ms >= BACKFILL_SETTLE_MS && !(since_last_ms matches Some(t) && t
            < BACKFILL_RETRY_MS) && !advertises(locals@, name@) && (forall|p: int|
            0 <= p < peers@.len() ==> !advertises(#[trigger] peers@[p]@, name@)) && wins_election(
            self_id@,
            known_views(known@),
        )),
{
    if !registered || since_start_ms < BACKFILL_SETTLE_MS {
        return false;
    }
    match since_last_ms {
        Some(t) => if t < BACKFILL_RETRY_MS {
            return false;
        },
        None => {},
    }
    missing_everywhere(name, locals, peers) && wins_backfill_election(self_id, known)
}

/// Makes a device and its vouching group share the higher of their trust
/// levels; whether either changed.
pub fn reconcile_trust(trust: &mut Trust, device: Dgid, group: Dgid) -> (changed: bool)
    ensures
        ({
            let d = old(trust).level_of(device@);
            let g = old(trust).level_of(group@);
            let top = if rank(d) >= rank(g) {
                d
            } else {
                g
            };
            &&& changed == (d != g)
            &&& !changed ==> forall|k: Seq<u8>| #[trigger] final(trust).stored(k) == old(trust).stored(k)
            &&& changed ==> final(trust).level_of(device@) == top && final(trust).level_of(group@) == top
            &&& final(trust).own_group() == old(trust).own_group()
            &&& forall|k: Seq<u8>|
                k != device@ && k != group@ ==> #[trigger] final(trust).stored(k) == old(trust).stored(k)
        }),
{
    let by_device = trust.level(device);
    let by_group = trust.level(group);
    if by_device == by_group {
        return false;
    }
    let level = if by_device.rank() >= by_group.rank() {
        by_device
    } else {
        by_group
    };
    if by_device.rank() < level.rank() {
        trust.set(device, level);
    }
    if by_group.rank() < level.rank() {
        trust.set(group, level);
    }
    true
}

} // verus!

verus! {

pub proof fn lemma_name_total(a: Seq<char>, b: Seq<char>)
    ensures
        name_le(a, b) || name_le(b, a),
    decreases a.len(),
{
    if a.len() > 0 && b.len() > 0 {
        if a[0] == b[0] {
            lemma_name_total(a.drop_first(), b.drop_first());
        } else {
            assert(a[0] < b[0] || b[0] < a[0]);
        }
    }
}

pub proof fn lemma_name_antisym(a: Seq<char>, b: Seq<char>)
    requires
        name_le(a, b),
        name_le(b, a),
    ensures
        a == b,
    decreases a.len(),
{
    if a.len() > 0 && b.len() > 0 {
        if a[0] == b[0] {
            lemma_name_antisym(a.drop_first(), b.drop_first());
            assert(a =~= seq![a[0]] + a.drop_first());
            assert(b =~= seq![b[0]] + b.drop_first());
        } else {
            assert(a[0] < b[0] || b[0] < a[0]);
        }
    } else {
        assert(a =~= b);
    }
}

pub proof fn lemma_name_trans(a: Seq<char>, b: Seq<char>, c: Seq<char>)
    requires
        name_le(a, b),
        name_le(b, c),
    ensures
        name_le(a, c),
    decreases a.len(),
{
    if a.len() > 0 && b.len() > 0 && c.len() > 0 && a[0] == b[0] && b[0] == c[0] {
        lemma_name_trans(a.drop_first(), b.drop_first(), c.drop_first());
    }
}

/// The view each node of `ids` has in an election where everyone is reachable:
/// every other node, with no failed dials.
pub open spec fn everyone_else(ids: Seq<Seq<char>>, i: int) -> Seq<(Seq<char>, Option<u32>)> {
    ids.remove(i).map_values(|x: Seq<char>| (x, Some(0u32)))
}

proof fn lemma_least(ids: Seq<Seq<char>>) -> (m: int)
    requires
        ids.len() > 0,
    ensures
        0 <= m < ids.len(),
        forall|j: int| 0 <= j < ids.len() ==> name_le(ids[m], #[trigger] ids[j]),
    decreases ids.len(),
{
    if ids.len() == 1 {
        lemma_name_total(ids[0], ids[0]);
        0
    } else {
        let k = lemma_least(ids.drop_last());
        let last = ids.last();
        lemma_name_total(ids[k], last);
        if name_le(ids[k], last) {
            assert forall|j: int| 0 <= j < ids.len() implies name_le(ids[k], #[trigger] ids[j]) by {
                if j < ids.len() - 1 {
                    assert(ids[j] == ids.drop_last()[j]);
                }
            }
            k
        } else {
            let m = ids.len() - 1;
            assert forall|j: int| 0 <= j < ids.len() implies name_le(ids[m], #[trigger] ids[j]) by {
                if j < ids.len() - 1 {
                    assert(ids[j] == ids.drop_last()[j]);
                    assert(name_le(ids.drop_last()[k], ids.drop_last()[j]));
                    lemma_name_trans(ids[m], ids[k], ids[j]);
                } else {
                    lemma_name_total(ids[m], ids[m]);
                }
            }
            m
        }
    }
}

/// Among nodes that all reach one another, exactly one wins the backfill
/// election: the one whose id sorts first.
pub proof fn law_exactly_one_winner(ids: Seq<Seq<char>>)
    requires
        ids.len() > 0,
        ids.no_duplicates(),
    ensures
        exists|w: int|
            0 <= w < ids.len() && wins_election(ids[w], #[trigger] everyone_else(ids, w)) && forall|j: int|
                0 <= j < ids.len() && wins_election(ids[j], #[trigger] everyone_else(ids, j)) ==> j == w,
{
    let w = lemma_least(ids);
    assert forall|i: int|
        0 <= i < everyone_else(ids, w).len() && reachable(
            (#[trigger] everyone_else(ids, w)[i]).1,
        ) implies name_lt(ids[w], everyone_else(ids, w)[i].0) by {
        let src = if i < w {
            i
        } else {
            i + 1
        };
        assert(everyone_else(ids, w)[i].0 == ids.remove(w)[i]);
        assert(ids.remove(w)[i] == ids[src]);
        assert(src != w);
        assert(ids[src] != ids[w]);
    }
    assert forall|j: int|
        0 <= j < ids.len() && wins_election(ids[j], #[trigger] everyone_else(ids, j)) implies j == w by {
        if j != w {
            let pos = if w < j {
                w
            } else {
                w - 1
            };
            assert(ids.remove(j)[pos] == ids[w]);
            assert(everyone_else(ids, j)[pos] == (ids[w], Some(0u32)));
            assert(reachable(everyone_else(ids, j)[pos].1));
            assert(name_lt(ids[j], ids[w]));
            assert(name_le(ids[w], ids[j]));
            lemma_name_antisym(ids[j], ids[w]);
        }
    }
    assert(wins_election(ids[w], everyone_else(ids, w)));
}

} // verus!

verus! {

/// Whether the names of `s` strictly increase.
pub open spec fn names_increasing(s: Seq<Seq<char>>) -> bool {
    forall|i: int, j: int| 0 <= i < j < s.len() ==> name_lt(#[trigger] s[i], #[trigger] s[j])
}

pub open spec fn string_views(v: Seq<String>) -> Seq<Seq<char>> {
    Seq::new(v.len(), |i: int| v[i]@)
}

pub proof fn lemma_name_lt_trans(a: Seq<char>, b: Seq<char>, c: Seq<char>)
    requires
        name_lt(a, b),
        name_lt(b, c),
    ensures
        name_lt(a, c),
{
    lemma_name_trans(a, b, c);
    if a == c {
        lemma_name_antisym(a, b);
    }
}

/// Whether `s` sorts strictly before `key`.
fn name_before(s: &String, key: &Vec<char>) -> (r: bool)
    ensures
        r == name_lt(s@, key@),
{
    let here = chars_of(s.as_str());
    chars_le(&here, key) && !crate::text::same_chars(&here, key)
}

/// Adds `name` to the increasing `v` unless it is there: a set of names, as a
/// `BTreeSet<String>` holds one.
pub fn insert_name(v: &mut Vec<String>, name: String)
    requires
        names_increasing(string_views(old(v)@)),
    ensures
        names_increasing(string_views(final(v)@)),
        string_views(final(v)@).to_set() == string_views(old(v)@).to_set().insert(name@),
{
    let ghost s = string_views(v@);
    let key = chars_of(name.as_str());
    let mut j: usize = 0;
    while j < v.len() && name_before(&v[j], &key)
        invariant
            j <= v.len(),
            s == string_views(v@),
            key@ == name@,
            forall|m: int| 0 <= m < j ==> name_lt(#[trigger] s[m], name@),
        decreases v.len() - j,
    {
        assert(s[j as int] == v@[j as int]@);
        j = j + 1;
    }
    if j < v.len() && same_text(v[j].as_str(), name.as_str()) {
        assert(s.to_set().contains(name@)) by {
            assert(s[j as int] == name@);
        }
        assert(s.to_set().insert(name@) =~= s.to_set());
        return;
    }
    proof {
        if j < s.len() {
            assert(s[j as int] == v@[j as int]@);
            lemma_name_total(s[j as int], name@);
            assert(name_lt(name@, s[j as int]));
        }
    }
    let ghost nv = name@;
    v.insert(j, name);
    let ghost t = string_views(v@);
    assert(t =~= s.insert(j as int, nv));
    assert forall|a: int, b: int| 0 <= a < b < t.len() implies name_lt(#[trigger] t[a], #[trigger] t[b]) by {
        if a < j && b == j {
        } else if a < j && b > j {
            assert(t[b] == s[b - 1]);
        } else if a == j && b > j {
            assert(t[b] == s[b - 1]);
            if b - 1 > j {
                lemma_name_lt_trans(nv, s[j as int], s[b - 1]);
            }
        } else if a > j {
            assert(t[a] == s[a - 1]);
            assert(t[b] == s[b - 1]);
        }
    }
    assert(t.to_set() =~= s.to_set().insert(nv)) by {
        assert forall|x: Seq<char>| t.to_set().contains(x) implies s.to_set().insert(nv).contains(x) by {
            let k = choose|k: int| 0 <= k < t.len() && t[k] == x;
            if k < j {
                assert(s[k] == x);
            } else if k > j {
                assert(s[k - 1] == x);
            }
        }
        assert forall|x: Seq<char>| s.to_set().insert(nv).contains(x) implies t.to_set().contains(x) by {
            if x == nv {
                assert(t[j as int] == x);
            } else {
                let k = choose|k: int| 0 <= k < s.len() && s[k] == x;
                if k < j {
                    assert(t[k] == x);
                } else {
                    assert(t[k + 1] == x);
                }
            }
        }
    }
}

/// The names of every ref advertised by a peer in `trusted`.
pub open spec fn followed_set(peer_refs: Seq<(String, Vec<RefAdvert>)>, trusted: Seq<Seq<char>>) -> Set<
    Seq<char>,
> {
    Set::new(
        |n: Seq<char>|
            exists|i: int, k: int|
                0 <= i < peer_refs.len() && trusted.contains(#[trigger] peer_refs[i].0@) && 0 <= k
                    < peer_refs[i].1@.len() && (#[trigger] peer_refs[i].1@[k]).name@ == n,
    )
}

/// The ref names to follow: those that trusted peers advertise, sorted, each once.
pub fn followed_names(peer_refs: &Vec<(String, Vec<RefAdvert>)>, trusted: &Vec<String>) -> (r: Vec<String>)
    ensures
        names_increasing(string_views(r@)),
        string_views(r@).to_set() == followed_set(peer_refs@, string_views(trusted@)),
{
    let ghost tv = string_views(trusted@);
    let mut out: Vec<String> = Vec::new();
    let mut i: usize = 0;
    assert(string_views(out@) =~= Seq::<Seq<char>>::empty());
    while i < peer_refs.len()
        invariant
            i <= peer_refs.len(),
            tv == string_views(trusted@),
            names_increasing(string_views(out@)),
            forall|n: Seq<char>|
                #[trigger] string_views(out@).to_set().contains(n) <==> exists|a: int, k: int|
                    0 <= a < i && tv.contains(#[trigger] peer_refs@[a].0@) && 0 <= k
                        < peer_refs@[a].1@.len() && (#[trigger] peer_refs@[a].1@[k]).name@ == n,
        decreases peer_refs.len() - i,
    {
        let trusted_peer = holds_text(trusted, peer_refs[i].0.as_str());
        proof {
            if trusted_peer {
                let w = choose|w: int| 0 <= w < trusted@.len() && (#[trigger] trusted@[w])@ == peer_refs@[i as int].0@;
                assert(tv[w] == peer_refs@[i as int].0@);
            }
            if tv.contains(peer_refs@[i as int].0@) {
                let w = choose|w: int| 0 <= w < tv.len() && tv[w] == peer_refs@[i as int].0@;
                assert(trusted@[w]@ == peer_refs@[i as int].0@);
            }
        }
        let ghost before = string_views(out@).to_set();
        if trusted_peer {
            let adverts = &peer_refs[i].1;
            let mut k: usize = 0;
            while k < adverts.len()
                invariant
                    k <= adverts.len(),
                    tv == string_views(trusted@),
                    *adverts == peer_refs@[i as int].1,
                    tv.contains(peer_refs@[i as int].0@),
                    names_increasing(string_views(out@)),
                    forall|n: Seq<char>|
                        #[trigger] string_views(out@).to_set().contains(n) <==> (before.contains(n)
                            || exists|m: int| 0 <= m < k && (#[trigger] adverts@[m]).name@ == n),
                decreases adverts.len() - k,
            {
                let ghost nm = adverts@[k as int].name@;
                insert_name(&mut out, adverts[k].name.clone());
                assert forall|n: Seq<char>|
                    #[trigger] string_views(out@).to_set().contains(n) <==> (before.contains(n)
                        || exists|m: int| 0 <= m < k + 1 && (#[trigger] adverts@[m]).name@ == n) by {
                    if n == nm {
                        assert(adverts@[k as int].name@ == n);
                    }
                }
                k = k + 1;
            }
        }
        assert forall|n: Seq<char>|
            #[trigger] string_views(out@).to_set().contains(n) <==> exists|a: int, k: int|
                0 <= a < i + 1 && tv.contains(#[trigger] peer_refs@[a].0@) && 0 <= k
                    < peer_refs@[a].1@.len() && (#[trigger] peer_refs@[a].1@[k]).name@ == n by {
            if string_views(out@).to_set().contains(n) && !before.contains(n) {
                let m = choose|m: int| 0 <= m < peer_refs@[i as int].1@.len() && (#[trigger] peer_refs@[i as int].1@[m]).name@ == n;
                assert(tv.contains(peer_refs@[i as int].0@));
            }
            if exists|a: int, k: int|
                0 <= a < i + 1 && tv.contains(#[trigger] peer_refs@[a].0@) && 0 <= k
                    < peer_refs@[a].1@.len() && (#[trigger] peer_refs@[a].1@[k]).name@ == n {
                let (a, k) = choose|a: int, k: int|
                    0 <= a < i + 1 && tv.contains(#[trigger] peer_refs@[a].0@) && 0 <= k
                        < peer_refs@[a].1@.len() && (#[trigger] peer_refs@[a].1@[k]).name@ == n;
                if a == i {
                    assert(trusted_peer);
                    assert(peer_refs@[i as int].1@[k].name@ == n);
                }
            }
        }
        i = i + 1;
    }
    assert(string_views(out@).to_set() =~= followed_set(peer_refs@, tv));
    out
}

/// A table open on some host, as the mesh lists it; `relayed` when it was
/// heard second-hand.
#[derive(Clone, Debug, PartialEq, Eq)]
pub struct OpenTable {
    pub host: String,
    pub name: String,
    pub relayed: bool,
}

/// Whether a ref name is safe to follow from a peer: a usable ref name.
pub fn safe_ref_name(name: &str) -> (r: bool)
    ensures
        r == crate::refs::name_ok(name@),
{
    crate::refs::valid_name(name)
}

/// The group a node counts as its own: the group it holds a key for, or
/// else its own node key read as a group.
pub fn own_group(group: Option<crate::identity::Dgid>, node: Option<crate::identity::Dgid>) -> (r: Option<
    crate::identity::Dgid,
>)
    ensures
        r == match group {
            Some(g) => Some(g),
            None => node,
        },
{
    match group {
        Some(g) => Some(g),
        None => node,
    }
}

} // verus!
