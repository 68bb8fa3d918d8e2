//! The registry of peers a node has met: how each was found, what passed
//! between us, and when we last heard from it. Times are nanoseconds since
//! the Unix epoch; durations are nanoseconds.
use vstd::prelude::*;
use std::collections::BTreeMap;
use crate::assoc::{unique_keys, as_map, restrict, lemma_as_map, lemma_as_map_update, lemma_as_map_remove, lemma_as_map_insert};
use crate::mesh::{name_lt, names_increasing, string_views, lemma_name_total, lemma_name_lt_trans};
use crate::peers::{Discovery, LinkState, PathKind, RefStatus, ConnectionKey, link_spec, link_state, path_kind, short_id};
use crate::text::{chars_of, owned};

verus! {

/// How the node learned of a peer, as values.
pub enum DiscoveryV {
    Ticket,
    Inbound,
    Gossip(Seq<char>),
    Remembered,
}

pub open spec fn discovery_view(d: Discovery) -> DiscoveryV {
    match d {
        Discovery::Ticket => DiscoveryV::Ticket,
        Discovery::Inbound => DiscoveryV::Inbound,
        Discovery::Gossip(from) => DiscoveryV::Gossip(from@),
        Discovery::Remembered => DiscoveryV::Remembered,
    }
}

pub open spec fn opt_text(o: Option<String>) -> Option<Seq<char>> {
    match o {
        Some(t) => Some(t@),
        None => None,
    }
}

/// What the node keeps of one peer.
#[derive(Debug)]
pub struct PeerRecord {
    pub we_served_them: bool,
    pub we_fetched_from_them: bool,
    pub wire_bytes_sent: u64,
    pub wire_bytes_received: u64,
    pub payload_bytes_received: u64,
    pub wire_bytes_known: bool,
    /// The byte counters last sampled on each live connection, by serial.
    pub live: BTreeMap<u64, (u64, u64)>,
    pub total_connections: u64,
    pub ever_connected: bool,
    pub rtt: Option<u128>,
    pub active_addrs: Vec<String>,
    pub inactive_addrs: Vec<String>,
    pub addrs_checked: Option<u128>,
    pub first_seen: u128,
    pub last_activity: u128,
    pub introduced_by_ref: Option<String>,
    pub ticket: Option<String>,
    pub outcome: Option<String>,
    pub discovery: Discovery,
    pub dial_failures: u32,
    pub last_dial_error: Option<String>,
    pub refs_advertised: Vec<String>,
}

pub struct RecordV {
    pub we_served_them: bool,
    pub we_fetched_from_them: bool,
    pub wire_bytes_sent: u64,
    pub wire_bytes_received: u64,
    pub payload_bytes_received: u64,
    pub wire_bytes_known: bool,
    pub live: Map<u64, (u64, u64)>,
    pub total_connections: u64,
    pub ever_connected: bool,
    pub rtt: Option<u128>,
    pub active_addrs: Seq<Seq<char>>,
    pub inactive_addrs: Seq<Seq<char>>,
    pub addrs_checked: Option<u128>,
    pub first_seen: u128,
    pub last_activity: u128,
    pub introduced_by_ref: Option<Seq<char>>,
    pub ticket: Option<Seq<char>>,
    pub outcome: Option<Seq<char>>,
    pub discovery: DiscoveryV,
    pub dial_failures: u32,
    pub last_dial_error: Option<Seq<char>>,
    pub refs_advertised: Seq<Seq<char>>,
}

impl View for PeerRecord {
    type V = RecordV;

    open spec fn view(&self) -> RecordV {
        RecordV {
            we_served_them: self.we_served_them,
            we_fetched_from_them: self.we_fetched_from_them,
            wire_bytes_sent: self.wire_bytes_sent,
            wire_bytes_received: self.wire_bytes_received,
            payload_bytes_received: self.payload_bytes_received,
            wire_bytes_known: self.wire_bytes_known,
            live: self.live@,
            total_connections: self.total_connections,
            ever_connected: self.ever_connected,
            rtt: self.rtt,
            active_addrs: string_views(self.active_addrs@),
            inactive_addrs: string_views(self.inactive_addrs@),
            addrs_checked: self.addrs_checked,
            first_seen: self.first_seen,
            last_activity: self.last_activity,
            introduced_by_ref: opt_text(self.introduced_by_ref),
            ticket: opt_text(self.ticket),
            outcome: opt_text(self.outcome),
            discovery: discovery_view(self.discovery),
            dial_failures: self.dial_failures,
            last_dial_error: opt_text(self.last_dial_error),
            refs_advertised: string_views(self.refs_advertised@),
        }
    }
}

/// The record of a peer first met at `now`: found by dialing us, nothing
/// exchanged yet.
pub open spec fn fresh_record(now: u128) -> RecordV {
    RecordV {
        we_served_them: false,
        we_fetched_from_them: false,
        wire_bytes_sent: 0,
        wire_bytes_received: 0,
        payload_bytes_received: 0,
        wire_bytes_known: false,
        live: Map::empty(),
        total_connections: 0,
        ever_connected: false,
        rtt: None,
        active_addrs: Seq::empty(),
        inactive_addrs: Seq::empty(),
        addrs_checked: None,
        first_seen: now,
        last_activity: now,
        introduced_by_ref: None,
        ticket: None,
        outcome: None,
        discovery: DiscoveryV::Inbound,
        dial_failures: 0,
        last_dial_error: None,
        refs_advertised: Seq::empty(),
    }
}

impl PeerRecord {
    /// The record of a peer first met at `now`.
    pub fn fresh(now: u128) -> (r: Self)
        ensures
            r@ == fresh_record(now),
    {
        let r = PeerRecord {
            we_served_them: false,
            we_fetched_from_them: false,
            wire_bytes_sent: 0,
            wire_bytes_received: 0,
            payload_bytes_received: 0,
            wire_bytes_known: false,
            live: BTreeMap::new(),
            total_connections: 0,
            ever_connected: false,
            rtt: None,
            active_addrs: Vec::new(),
            inactive_addrs: Vec::new(),
            addrs_checked: None,
            first_seen: now,
            last_activity: now,
            introduced_by_ref: None,
            ticket: None,
            outcome: None,
            discovery: Discovery::Inbound,
            dial_failures: 0,
            last_dial_error: None,
            refs_advertised: Vec::new(),
        };
        assert(r@.active_addrs =~= Seq::<Seq<char>>::empty());
        assert(r@.inactive_addrs =~= Seq::<Seq<char>>::empty());
        assert(r@.refs_advertised =~= Seq::<Seq<char>>::empty());
        r
    }
}

pub open spec fn peer_views(s: Seq<(String, PeerRecord)>) -> Seq<(Seq<char>, RecordV)> {
    Seq::new(s.len(), |i: int| (s[i].0@, s[i].1@))
}

pub open spec fn peer_ids(s: Seq<(String, PeerRecord)>) -> Seq<Seq<char>> {
    Seq::new(s.len(), |i: int| s[i].0@)
}

/// A ref's status, as values.
pub struct RefStatusV {
    pub name: Seq<char>,
    pub manifest: Seq<char>,
    pub held: u32,
    pub total: u32,
    pub providers: Seq<Seq<char>>,
}

pub open spec fn status_view(s: RefStatus) -> RefStatusV {
    RefStatusV {
        name: s.name@,
        manifest: s.manifest@,
        held: s.held,
        total: s.total,
        providers: string_views(s.providers@),
    }
}

pub open spec fn status_views(s: Seq<RefStatus>) -> Seq<RefStatusV> {
    Seq::new(s.len(), |i: int| status_view(s[i]))
}

pub open spec fn status_names(s: Seq<RefStatus>) -> Seq<Seq<char>> {
    Seq::new(s.len(), |i: int| s[i].name@)
}

pub open spec fn status_pairs(s: Seq<RefStatus>) -> Seq<(Seq<char>, RefStatusV)> {
    Seq::new(s.len(), |i: int| (s[i].name@, status_view(s[i])))
}

/// Whether `k` sorts after every name of `ks` before `i` and before every
/// name from `i` on.
pub open spec fn fits(ks: Seq<Seq<char>>, i: int, k: Seq<char>) -> bool {
    &&& 0 <= i <= ks.len()
    &&& forall|j: int| 0 <= j < i ==> name_lt(#[trigger] ks[j], k)
    &&& forall|j: int| i <= j < ks.len() ==> name_lt(k, #[trigger] ks[j])
}

/// The peers a node has met, in order of their ids; the status of each ref it
/// fetches, in order of names; and the next connection serial.
pub struct PeerRegistry {
    peers: Vec<(String, PeerRecord)>,
    refs: Vec<RefStatus>,
    serial: u64,
}

pub struct RegistryV {
    pub peers: Map<Seq<char>, RecordV>,
    pub refs: Map<Seq<char>, RefStatusV>,
    pub serial: u64,
}

impl View for PeerRegistry {
    type V = RegistryV;

    closed spec fn view(&self) -> RegistryV {
        RegistryV {
            peers: as_map(peer_views(self.peers@)),
            refs: as_map(status_pairs(self.refs@)),
            serial: self.serial,
        }
    }
}

/// The record of `id`, or the one a peer first met at `now` gets.
pub open spec fn record_at(r: RegistryV, id: Seq<char>, now: u128) -> RecordV {
    if r.peers.contains_key(id) {
        r.peers[id]
    } else {
        fresh_record(now)
    }
}

/// The registry with the record of `id` set to `rec`.
pub open spec fn with_record(r: RegistryV, id: Seq<char>, rec: RecordV) -> RegistryV {
    RegistryV { peers: r.peers.insert(id, rec), ..r }
}

/// The record, heard from at `now`.
pub open spec fn heard(rec: RecordV, now: u128) -> RecordV {
    RecordV { last_activity: now, ..rec }
}

proof fn lemma_views_unique(s: Seq<(String, PeerRecord)>)
    requires
        names_increasing(peer_ids(s)),
    ensures
        unique_keys(peer_views(s)),
{
    assert forall|a: int, b: int| 0 <= a < b < peer_views(s).len() implies #[trigger] peer_views(s)[a].0
        != #[trigger] peer_views(s)[b].0 by {
        assert(peer_ids(s)[a] == peer_views(s)[a].0);
        assert(peer_ids(s)[b] == peer_views(s)[b].0);
    }
}

proof fn lemma_statuses_unique(s: Seq<RefStatus>)
    requires
        names_increasing(status_names(s)),
    ensures
        unique_keys(status_pairs(s)),
{
    assert forall|a: int, b: int| 0 <= a < b < status_pairs(s).len() implies #[trigger] status_pairs(s)[a].0
        != #[trigger] status_pairs(s)[b].0 by {
        assert(status_names(s)[a] == status_pairs(s)[a].0);
        assert(status_names(s)[b] == status_pairs(s)[b].0);
    }
}

fn name_before(s: &String, key: &Vec<char>) -> (r: bool)
    ensures
        r == name_lt(s@, key@),
{
    let here = chars_of(s.as_str());
    crate::refs::chars_le(&here, key) && !crate::text::same_chars(&here, key)
}

impl PeerRegistry {
    /// Whether the ids and the ref names are each in strictly increasing order.
    pub closed spec fn wf(&self) -> bool {
        names_increasing(peer_ids(self.peers@)) && names_increasing(status_names(self.refs@))
    }

    /// A registry that has met no one.
    pub fn new() -> (r: Self)
        ensures
            r.wf(),
            r@ == (RegistryV { peers: Map::empty(), refs: Map::empty(), serial: 0 }),
    {
        let r = PeerRegistry { peers: Vec::new(), refs: Vec::new(), serial: 0 };
        assert(peer_views(r.peers@) =~= Seq::<(Seq<char>, RecordV)>::empty());
        assert(status_pairs(r.refs@) =~= Seq::<(Seq<char>, RefStatusV)>::empty());
        assert(as_map(peer_views(r.peers@)) =~= Map::<Seq<char>, RecordV>::empty());
        assert(as_map(status_pairs(r.refs@)) =~= Map::<Seq<char>, RefStatusV>::empty());
        r
    }

    /// Where `id` stands among the ids: its index, or the index it would take.
    fn find(&self, id: &Vec<char>) -> (r: Result<usize, usize>)
        requires
            self.wf(),
        ensures
            match r {
                Ok(i) => i < self.peers.len() && peer_ids(self.peers@)[i as int] == id@,
                Err(i) => fits(peer_ids(self.peers@), i as int, id@),
            },
    {
        let ghost ks = peer_ids(self.peers@);
        let mut i: usize = 0;
        while i < self.peers.len() && name_before(&self.peers[i].0, id)
            invariant
                i <= self.peers.len(),
                ks == peer_ids(self.peers@),
                names_increasing(ks),
                forall|j: int| 0 <= j < i ==> name_lt(#[trigger] ks[j], id@),
            decreases self.peers.len() - i,
        {
            assert(ks[i as int] == self.peers@[i as int].0@);
            i = i + 1;
        }
        if i < self.peers.len() {
            assert(ks[i as int] == self.peers@[i as int].0@);
            let here = chars_of(self.peers[i].0.as_str());
            if crate::text::same_chars(&here, id) {
                return Ok(i);
            }
            proof {
                lemma_name_total(ks[i as int], id@);
                assert(name_lt(id@, ks[i as int]));
                assert forall|j: int| i <= j < ks.len() implies name_lt(id@, #[trigger] ks[j]) by {
                    if j > i {
                        lemma_name_lt_trans(id@, ks[i as int], ks[j]);
                    }
                }
            }
        }
        Err(i)
    }

    /// Takes the record of `id` out of the registry; a peer not met yet gets
    /// a fresh record. Returns where the record goes back.
    fn take(&mut self, id: &str, now: u128) -> (r: (usize, PeerRecord))
        requires
            old(self).wf(),
        ensures
            r.1@ == record_at(old(self)@, id@, now),
            names_increasing(peer_ids(final(self).peers@)),
            names_increasing(status_names(final(self).refs@)),
            fits(peer_ids(final(self).peers@), r.0 as int, id@),
            final(self)@ == (RegistryV { peers: old(self)@.peers.remove(id@), ..old(self)@ }),
    {
        let ghost s = self.peers@;
        proof {
            lemma_views_unique(s);
            lemma_as_map(peer_views(s));
        }
        let key = chars_of(id);
        match self.find(&key) {
            Ok(i) => {
                let (_k, rec) = self.peers.remove(i);
                proof {
                    assert(peer_views(s)[i as int].0 == id@);
                    lemma_as_map_remove(peer_views(s), i as int);
                    assert(peer_views(self.peers@) =~= peer_views(s).remove(i as int));
                    let ks = peer_ids(s);
                    let t = peer_ids(self.peers@);
                    assert(t =~= ks.remove(i as int));
                    assert forall|a: int, b: int| 0 <= a < b < t.len() implies name_lt(#[trigger] t[a], #[trigger] t[b]) by {
                        let a2 = if a < i { a } else { a + 1 };
                        let b2 = if b < i { b } else { b + 1 };
                        assert(t[a] == ks[a2] && t[b] == ks[b2]);
                    }
                    assert forall|j: int| 0 <= j < i implies name_lt(#[trigger] t[j], id@) by {
                        assert(t[j] == ks[j]);
                    }
                    assert forall|j: int| i <= j < t.len() implies name_lt(id@, #[trigger] t[j]) by {
                        assert(t[j] == ks[j + 1]);
                    }
                    assert(as_map(peer_views(s))[peer_views(s)[i as int].0] == peer_views(s)[i as int].1);
                }
                (i, rec)
            },
            Err(i) => {
                proof {
                    assert forall|j: int| 0 <= j < s.len() implies peer_views(s)[j].0 != id@ by {
                        assert(peer_ids(s)[j] == peer_views(s)[j].0);
                        if j < i {
                            assert(name_lt(peer_ids(s)[j], id@));
                        } else {
                            assert(name_lt(id@, peer_ids(s)[j]));
                        }
                    }
                    assert(as_map(peer_views(s)).remove(id@) =~= as_map(peer_views(s)));
                }
                (i, PeerRecord::fresh(now))
            },
        }
    }

    /// Puts the record of `id` back where `take` left room for it.
    fn put(&mut self, i: usize, id: &str, rec: PeerRecord)
        requires
            names_increasing(peer_ids(old(self).peers@)),
            names_increasing(status_names(old(self).refs@)),
            fits(peer_ids(old(self).peers@), i as int, id@),
        ensures
            final(self).wf(),
            final(self)@ == with_record(old(self)@, id@, rec@),
    {
        let ghost s = self.peers@;
        let ghost rv = rec@;
        proof {
            lemma_views_unique(s);
            assert forall|j: int| 0 <= j < s.len() implies (#[trigger] peer_views(s)[j]).0 != id@ by {
                assert(peer_ids(s)[j] == peer_views(s)[j].0);
            }
            lemma_as_map_insert(peer_views(s), i as int, id@, rv);
        }
        self.peers.insert(i, (owned(id), rec));
        proof {
            assert(peer_views(self.peers@) =~= peer_views(s).insert(i as int, (id@, rv)));
            let ks = peer_ids(s);
            let t = peer_ids(self.peers@);
            assert(t =~= ks.insert(i as int, id@));
            assert forall|a: int, b: int| 0 <= a < b < t.len() implies name_lt(#[trigger] t[a], #[trigger] t[b]) by {
                if b < i {
                    assert(t[a] == ks[a] && t[b] == ks[b]);
                } else if b == i {
                    assert(t[a] == ks[a]);
                } else if a < i {
                    assert(t[a] == ks[a] && t[b] == ks[b - 1]);
                } else if a == i {
                    assert(t[b] == ks[b - 1]);
                } else {
                    assert(t[a] == ks[a - 1]);
                    assert(t[b] == ks[b - 1]);
                }
            }
        }
    }
}

proof fn lemma_reinsert(m: Map<Seq<char>, RecordV>, k: Seq<char>, v: RecordV)
    ensures
        m.remove(k).insert(k, v) == m.insert(k, v),
{
    assert(m.remove(k).insert(k, v) =~= m.insert(k, v));
}

/// The record of a provider whose ticket the node scanned.
pub open spec fn provider_introduced(rec: RecordV, ticket: Seq<char>) -> RecordV {
    RecordV { we_fetched_from_them: true, ticket: Some(ticket), discovery: DiscoveryV::Ticket, ..rec }
}

/// The record of a peer remembered from the last run.
pub open spec fn remembered(
    first_seen: u128,
    last_activity: u128,
    refs: Seq<Seq<char>>,
    ticket: Option<Seq<char>>,
) -> RecordV {
    RecordV {
        discovery: DiscoveryV::Remembered,
        first_seen,
        last_activity,
        refs_advertised: refs,
        ticket,
        ..fresh_record(first_seen)
    }
}

/// Whether `a - b` counts toward a total: the part of `a` above `b`.
pub open spec fn above(a: u64, b: u64) -> u64 {
    if a >= b {
        (a - b) as u64
    } else {
        0
    }
}

/// The counters last sampled on the connection `serial`, or none yet.
pub open spec fn sample(rec: RecordV, serial: u64) -> (u64, u64) {
    if rec.live.contains_key(serial) {
        rec.live[serial]
    } else {
        (0, 0)
    }
}

/// The record after the connection `serial` was sampled at `sent` and
/// `received` bytes: the totals grow by what the counters grew since the
/// last sample, and the round trip time is kept when one was measured.
pub open spec fn observed(rec: RecordV, serial: u64, sent: u64, received: u64, rtt: Option<u128>) -> RecordV {
    let prev = sample(rec, serial);
    RecordV {
        wire_bytes_sent: (rec.wire_bytes_sent + above(sent, prev.0)) as u64,
        wire_bytes_received: (rec.wire_bytes_received + above(received, prev.1)) as u64,
        wire_bytes_known: true,
        live: if rec.live.contains_key(serial) {
            rec.live.insert(serial, (sent, received))
        } else {
            rec.live
        },
        rtt: if rtt is Some {
            rtt
        } else {
            rec.rtt
        },
        ..rec
    }
}

/// The serial after `s`, wrapping around.
pub open spec fn next_serial(s: u64) -> u64 {
    if s == u64::MAX {
        0
    } else {
        (s + 1) as u64
    }
}

/// The record after a connection `serial` opened.
pub open spec fn opened(rec: RecordV, serial: u64) -> RecordV {
    RecordV {
        we_served_them: true,
        ever_connected: true,
        total_connections: (rec.total_connections + 1) as u64,
        live: rec.live.insert(serial, (0, 0)),
        ..rec
    }
}

/// The record after gossip introduced the peer: the introducer is kept
/// only for a peer that merely dialed us and never connected.
pub open spec fn gossiped(rec: RecordV, from: Seq<char>) -> RecordV {
    if rec.discovery == DiscoveryV::Inbound && rec.total_connections == 0 {
        RecordV { discovery: DiscoveryV::Gossip(from), ..rec }
    } else {
        rec
    }
}

/// Whether the peer has been silent for longer than `older_than` at `now`.
pub open spec fn stale(rec: RecordV, older_than: u128, now: u128) -> bool {
    now >= rec.last_activity && now - rec.last_activity > older_than
}

/// Whether pruning keeps the peer: it holds a live connection or is not stale.
pub open spec fn kept(rec: RecordV, older_than: u128, now: u128) -> bool {
    !rec.live.is_empty() || !stale(rec, older_than, now)
}

impl PeerRegistry {
    /// Notes a provider whose ticket was scanned.
    pub fn introduce_provider(&mut self, id: &str, ticket: &str, now: u128)
        requires
            old(self).wf(),
        ensures
            final(self).wf(),
            final(self)@ == with_record(
                old(self)@,
                id@,
                provider_introduced(record_at(old(self)@, id@, now), ticket@),
            ),
    {
        let ghost before = self@;
        let (i, mut rec) = self.take(id, now);
        rec.we_fetched_from_them = true;
        rec.ticket = Some(owned(ticket));
        rec.discovery = Discovery::Ticket;
        self.put(i, id, rec);
        proof {
            lemma_reinsert(before.peers, id@, provider_introduced(record_at(before, id@, now), ticket@));
        }
    }

    /// Keeps a peer remembered from the last run, unless it is known already.
    pub fn remember(
        &mut self,
        id: &str,
        first_seen: u128,
        last_activity: u128,
        refs: Vec<String>,
        ticket: Option<String>,
    )
        requires
            old(self).wf(),
        ensures
            final(self).wf(),
            final(self)@ == if old(self)@.peers.contains_key(id@) {
                old(self)@
            } else {
                with_record(
                    old(self)@,
                    id@,
                    remembered(first_seen, last_activity, string_views(refs@), opt_text(ticket)),
                )
            },
    {
        let ghost before = self@;
        let key = chars_of(id);
        match self.find(&key) {
            Ok(i) => {
                proof {
                    lemma_views_unique(self.peers@);
                    lemma_as_map(peer_views(self.peers@));
                    assert(peer_views(self.peers@)[i as int].0 == id@);
                }
            },
            Err(i) => {
                proof {
                    lemma_views_unique(self.peers@);
                    lemma_as_map(peer_views(self.peers@));
                    assert(!before.peers.contains_key(id@)) by {
                        if before.peers.contains_key(id@) {
                            let j = choose|j: int| 0 <= j < peer_views(self.peers@).len() && peer_views(self.peers@)[j].0 == id@;
                            assert(peer_ids(self.peers@)[j] == id@);
                        }
                    }
                }
                let mut rec = PeerRecord::fresh(first_seen);
                rec.discovery = Discovery::Remembered;
                rec.last_activity = last_activity;
                rec.refs_advertised = refs;
                rec.ticket = ticket;
                self.put(i, id, rec);
            },
        }
    }

    /// Notes a seed whose ticket was scanned.
    pub fn introduce_seed(&mut self, id: &str, now: u128)
        requires
            old(self).wf(),
        ensures
            final(self).wf(),
            final(self)@ == with_record(
                old(self)@,
                id@,
                RecordV { discovery: DiscoveryV::Ticket, ..record_at(old(self)@, id@, now) },
            ),
    {
        let ghost before = self@;
        let (i, mut rec) = self.take(id, now);
        rec.discovery = Discovery::Ticket;
        self.put(i, id, rec);
        proof {
            lemma_reinsert(before.peers, id@, RecordV { discovery: DiscoveryV::Ticket, ..record_at(before, id@, now) });
        }
    }

    /// Notes the ref through which a peer was found; hearing of it is activity.
    pub fn note_ref(&mut self, id: &str, name: &str, now: u128)
        requires
            old(self).wf(),
        ensures
            final(self).wf(),
            final(self)@ == with_record(
                old(self)@,
                id@,
                RecordV { introduced_by_ref: Some(name@), ..heard(record_at(old(self)@, id@, now), now) },
            ),
    {
        let ghost before = self@;
        let (i, mut rec) = self.take(id, now);
        rec.last_activity = now;
        rec.introduced_by_ref = Some(owned(name));
        self.put(i, id, rec);
        proof {
            lemma_reinsert(
                before.peers,
                id@,
                RecordV { introduced_by_ref: Some(name@), ..heard(record_at(before, id@, now), now) },
            );
        }
    }

    /// Notes how the last exchange with a peer ended.
    pub fn set_outcome(&mut self, id: &str, outcome: String, now: u128)
        requires
            old(self).wf(),
        ensures
            final(self).wf(),
            final(self)@ == with_record(
                old(self)@,
                id@,
                RecordV { outcome: Some(outcome@), ..record_at(old(self)@, id@, now) },
            ),
    {
        let ghost before = self@;
        let ghost o = outcome@;
        let (i, mut rec) = self.take(id, now);
        rec.outcome = Some(outcome);
        self.put(i, id, rec);
        proof {
            lemma_reinsert(before.peers, id@, RecordV { outcome: Some(o), ..record_at(before, id@, now) });
        }
    }

    /// Counts payload bytes fetched from a peer; a fetch is activity.
    pub fn add_payload_received(&mut self, id: &str, bytes: u64, now: u128)
        requires
            old(self).wf(),
            record_at(old(self)@, id@, now).payload_bytes_received + bytes <= u64::MAX,
        ensures
            final(self).wf(),
            final(self)@ == with_record(
                old(self)@,
                id@,
                RecordV {
                    payload_bytes_received: (record_at(old(self)@, id@, now).payload_bytes_received + bytes) as u64,
                    ever_connected: true,
                    we_fetched_from_them: true,
                    ..heard(record_at(old(self)@, id@, now), now)
                },
            ),
    {
        let ghost before = self@;
        let (i, mut rec) = self.take(id, now);
        rec.last_activity = now;
        rec.payload_bytes_received = rec.payload_bytes_received + bytes;
        rec.ever_connected = true;
        rec.we_fetched_from_them = true;
        self.put(i, id, rec);
        proof {
            let r0 = record_at(before, id@, now);
            lemma_reinsert(
                before.peers,
                id@,
                RecordV {
                    payload_bytes_received: (r0.payload_bytes_received + bytes) as u64,
                    ever_connected: true,
                    we_fetched_from_them: true,
                    ..heard(r0, now)
                },
            );
        }
    }

    /// Opens a connection to a peer under the next serial; opening is activity.
    pub fn connection_opened(&mut self, id: &str, now: u128) -> (key: ConnectionKey)
        requires
            old(self).wf(),
            record_at(old(self)@, id@, now).total_connections < u64::MAX,
        ensures
            final(self).wf(),
            key.id@ == id@,
            key.serial == old(self)@.serial,
            final(self)@ == (RegistryV {
                serial: next_serial(old(self)@.serial),
                ..with_record(old(self)@, id@, opened(heard(record_at(old(self)@, id@, now), now), old(self)@.serial))
            }),
    {
        let ghost before = self@;
        let serial = self.serial;
        self.serial = self.serial.wrapping_add(1);
        let (i, mut rec) = self.take(id, now);
        rec.last_activity = now;
        rec.we_served_them = true;
        rec.ever_connected = true;
        rec.total_connections = rec.total_connections + 1;
        rec.live.insert(serial, (0, 0));
        self.put(i, id, rec);
        proof {
            lemma_reinsert(before.peers, id@, opened(heard(record_at(before, id@, now), now), serial));
        }
        ConnectionKey { id: owned(id), serial }
    }

    /// Samples the byte counters of a connection; sampling is activity.
    pub fn observe(&mut self, key: &ConnectionKey, sent: u64, received: u64, rtt: Option<u128>, now: u128)
        requires
            old(self).wf(),
            record_at(old(self)@, key.id@, now).wire_bytes_sent + above(
                sent,
                sample(record_at(old(self)@, key.id@, now), key.serial).0,
            ) <= u64::MAX,
            record_at(old(self)@, key.id@, now).wire_bytes_received + above(
                received,
                sample(record_at(old(self)@, key.id@, now), key.serial).1,
            ) <= u64::MAX,
        ensures
            final(self).wf(),
            final(self)@ == with_record(
                old(self)@,
                key.id@,
                observed(heard(record_at(old(self)@, key.id@, now), now), key.serial, sent, received, rtt),
            ),
    {
        let ghost before = self@;
        let (i, mut rec) = self.take(key.id.as_str(), now);
        rec.last_activity = now;
        let previous = match rec.live.get(&key.serial) {
            Some(p) => *p,
            None => (0, 0),
        };
        let more_sent = if sent >= previous.0 { sent - previous.0 } else { 0 };
        let more_received = if received >= previous.1 { received - previous.1 } else { 0 };
        rec.wire_bytes_sent = rec.wire_bytes_sent + more_sent;
        rec.wire_bytes_received = rec.wire_bytes_received + more_received;
        rec.wire_bytes_known = true;
        if rec.live.contains_key(&key.serial) {
            rec.live.insert(key.serial, (sent, received));
        }
        if rtt.is_some() {
            rec.rtt = rtt;
        }
        self.put(i, key.id.as_str(), rec);
        proof {
            lemma_reinsert(
                before.peers,
                key.id@,
                observed(heard(record_at(before, key.id@, now), now), key.serial, sent, received, rtt),
            );
        }
    }

    /// Closes a connection; closing is activity.
    pub fn connection_closed(&mut self, key: &ConnectionKey, now: u128)
        requires
            old(self).wf(),
        ensures
            final(self).wf(),
            final(self)@ == with_record(
                old(self)@,
                key.id@,
                RecordV {
                    live: record_at(old(self)@, key.id@, now).live.remove(key.serial),
                    ..heard(record_at(old(self)@, key.id@, now), now)
                },
            ),
    {
        let ghost before = self@;
        let (i, mut rec) = self.take(key.id.as_str(), now);
        rec.last_activity = now;
        rec.live.remove(&key.serial);
        self.put(i, key.id.as_str(), rec);
        proof {
            let r0 = record_at(before, key.id@, now);
            lemma_reinsert(before.peers, key.id@, RecordV { live: r0.live.remove(key.serial), ..heard(r0, now) });
        }
    }

    /// Notes gossip introducing a peer.
    pub fn learned_by_gossip(&mut self, id: &str, from: &str, now: u128)
        requires
            old(self).wf(),
        ensures
            final(self).wf(),
            final(self)@ == with_record(old(self)@, id@, gossiped(record_at(old(self)@, id@, now), from@)),
    {
        let ghost before = self@;
        let (i, mut rec) = self.take(id, now);
        let inbound = match rec.discovery {
            Discovery::Inbound => true,
            _ => false,
        };
        if inbound && rec.total_connections == 0 {
            rec.discovery = Discovery::Gossip(owned(from));
        }
        self.put(i, id, rec);
        proof {
            lemma_reinsert(before.peers, id@, gossiped(record_at(before, id@, now), from@));
        }
    }

    /// Counts a failed dial; a failure is not activity.
    pub fn note_dial_failure(&mut self, id: &str, error: String, now: u128)
        requires
            old(self).wf(),
            record_at(old(self)@, id@, now).dial_failures < u32::MAX,
        ensures
            final(self).wf(),
            final(self)@ == with_record(
                old(self)@,
                id@,
                RecordV {
                    dial_failures: (record_at(old(self)@, id@, now).dial_failures + 1) as u32,
                    last_dial_error: Some(error@),
                    ..record_at(old(self)@, id@, now)
                },
            ),
    {
        let ghost before = self@;
        let ghost e = error@;
        let (i, mut rec) = self.take(id, now);
        rec.dial_failures = rec.dial_failures + 1;
        rec.last_dial_error = Some(error);
        self.put(i, id, rec);
        proof {
            let r0 = record_at(before, id@, now);
            lemma_reinsert(
                before.peers,
                id@,
                RecordV { dial_failures: (r0.dial_failures + 1) as u32, last_dial_error: Some(e), ..r0 },
            );
        }
    }

    /// Notes a successful dial: the failures are forgotten; a dial is activity.
    pub fn note_dial_success(&mut self, id: &str, now: u128)
        requires
            old(self).wf(),
        ensures
            final(self).wf(),
            final(self)@ == with_record(
                old(self)@,
                id@,
                RecordV {
                    dial_failures: 0,
                    last_dial_error: None,
                    ever_connected: true,
                    ..heard(record_at(old(self)@, id@, now), now)
                },
            ),
    {
        let ghost before = self@;
        let (i, mut rec) = self.take(id, now);
        rec.last_activity = now;
        rec.dial_failures = 0;
        rec.last_dial_error = None;
        rec.ever_connected = true;
        self.put(i, id, rec);
        proof {
            let r0 = record_at(before, id@, now);
            lemma_reinsert(
                before.peers,
                id@,
                RecordV { dial_failures: 0, last_dial_error: None, ever_connected: true, ..heard(r0, now) },
            );
        }
    }

    /// Notes the refs a peer advertised; a completed exchange is activity.
    pub fn note_advertised_refs(&mut self, id: &str, refs: Vec<String>, now: u128)
        requires
            old(self).wf(),
        ensures
            final(self).wf(),
            final(self)@ == with_record(
                old(self)@,
                id@,
                RecordV { refs_advertised: string_views(refs@), ..heard(record_at(old(self)@, id@, now), now) },
            ),
    {
        let ghost before = self@;
        let ghost rv = string_views(refs@);
        let (i, mut rec) = self.take(id, now);
        rec.last_activity = now;
        rec.refs_advertised = refs;
        self.put(i, id, rec);
        proof {
            lemma_reinsert(before.peers, id@, RecordV { refs_advertised: rv, ..heard(record_at(before, id@, now), now) });
        }
    }

    /// Sets the addresses of a known peer, checked at `now`; a peer not met is left alone.
    pub fn set_addrs(&mut self, id: &str, active: Vec<String>, inactive: Vec<String>, now: u128)
        requires
            old(self).wf(),
        ensures
            final(self).wf(),
            final(self)@ == if old(self)@.peers.contains_key(id@) {
                with_record(
                    old(self)@,
                    id@,
                    RecordV {
                        active_addrs: string_views(active@),
                        inactive_addrs: string_views(inactive@),
                        addrs_checked: Some(now),
                        ..old(self)@.peers[id@]
                    },
                )
            } else {
                old(self)@
            },
    {
        let ghost before = self@;
        let ghost av = string_views(active@);
        let ghost iv = string_views(inactive@);
        let key = chars_of(id);
        match self.find(&key) {
            Ok(j) => {
                proof {
                    lemma_views_unique(self.peers@);
                    lemma_as_map(peer_views(self.peers@));
                    assert(peer_views(self.peers@)[j as int].0 == id@);
                    assert(before.peers.contains_key(id@));
                }
                let (i, mut rec) = self.take(id, now);
                rec.active_addrs = active;
                rec.inactive_addrs = inactive;
                rec.addrs_checked = Some(now);
                self.put(i, id, rec);
                proof {
                    lemma_reinsert(
                        before.peers,
                        id@,
                        RecordV { active_addrs: av, inactive_addrs: iv, addrs_checked: Some(now), ..before.peers[id@] },
                    );
                }
            },
            Err(i) => {
                proof {
                    lemma_views_unique(self.peers@);
                    lemma_as_map(peer_views(self.peers@));
                    if before.peers.contains_key(id@) {
                        let j = choose|j: int| 0 <= j < peer_views(self.peers@).len() && peer_views(self.peers@)[j].0 == id@;
                        assert(peer_ids(self.peers@)[j] == id@);
                    }
                }
            },
        }
    }
}

fn copy_strings(v: &Vec<String>) -> (c: Vec<String>)
    ensures
        string_views(c@) == string_views(v@),
{
    let mut c: Vec<String> = Vec::new();
    let mut i: usize = 0;
    while i < v.len()
        invariant
            i <= v.len(),
            c.len() == i,
            forall|j: int| 0 <= j < i ==> #[trigger] c@[j]@ == v@[j]@,
        decreases v.len() - i,
    {
        c.push(v[i].clone());
        i = i + 1;
    }
    assert(string_views(c@) =~= string_views(v@));
    c
}

/// A copy of a ref status.
pub fn copy_status(s: &RefStatus) -> (c: RefStatus)
    ensures
        status_view(c) == status_view(*s),
{
    RefStatus {
        name: s.name.clone(),
        manifest: s.manifest.clone(),
        held: s.held,
        total: s.total,
        providers: copy_strings(&s.providers),
    }
}

impl PeerRegistry {
    /// Keeps the status of a ref, in place of any earlier status of its name.
    pub fn set_ref_status(&mut self, status: RefStatus)
        requires
            old(self).wf(),
        ensures
            final(self).wf(),
            final(self)@ == (RegistryV { refs: old(self)@.refs.insert(status.name@, status_view(status)), ..old(self)@ }),
    {
        let ghost s = self.refs@;
        let ghost ks = status_names(s);
        let ghost sv = status_view(status);
        proof {
            lemma_statuses_unique(s);
            lemma_as_map(status_pairs(s));
        }
        let key = chars_of(status.name.as_str());
        let mut i: usize = 0;
        while i < self.refs.len() && name_before(&self.refs[i].name, &key)
            invariant
                i <= self.refs.len(),
                s == self.refs@,
                ks == status_names(s),
                names_increasing(ks),
                key@ == status.name@,
                forall|j: int| 0 <= j < i ==> name_lt(#[trigger] ks[j], key@),
            decreases self.refs.len() - i,
        {
            assert(ks[i as int] == self.refs@[i as int].name@);
            i = i + 1;
        }
        let same = i < self.refs.len() && crate::text::same_chars(&chars_of(self.refs[i].name.as_str()), &key);
        if same {
            proof {
                assert(ks[i as int] == status.name@);
                lemma_as_map_update(status_pairs(s), i as int, sv);
                assert(status_pairs(s)[i as int].0 == status.name@);
            }
            self.refs.remove(i);
            self.refs.insert(i, status);
            proof {
                assert(self.refs@ =~= s.update(i as int, status));
                assert(status_pairs(self.refs@) =~= status_pairs(s).update(i as int, (status_pairs(s)[i as int].0, sv)));
                assert(status_names(self.refs@) =~= ks);
            }
        } else {
            proof {
                if i < ks.len() {
                    assert(ks[i as int] == self.refs@[i as int].name@);
                    lemma_name_total(ks[i as int], key@);
                    assert(name_lt(key@, ks[i as int]));
                }
                assert forall|j: int| i <= j < ks.len() implies name_lt(key@, #[trigger] ks[j]) by {
                    if j > i {
                        lemma_name_lt_trans(key@, ks[i as int], ks[j]);
                    }
                }
                assert forall|j: int| 0 <= j < s.len() implies (#[trigger] status_pairs(s)[j]).0 != key@ by {
                    assert(status_pairs(s)[j].0 == ks[j]);
                }
                lemma_as_map_insert(status_pairs(s), i as int, key@, sv);
            }
            self.refs.insert(i, status);
            proof {
                assert(self.refs@ =~= s.insert(i as int, status));
                assert(status_pairs(self.refs@) =~= status_pairs(s).insert(i as int, (key@, sv)));
                let t = status_names(self.refs@);
                assert(t =~= ks.insert(i as int, key@));
                assert forall|a: int, b: int| 0 <= a < b < t.len() implies name_lt(#[trigger] t[a], #[trigger] t[b]) by {
                    if b < i {
                        assert(t[a] == ks[a] && t[b] == ks[b]);
                    } else if b == i {
                        assert(t[a] == ks[a]);
                    } else if a < i {
                        assert(t[a] == ks[a] && t[b] == ks[b - 1]);
                    } else if a == i {
                        assert(t[b] == ks[b - 1]);
                    } else {
                        assert(t[a] == ks[a - 1]);
                        assert(t[b] == ks[b - 1]);
                    }
                }
            }
        }
    }

    /// The status of every ref, in order of names.
    pub fn ref_statuses(&self) -> (r: Vec<RefStatus>)
        requires
            self.wf(),
        ensures
            names_increasing(status_names(r@)),
            as_map(status_pairs(r@)) == self@.refs,
    {
        let mut r: Vec<RefStatus> = Vec::new();
        let mut i: usize = 0;
        while i < self.refs.len()
            invariant
                i <= self.refs.len(),
                r.len() == i,
                forall|j: int| 0 <= j < i ==> status_view(#[trigger] r@[j]) == status_view(self.refs@[j]),
            decreases self.refs.len() - i,
        {
            r.push(copy_status(&self.refs[i]));
            i = i + 1;
        }
        assert(status_pairs(r@) =~= status_pairs(self.refs@));
        assert(status_names(r@) =~= status_names(self.refs@));
        r
    }

    /// The ids of every peer met, in order.
    pub fn ids(&self) -> (r: Vec<String>)
        requires
            self.wf(),
        ensures
            names_increasing(string_views(r@)),
            string_views(r@).to_set() == self@.peers.dom(),
    {
        let mut r: Vec<String> = Vec::new();
        let mut i: usize = 0;
        while i < self.peers.len()
            invariant
                i <= self.peers.len(),
                r.len() == i,
                forall|j: int| 0 <= j < i ==> #[trigger] r@[j]@ == self.peers@[j].0@,
            decreases self.peers.len() - i,
        {
            r.push(self.peers[i].0.clone());
            i = i + 1;
        }
        proof {
            assert(string_views(r@) =~= peer_ids(self.peers@));
            lemma_views_unique(self.peers@);
            lemma_as_map(peer_views(self.peers@));
            assert forall|k: Seq<char>| string_views(r@).to_set().contains(k) <==> self@.peers.dom().contains(k) by {
                if string_views(r@).to_set().contains(k) {
                    let j = choose|j: int| 0 <= j < string_views(r@).len() && string_views(r@)[j] == k;
                    assert(peer_views(self.peers@)[j].0 == k);
                }
                if self@.peers.dom().contains(k) {
                    let j = choose|j: int| 0 <= j < peer_views(self.peers@).len() && peer_views(self.peers@)[j].0 == k;
                    assert(string_views(r@)[j] == k);
                }
            }
            assert(string_views(r@).to_set() =~= self@.peers.dom());
        }
        r
    }
}

/// The ids of the peers among `s` that pruning drops.
pub open spec fn dropped_ids(s: Seq<(Seq<char>, RecordV)>, older_than: u128, now: u128) -> Set<Seq<char>> {
    Set::new(|x: Seq<char>| exists|m: int| 0 <= m < s.len() && (#[trigger] s[m]).0 == x && !kept(s[m].1, older_than, now))
}

impl PeerRegistry {
    /// Drops every peer silent for longer than `older_than` at `now` unless it
    /// holds a live connection; the ids dropped, in order.
    pub fn prune_dead(&mut self, older_than: u128, now: u128) -> (dropped: Vec<String>)
        requires
            old(self).wf(),
        ensures
            final(self).wf(),
            final(self)@ == (RegistryV {
                peers: restrict(old(self)@.peers, |k: Seq<char>, r: RecordV| kept(r, older_than, now)),
                ..old(self)@
            }),
            names_increasing(string_views(dropped@)),
            string_views(dropped@).to_set() == old(self)@.peers.dom().filter(
                |k: Seq<char>| !kept(old(self)@.peers[k], older_than, now),
            ),
    {
        let ghost before = self@;
        let ghost f = |k: Seq<char>, r: RecordV| kept(r, older_than, now);
        let mut rest: Vec<(String, PeerRecord)> = Vec::new();
        std::mem::swap(&mut rest, &mut self.peers);
        let ghost orig = rest@;
        let ghost s = peer_views(orig);
        let ghost ids = peer_ids(orig);
        proof {
            lemma_views_unique(orig);
            assert(peer_views(Seq::<(String, PeerRecord)>::empty()) =~= s.take(0));
            assert(as_map(s.take(0)) =~= Map::<Seq<char>, RecordV>::empty());
            assert(restrict(as_map(s.take(0)), f) =~= Map::<Seq<char>, RecordV>::empty());
            assert(peer_views(Seq::<(String, PeerRecord)>::empty()) =~= Seq::<(Seq<char>, RecordV)>::empty());
        }
        let mut keep: Vec<(String, PeerRecord)> = Vec::new();
        let mut dropped: Vec<String> = Vec::new();
        let ghost mut k: int = 0;
        assert(string_views(dropped@).to_set() =~= dropped_ids(s.take(0), older_than, now));
        while rest.len() > 0
            invariant
                0 <= k <= orig.len(),
                rest@ == orig.skip(k),
                s == peer_views(orig),
                ids == peer_ids(orig),
                names_increasing(ids),
                unique_keys(s),
                f == (|k: Seq<char>, r: RecordV| kept(r, older_than, now)),
                as_map(peer_views(keep@)) == restrict(as_map(s.take(k)), f),
                unique_keys(peer_views(keep@)),
                names_increasing(peer_ids(keep@)),
                forall|j: int| 0 <= j < keep@.len() ==> exists|m: int| 0 <= m < k && ids[m] == (#[trigger] peer_ids(keep@)[j]),
                names_increasing(string_views(dropped@)),
                forall|j: int| 0 <= j < dropped@.len() ==> exists|m: int| 0 <= m < k && ids[m] == (#[trigger] string_views(dropped@)[j]),
                string_views(dropped@).to_set() == dropped_ids(s.take(k), older_than, now),
                self.peers@.len() == 0,
                self.refs@ == old(self).refs@,
                self.serial == old(self).serial,
            decreases rest.len(),
        {
            let e = rest.remove(0);
            proof {
                assert(e == orig[k]);
                assert(rest@ =~= orig.skip(k + 1));
                assert(s[k] == (e.0@, e.1@));
                assert(ids[k] == e.0@);
                crate::assoc::lemma_restrict_step(s, k, f);
            }
            let stale_now = now >= e.1.last_activity && now - e.1.last_activity > older_than;
            let keep_it = !e.1.live.is_empty() || !stale_now;
            proof {
                assert(keep_it == f(s[k].0, s[k].1));
            }
            if keep_it {
                let ghost kv = peer_views(keep@);
                proof {
                    assert(!as_map(kv).contains_key(e.0@));
                    crate::assoc::lemma_as_map_push(kv, e.0@, e.1@);
                }
                let ghost ki = peer_ids(keep@);
                keep.push(e);
                proof {
                    assert(peer_views(keep@) =~= kv.push((ids[k], s[k].1)));
                    let t = peer_ids(keep@);
                    assert(t =~= ki.push(ids[k]));
                    assert forall|a: int, b: int| 0 <= a < b < t.len() implies name_lt(#[trigger] t[a], #[trigger] t[b]) by {
                        if b == ki.len() {
                            assert(t[a] == ki[a]);
                            let m = choose|m: int| 0 <= m < k && ids[m] == ki[a];
                        } else {
                            assert(t[a] == ki[a] && t[b] == ki[b]);
                        }
                    }
                    assert forall|j: int| 0 <= j < t.len() implies exists|m: int| 0 <= m < k + 1 && ids[m] == (#[trigger] t[j]) by {
                        if j < ki.len() {
                            assert(t[j] == ki[j]);
                            let m = choose|m: int| 0 <= m < k && ids[m] == ki[j];
                        } else {
                            assert(t[j] == ids[k]);
                        }
                    }
                    assert(dropped_ids(s.take(k + 1), older_than, now) =~= dropped_ids(s.take(k), older_than, now)) by {
                        assert forall|x: Seq<char>| dropped_ids(s.take(k + 1), older_than, now).contains(x) implies dropped_ids(s.take(k), older_than, now).contains(x) by {
                            let m = choose|m: int| 0 <= m < s.take(k + 1).len() && (#[trigger] s.take(k + 1)[m]).0 == x && !kept(s.take(k + 1)[m].1, older_than, now);
                            assert(m != k);
                            assert(s.take(k)[m] == s.take(k + 1)[m]);
                        }
                        assert forall|x: Seq<char>| dropped_ids(s.take(k), older_than, now).contains(x) implies dropped_ids(s.take(k + 1), older_than, now).contains(x) by {
                            let m = choose|m: int| 0 <= m < s.take(k).len() && (#[trigger] s.take(k)[m]).0 == x && !kept(s.take(k)[m].1, older_than, now);
                            assert(s.take(k)[m] == s.take(k + 1)[m]);
                        }
                    }
                    assert forall|j: int| 0 <= j < dropped@.len() implies exists|m: int| 0 <= m < k + 1 && ids[m] == (#[trigger] string_views(dropped@)[j]) by {
                        let m = choose|m: int| 0 <= m < k && ids[m] == string_views(dropped@)[j];
                    }
                }
            } else {
                let ghost dv = string_views(dropped@);
                dropped.push(e.0);
                proof {
                    let t = string_views(dropped@);
                    assert(t =~= dv.push(ids[k]));
                    assert forall|a: int, b: int| 0 <= a < b < t.len() implies name_lt(#[trigger] t[a], #[trigger] t[b]) by {
                        if b == dv.len() {
                            assert(t[a] == dv[a]);
                            let m = choose|m: int| 0 <= m < k && ids[m] == dv[a];
                        } else {
                            assert(t[a] == dv[a] && t[b] == dv[b]);
                        }
                    }
                    assert forall|j: int| 0 <= j < t.len() implies exists|m: int| 0 <= m < k + 1 && ids[m] == (#[trigger] t[j]) by {
                        if j < dv.len() {
                            assert(t[j] == dv[j]);
                            let m = choose|m: int| 0 <= m < k && ids[m] == dv[j];
                        } else {
                            assert(t[j] == ids[k]);
                        }
                    }
                    assert(t.to_set() =~= dropped_ids(s.take(k + 1), older_than, now)) by {
                        assert forall|x: Seq<char>| t.to_set().contains(x) implies dropped_ids(s.take(k + 1), older_than, now).contains(x) by {
                            let j = choose|j: int| 0 <= j < t.len() && t[j] == x;
                            if j < dv.len() {
                                assert(dv[j] == x);
                                assert(dv.to_set().contains(x));
                                let m = choose|m: int| 0 <= m < s.take(k).len() && (#[trigger] s.take(k)[m]).0 == x && !kept(s.take(k)[m].1, older_than, now);
                                assert(s.take(k)[m] == s.take(k + 1)[m]);
                            } else {
                                assert(s.take(k + 1)[k] == s[k]);
                            }
                        }
                        assert forall|x: Seq<char>| dropped_ids(s.take(k + 1), older_than, now).contains(x) implies t.to_set().contains(x) by {
                            let m = choose|m: int| 0 <= m < s.take(k + 1).len() && (#[trigger] s.take(k + 1)[m]).0 == x && !kept(s.take(k + 1)[m].1, older_than, now);
                            if m < k {
                                assert(s.take(k)[m] == s.take(k + 1)[m]);
                                assert(dropped_ids(s.take(k), older_than, now).contains(x));
                                assert(dv.to_set().contains(x));
                                let j = choose|j: int| 0 <= j < dv.len() && dv[j] == x;
                                assert(t[j] == x);
                            } else {
                                assert(t[dv.len() as int] == x);
                            }
                        }
                    }
                    assert forall|j: int| 0 <= j < keep@.len() implies exists|m: int| 0 <= m < k + 1 && ids[m] == (#[trigger] peer_ids(keep@)[j]) by {
                        let m = choose|m: int| 0 <= m < k && ids[m] == peer_ids(keep@)[j];
                    }
                }
            }
            proof {
                k = k + 1;
            }
        }
        proof {
            assert(k == orig.len()) by {
                assert(orig.skip(k).len() == 0);
            }
            assert(s.take(k) =~= s);
            lemma_as_map(s);
            assert(before.peers == as_map(s));
            let g = |x: Seq<char>| !kept(before.peers[x], older_than, now);
            assert(string_views(dropped@).to_set() =~= before.peers.dom().filter(g)) by {
                assert forall|x: Seq<char>| dropped_ids(s, older_than, now).contains(x) <==> before.peers.dom().filter(g).contains(x) by {
                    if dropped_ids(s, older_than, now).contains(x) {
                        let m = choose|m: int| 0 <= m < s.len() && (#[trigger] s[m]).0 == x && !kept(s[m].1, older_than, now);
                        assert(before.peers[s[m].0] == s[m].1);
                    }
                    if before.peers.dom().filter(g).contains(x) {
                        let m = choose|m: int| 0 <= m < s.len() && s[m].0 == x;
                        assert(before.peers[s[m].0] == s[m].1);
                        assert((#[trigger] s[m]).0 == x);
                    }
                }
            }
        }
        self.peers = keep;
        dropped
    }
}

/// What the node shows of one peer at one moment.
#[derive(Debug)]
pub struct PeerSnapshot {
    pub id: String,
    pub we_served_them: bool,
    pub we_fetched_from_them: bool,
    pub wire_bytes_sent: u64,
    pub wire_bytes_received: u64,
    pub payload_bytes_received: u64,
    pub wire_bytes_known: bool,
    pub state: LinkState,
    pub live_connections: usize,
    pub total_connections: u64,
    pub rtt: Option<u128>,
    pub active_addrs: Vec<String>,
    pub inactive_addrs: Vec<String>,
    pub addrs_checked: Option<u128>,
    pub first_seen: u128,
    pub last_activity: u128,
    pub introduced_by_ref: Option<String>,
    pub ticket: Option<String>,
    pub outcome: Option<String>,
    pub discovery: Discovery,
    pub dial_failures: u32,
    pub last_dial_error: Option<String>,
    pub refs_advertised: Vec<String>,
}

pub struct SnapshotV {
    pub id: Seq<char>,
    pub we_served_them: bool,
    pub we_fetched_from_them: bool,
    pub wire_bytes_sent: u64,
    pub wire_bytes_received: u64,
    pub payload_bytes_received: u64,
    pub wire_bytes_known: bool,
    pub state: LinkState,
    pub live_connections: nat,
    pub total_connections: u64,
    pub rtt: Option<u128>,
    pub active_addrs: Seq<Seq<char>>,
    pub inactive_addrs: Seq<Seq<char>>,
    pub addrs_checked: Option<u128>,
    pub first_seen: u128,
    pub last_activity: u128,
    pub introduced_by_ref: Option<Seq<char>>,
    pub ticket: Option<Seq<char>>,
    pub outcome: Option<Seq<char>>,
    pub discovery: DiscoveryV,
    pub dial_failures: u32,
    pub last_dial_error: Option<Seq<char>>,
    pub refs_advertised: Seq<Seq<char>>,
}

impl View for PeerSnapshot {
    type V = SnapshotV;

    open spec fn view(&self) -> SnapshotV {
        SnapshotV {
            id: self.id@,
            we_served_them: self.we_served_them,
            we_fetched_from_them: self.we_fetched_from_them,
            wire_bytes_sent: self.wire_bytes_sent,
            wire_bytes_received: self.wire_bytes_received,
            payload_bytes_received: self.payload_bytes_received,
            wire_bytes_known: self.wire_bytes_known,
            state: self.state,
            live_connections: self.live_connections as nat,
            total_connections: self.total_connections,
            rtt: self.rtt,
            active_addrs: string_views(self.active_addrs@),
            inactive_addrs: string_views(self.inactive_addrs@),
            addrs_checked: self.addrs_checked,
            first_seen: self.first_seen,
            last_activity: self.last_activity,
            introduced_by_ref: opt_text(self.introduced_by_ref),
            ticket: opt_text(self.ticket),
            outcome: opt_text(self.outcome),
            discovery: discovery_view(self.discovery),
            dial_failures: self.dial_failures,
            last_dial_error: opt_text(self.last_dial_error),
            refs_advertised: string_views(self.refs_advertised@),
        }
    }
}

/// The time since `then` at `now`, unless `then` lies ahead.
pub open spec fn since(then: u128, now: u128) -> Option<u128> {
    if now >= then {
        Some((now - then) as u128)
    } else {
        None
    }
}

/// What the node shows at `now` of the peer `id` with the record `rec`.
pub open spec fn snapshot_of(id: Seq<char>, rec: RecordV, now: u128) -> SnapshotV {
    SnapshotV {
        id,
        we_served_them: rec.we_served_them,
        we_fetched_from_them: rec.we_fetched_from_them,
        wire_bytes_sent: rec.wire_bytes_sent,
        wire_bytes_received: rec.wire_bytes_received,
        payload_bytes_received: rec.payload_bytes_received,
        wire_bytes_known: rec.wire_bytes_known,
        state: link_spec(!rec.live.is_empty(), rec.ever_connected, since(rec.last_activity, now)),
        live_connections: rec.live.len(),
        total_connections: rec.total_connections,
        rtt: rec.rtt,
        active_addrs: rec.active_addrs,
        inactive_addrs: rec.inactive_addrs,
        addrs_checked: rec.addrs_checked,
        first_seen: rec.first_seen,
        last_activity: rec.last_activity,
        introduced_by_ref: rec.introduced_by_ref,
        ticket: rec.ticket,
        outcome: rec.outcome,
        discovery: rec.discovery,
        dial_failures: rec.dial_failures,
        last_dial_error: rec.last_dial_error,
        refs_advertised: rec.refs_advertised,
    }
}

/// Whether `a` is listed before `b`: heard from more recently, or at the
/// same moment and with the smaller id.
pub open spec fn listed_before(a: SnapshotV, b: SnapshotV) -> bool {
    a.last_activity > b.last_activity || (a.last_activity == b.last_activity && name_lt(a.id, b.id))
}

pub open spec fn snapshot_views(s: Seq<PeerSnapshot>) -> Seq<SnapshotV> {
    Seq::new(s.len(), |i: int| s[i]@)
}

fn copy_text(o: &Option<String>) -> (c: Option<String>)
    ensures
        opt_text(c) == opt_text(*o),
{
    match o {
        Some(t) => Some(t.clone()),
        None => None,
    }
}

fn copy_discovery(d: &Discovery) -> (c: Discovery)
    ensures
        discovery_view(c) == discovery_view(*d),
{
    match d {
        Discovery::Ticket => Discovery::Ticket,
        Discovery::Inbound => Discovery::Inbound,
        Discovery::Gossip(from) => Discovery::Gossip(from.clone()),
        Discovery::Remembered => Discovery::Remembered,
    }
}

impl PeerSnapshot {
    /// What the node shows at `now` of the peer `id` with the record `rec`.
    pub fn of(id: &String, rec: &PeerRecord, now: u128) -> (s: Self)
        ensures
            s@ == snapshot_of(id@, rec@, now),
    {
        let since_activity = if now >= rec.last_activity {
            Some(now - rec.last_activity)
        } else {
            None
        };
        PeerSnapshot {
            id: id.clone(),
            we_served_them: rec.we_served_them,
            we_fetched_from_them: rec.we_fetched_from_them,
            wire_bytes_sent: rec.wire_bytes_sent,
            wire_bytes_received: rec.wire_bytes_received,
            payload_bytes_received: rec.payload_bytes_received,
            wire_bytes_known: rec.wire_bytes_known,
            state: link_state(!rec.live.is_empty(), rec.ever_connected, since_activity),
            live_connections: rec.live.len(),
            total_connections: rec.total_connections,
            rtt: rec.rtt,
            active_addrs: copy_strings(&rec.active_addrs),
            inactive_addrs: copy_strings(&rec.inactive_addrs),
            addrs_checked: rec.addrs_checked,
            first_seen: rec.first_seen,
            last_activity: rec.last_activity,
            introduced_by_ref: copy_text(&rec.introduced_by_ref),
            ticket: copy_text(&rec.ticket),
            outcome: copy_text(&rec.outcome),
            discovery: copy_discovery(&rec.discovery),
            dial_failures: rec.dial_failures,
            last_dial_error: copy_text(&rec.last_dial_error),
            refs_advertised: copy_strings(&rec.refs_advertised),
        }
    }

    /// The first twelve characters of the peer's id.
    pub fn short_id(&self) -> (s: String)
        ensures
            s@ == if self.id@.len() <= 12 {
                self.id@
            } else {
                self.id@.take(12)
            },
    {
        short_id(self.id.as_str())
    }

    /// Which kinds of path the peer's active addresses take.
    pub fn path_kind(&self) -> (p: PathKind)
        ensures
            p == ({
                let direct = crate::peers::any_starts(string_views(self.active_addrs@), "direct"@);
                let relay = crate::peers::any_starts(string_views(self.active_addrs@), "relay"@);
                if direct && relay {
                    PathKind::Mixed
                } else if direct {
                    PathKind::Direct
                } else if relay {
                    PathKind::Relay
                } else {
                    PathKind::Unknown
                }
            }),
    {
        path_kind(&self.active_addrs)
    }

    /// Whether the peer has any active address.
    pub fn has_active_path(&self) -> (r: bool)
        ensures
            r == (self.active_addrs@.len() > 0),
    {
        self.active_addrs.len() > 0
    }
}

/// Whether the snapshots are in listing order.
#[verifier::opaque]
pub open spec fn in_listing_order(vs: Seq<SnapshotV>) -> bool {
    forall|a: int, b: int| 0 <= a < b < vs.len() ==> listed_before(#[trigger] vs[a], #[trigger] vs[b])
}

/// Whether each snapshot shows one of the first `i` peers of `pv`.
#[verifier::opaque]
pub open spec fn drawn_from(vs: Seq<SnapshotV>, pv: Seq<(Seq<char>, RecordV)>, i: int, now: u128) -> bool {
    forall|a: int|
        0 <= a < vs.len() ==> exists|m: int|
            0 <= m < i && pv[m].0 == (#[trigger] vs[a]).id && vs[a] == snapshot_of(pv[m].0, pv[m].1, now)
}

/// Whether each of the first `i` peers of `pv` is shown.
#[verifier::opaque]
pub open spec fn covers(vs: Seq<SnapshotV>, pv: Seq<(Seq<char>, RecordV)>, i: int) -> bool {
    forall|m: int| 0 <= m < i ==> exists|a: int| 0 <= a < vs.len() && (#[trigger] vs[a]).id == #[trigger] view_ids(pv)[m]
}

pub open spec fn view_ids(pv: Seq<(Seq<char>, RecordV)>) -> Seq<Seq<char>> {
    Seq::new(pv.len(), |m: int| pv[m].0)
}

proof fn lemma_snapshot_step(
    before: Seq<SnapshotV>,
    p: int,
    sv: SnapshotV,
    pv: Seq<(Seq<char>, RecordV)>,
    i: int,
    now: u128,
)
    requires
        0 <= i < pv.len(),
        names_increasing(view_ids(pv)),
        sv == snapshot_of(pv[i].0, pv[i].1, now),
        0 <= p <= before.len(),
        forall|q: int| 0 <= q < p ==> (#[trigger] before[q]).last_activity >= sv.last_activity,
        p < before.len() ==> before[p].last_activity < sv.last_activity,
        in_listing_order(before),
        drawn_from(before, pv, i, now),
        covers(before, pv, i),
    ensures
        in_listing_order(before.insert(p, sv)),
        drawn_from(before.insert(p, sv), pv, i + 1, now),
        covers(before.insert(p, sv), pv, i + 1),
{
    reveal(in_listing_order);
    reveal(drawn_from);
    reveal(covers);
    let after = before.insert(p, sv);
    let ids = view_ids(pv);
    assert forall|a: int| 0 <= a < before.len() implies name_lt((#[trigger] before[a]).id, sv.id) by {
        let m = choose|m: int| 0 <= m < i && pv[m].0 == before[a].id && before[a] == snapshot_of(pv[m].0, pv[m].1, now);
        assert(ids[m] == pv[m].0 && ids[i] == pv[i].0);
    }
    assert forall|a: int, b: int| 0 <= a < b < after.len() implies listed_before(#[trigger] after[a], #[trigger] after[b]) by {
        if b < p {
            assert(after[a] == before[a] && after[b] == before[b]);
        } else if b == p {
            assert(after[a] == before[a]);
        } else if a < p {
            assert(after[a] == before[a] && after[b] == before[b - 1]);
        } else if a == p {
            assert(after[b] == before[b - 1]);
            if b - 1 > p {
                assert(listed_before(before[p], before[b - 1]));
            }
        } else {
            assert(after[a] == before[a - 1] && after[b] == before[b - 1]);
        }
    }
    assert forall|a: int| 0 <= a < after.len() implies exists|m: int|
        0 <= m < i + 1 && pv[m].0 == (#[trigger] after[a]).id && after[a] == snapshot_of(pv[m].0, pv[m].1, now) by {
        if a < p {
            assert(after[a] == before[a]);
            let m = choose|m: int| 0 <= m < i && pv[m].0 == before[a].id && before[a] == snapshot_of(pv[m].0, pv[m].1, now);
        } else if a == p {
            assert(after[a] == sv);
        } else {
            assert(after[a] == before[a - 1]);
            let m = choose|m: int| 0 <= m < i && pv[m].0 == before[a - 1].id && before[a - 1] == snapshot_of(pv[m].0, pv[m].1, now);
        }
    }
    assert forall|m: int| 0 <= m < i + 1 implies exists|a: int| 0 <= a < after.len() && (#[trigger] after[a]).id == #[trigger] ids[m] by {
        if m == i {
            assert(after[p].id == ids[m]);
        } else {
            let a = choose|a: int| 0 <= a < before.len() && (#[trigger] before[a]).id == ids[m];
            if a < p {
                assert(after[a] == before[a]);
            } else {
                assert(after[a + 1] == before[a]);
            }
        }
    }
}

proof fn lemma_snapshot_done(vs: Seq<SnapshotV>, pv: Seq<(Seq<char>, RecordV)>, now: u128)
    requires
        unique_keys(pv),
        vs.len() == pv.len(),
        drawn_from(vs, pv, pv.len() as int, now),
        covers(vs, pv, pv.len() as int),
    ensures
        vs.len() == as_map(pv).dom().len(),
        forall|a: int|
            0 <= a < vs.len() ==> as_map(pv).contains_key((#[trigger] vs[a]).id) && vs[a] == snapshot_of(
                vs[a].id,
                as_map(pv)[vs[a].id],
                now,
            ),
        forall|k: Seq<char>| #[trigger] as_map(pv).contains_key(k) ==> exists|a: int| 0 <= a < vs.len() && vs[a].id == k,
{
    reveal(drawn_from);
    reveal(covers);
    lemma_as_map(pv);
    lemma_dom_len(pv);
    let m = as_map(pv);
    assert forall|a: int| 0 <= a < vs.len() implies m.contains_key((#[trigger] vs[a]).id) && vs[a] == snapshot_of(vs[a].id, m[vs[a].id], now) by {
        let j = choose|j: int| 0 <= j < pv.len() && pv[j].0 == vs[a].id && vs[a] == snapshot_of(pv[j].0, pv[j].1, now);
        assert(m[pv[j].0] == pv[j].1);
    }
    assert forall|k: Seq<char>| #[trigger] m.contains_key(k) implies exists|a: int| 0 <= a < vs.len() && vs[a].id == k by {
        let j = choose|j: int| 0 <= j < pv.len() && pv[j].0 == k;
        assert(view_ids(pv)[j] == k);
        let a = choose|a: int| 0 <= a < vs.len() && (#[trigger] vs[a]).id == view_ids(pv)[j];
    }
}

impl PeerRegistry {
    /// What the node shows at `now` of every peer, the most recently heard first,
    /// and among those heard at one moment, in order of ids.
    pub fn snapshot(&self, now: u128) -> (r: Vec<PeerSnapshot>)
        requires
            self.wf(),
        ensures
            r@.len() == self@.peers.dom().len(),
            forall|i: int|
                0 <= i < r@.len() ==> self@.peers.contains_key((#[trigger] r@[i])@.id) && r@[i]@ == snapshot_of(
                    r@[i]@.id,
                    self@.peers[r@[i]@.id],
                    now,
                ),
            forall|k: Seq<char>| #[trigger] self@.peers.contains_key(k) ==> exists|i: int| 0 <= i < r@.len() && r@[i]@.id == k,
            forall|i: int, j: int| 0 <= i < j < r@.len() ==> listed_before((#[trigger] r@[i])@, (#[trigger] r@[j])@),
    {
        let ghost pv = peer_views(self.peers@);
        proof {
            lemma_views_unique(self.peers@);
            assert(view_ids(pv) =~= peer_ids(self.peers@));
            reveal(in_listing_order);
            reveal(drawn_from);
            reveal(covers);
            assert(snapshot_views(Seq::<PeerSnapshot>::empty()) =~= Seq::<SnapshotV>::empty());
        }
        let mut out: Vec<PeerSnapshot> = Vec::new();
        let mut i: usize = 0;
        while i < self.peers.len()
            invariant
                i <= self.peers.len(),
                pv == peer_views(self.peers@),
                names_increasing(view_ids(pv)),
                out@.len() == i,
                in_listing_order(snapshot_views(out@)),
                drawn_from(snapshot_views(out@), pv, i as int, now),
                covers(snapshot_views(out@), pv, i as int),
            decreases self.peers.len() - i,
        {
            let snap = PeerSnapshot::of(&self.peers[i].0, &self.peers[i].1, now);
            assert(pv[i as int] == (self.peers@[i as int].0@, self.peers@[i as int].1@));
            let ghost before = snapshot_views(out@);
            let mut p: usize = 0;
            while p < out.len() && out[p].last_activity >= snap.last_activity
                invariant
                    p <= out.len(),
                    before == snapshot_views(out@),
                    forall|q: int| 0 <= q < p ==> (#[trigger] before[q]).last_activity >= snap.last_activity,
                decreases out.len() - p,
            {
                assert(before[p as int] == out@[p as int]@);
                p = p + 1;
            }
            proof {
                if p < out.len() {
                    assert(before[p as int] == out@[p as int]@);
                }
                lemma_snapshot_step(before, p as int, snap@, pv, i as int, now);
            }
            let ghost sv = snap@;
            out.insert(p, snap);
            assert(snapshot_views(out@) =~= before.insert(p as int, sv));
            i = i + 1;
        }
        proof {
            lemma_snapshot_done(snapshot_views(out@), pv, now);
            reveal(in_listing_order);
            assert forall|a: int| 0 <= a < out@.len() implies (#[trigger] out@[a])@ == snapshot_views(out@)[a] by {}
        }
        out
    }
}

/// A list of pairs with distinct keys has as many keys as pairs.
proof fn lemma_dom_len(s: Seq<(Seq<char>, RecordV)>)
    requires
        unique_keys(s),
    ensures
        as_map(s).dom().len() == s.len(),
        as_map(s).dom().finite(),
    decreases s.len(),
{
    if s.len() > 0 {
        let t = s.drop_last();
        assert forall|a: int, b: int| 0 <= a < b < t.len() implies #[trigger] t[a].0 != #[trigger] t[b].0 by {
            assert(t[a] == s[a] && t[b] == s[b]);
        }
        lemma_dom_len(t);
        lemma_as_map(t);
        if as_map(t).contains_key(s.last().0) {
            let j = choose|j: int| 0 <= j < t.len() && t[j].0 == s.last().0;
            assert(s[j] == t[j]);
        }
    }
}

/// Pruning never drops a peer that holds a live connection, nor one heard
/// from within `older_than`; it drops every other one.
pub proof fn law_pruning_spares_the_live(r: RegistryV, older_than: u128, now: u128, id: Seq<char>)
    requires
        r.peers.contains_key(id),
    ensures
        !r.peers[id].live.is_empty() ==> restrict(r.peers, |k: Seq<char>, v: RecordV| kept(v, older_than, now)).contains_key(id),
        (now < r.peers[id].last_activity || now - r.peers[id].last_activity <= older_than) ==> restrict(
            r.peers,
            |k: Seq<char>, v: RecordV| kept(v, older_than, now),
        ).contains_key(id),
        (r.peers[id].live.is_empty() && stale(r.peers[id], older_than, now)) ==> !restrict(
            r.peers,
            |k: Seq<char>, v: RecordV| kept(v, older_than, now),
        ).contains_key(id),
{
}

/// A failed dial, gossip about a peer and the outcome of an exchange are
/// not activity: they leave the time a peer was last heard from as it was.
/// Advertised refs are: they set it to the time they came.
pub proof fn law_hearsay_is_not_activity(rec: RecordV, from: Seq<char>, error: Seq<char>, outcome: Seq<char>, refs: Seq<Seq<char>>, now: u128)
    requires
        rec.dial_failures < u32::MAX,
    ensures
        gossiped(rec, from).last_activity == rec.last_activity,
        (RecordV { dial_failures: (rec.dial_failures + 1) as u32, last_dial_error: Some(error), ..rec }).last_activity
            == rec.last_activity,
        (RecordV { outcome: Some(outcome), ..rec }).last_activity == rec.last_activity,
        (RecordV { refs_advertised: refs, ..heard(rec, now) }).last_activity == now,
{
}

/// Sampling a connection twice with counters that only grow adds, over
/// both samples, exactly the last counters: each sample counts only what
/// grew since the one before.
pub proof fn law_samples_count_deltas(
    rec: RecordV,
    serial: u64,
    sent1: u64,
    received1: u64,
    sent2: u64,
    received2: u64,
    rtt1: Option<u128>,
    rtt2: Option<u128>,
)
    requires
        rec.live.contains_key(serial),
        rec.live[serial] == (0u64, 0u64),
        sent1 <= sent2,
        received1 <= received2,
        rec.wire_bytes_sent + sent2 <= u64::MAX,
        rec.wire_bytes_received + received2 <= u64::MAX,
    ensures
        observed(observed(rec, serial, sent1, received1, rtt1), serial, sent2, received2, rtt2).wire_bytes_sent
            == rec.wire_bytes_sent + sent2,
        observed(observed(rec, serial, sent1, received1, rtt1), serial, sent2, received2, rtt2).wire_bytes_received
            == rec.wire_bytes_received + received2,
{
    let once = observed(rec, serial, sent1, received1, rtt1);
    assert(once.live[serial] == (sent1, received1));
}

/// Sampling one connection leaves the counters of every other connection
/// of the peer as they were.
pub proof fn law_connections_count_apart(rec: RecordV, serial: u64, other: u64, sent: u64, received: u64, rtt: Option<u128>)
    requires
        serial != other,
    ensures
        observed(rec, serial, sent, received, rtt).live.contains_key(other) == rec.live.contains_key(other),
        rec.live.contains_key(other) ==> observed(rec, serial, sent, received, rtt).live[other] == rec.live[other],
{
}

} // verus!
