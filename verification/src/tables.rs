//! Open tables heard first-hand and second-hand: what each host last said,
//! what was relayed about hosts we do not hear from, and which hosts withdrew.
//! Times are on two clocks: a monotonic one in nanoseconds (`now`), and the
//! wall clock in seconds since the epoch (`epoch`), which relays carry along.
use vstd::prelude::*;
use crate::assoc::{unique_keys, as_map, restrict, lemma_as_map, lemma_as_map_update, lemma_as_map_remove,
    lemma_as_map_push, lemma_restrict_step};
use crate::gossip::{HeardTable, TableAdvert};
use crate::mesh::{OpenTable, name_lt, lemma_name_total, lemma_name_antisym, lemma_name_lt_trans};
use crate::refs::{chars_le, name_le};
use crate::text::{chars_of, same_chars};

verus! {

/// How long hearsay about a table lasts after it was first heard, in seconds.
pub const RELAY_EXPIRY_SECS: u64 = 300;

/// How long a host's own advert lasts without a refresh, in nanoseconds.
pub const FIRST_HAND_EXPIRY_NANOS: u128 = 150000000000;

/// How long relayed news lasts after we learned it, in nanoseconds.
pub const RELAY_EXPIRY_NANOS: u128 = 300000000000;

/// Seconds from `heard_at` to `epoch`; none for a time in the future.
pub open spec fn secs_since(heard_at: u64, epoch: u64) -> int {
    if epoch >= heard_at {
        epoch - heard_at
    } else {
        0
    }
}

pub open spec fn fresh_spec(heard_at: u64, epoch: u64) -> bool {
    secs_since(heard_at, epoch) < RELAY_EXPIRY_SECS
}

/// Whether something heard at `heard_at` (seconds since the epoch) is still
/// fresh at `epoch`; a time in the future counts as just heard.
pub fn fresh(heard_at: u64, epoch: u64) -> (r: bool)
    ensures
        r == fresh_spec(heard_at, epoch),
{
    epoch.saturating_sub(heard_at) < RELAY_EXPIRY_SECS
}

/// Nanoseconds from `then` to `now` on the monotonic clock; none if `then`
/// is later.
pub open spec fn age(now: u128, then: u128) -> int {
    if now >= then {
        now - then
    } else {
        0
    }
}

fn age_below(now: u128, then: u128, limit: u128) -> (r: bool)
    ensures
        r == (age(now, then) < limit),
{
    if now >= then {
        now - then < limit
    } else {
        0 < limit
    }
}

/// A host's own advert: the table's name, when we saw it (monotonic), and
/// when we heard it (epoch seconds).
pub type FirstV = (Seq<char>, u128, u64);

/// Relayed news of a table: when it was heard (epoch seconds), and when we
/// learned it (monotonic).
pub type RelayV = (u64, u128);

/// What the book knows.
pub struct BookV {
    pub first: Map<Seq<char>, FirstV>,
    pub relayed: Map<(Seq<char>, Seq<char>), RelayV>,
    pub withdrawn: Map<Seq<char>, u64>,
}

/// Whether the host's own advert is current at `now`.
pub open spec fn direct_live(b: BookV, host: Seq<char>, now: u128) -> bool {
    b.first.contains_key(host) && age(now, b.first[host].1) < FIRST_HAND_EXPIRY_NANOS
}

/// Whether relayed news of `key` counts at `now` and `epoch`: its host has
/// no current advert of its own, and the news is fresh both ways.
pub open spec fn relay_live(b: BookV, key: (Seq<char>, Seq<char>), now: u128, epoch: u64) -> bool {
    &&& b.relayed.contains_key(key)
    &&& !direct_live(b, key.0, now)
    &&& fresh_spec(b.relayed[key].0, epoch)
    &&& age(now, b.relayed[key].1) < RELAY_EXPIRY_NANOS
}

/// The tables the book lists: host, table, when it was heard, and whether
/// second-hand.
pub open spec fn entry_set(b: BookV, now: u128, epoch: u64) -> Set<(Seq<char>, Seq<char>, u64, bool)> {
    Set::new(
        |e: (Seq<char>, Seq<char>, u64, bool)|
            {
                ||| !e.3 && direct_live(b, e.0, now) && e.1 == b.first[e.0].0 && e.2 == b.first[e.0].2
                ||| e.3 && relay_live(b, (e.0, e.1), now, epoch) && e.2 == b.relayed[(e.0, e.1)].0
            },
    )
}

/// The host and table pairs the book lists.
pub open spec fn visible(b: BookV, now: u128, epoch: u64) -> Set<(Seq<char>, Seq<char>)> {
    Set::new(
        |p: (Seq<char>, Seq<char>)|
            (direct_live(b, p.0, now) && p.1 == b.first[p.0].0) || relay_live(b, p, now, epoch),
    )
}

/// Relayed news about hosts other than `host`.
pub open spec fn relays_not_of(m: Map<(Seq<char>, Seq<char>), RelayV>, host: Seq<char>) -> Map<
    (Seq<char>, Seq<char>),
    RelayV,
> {
    restrict(m, |k: (Seq<char>, Seq<char>), v: RelayV| k.0 != host)
}

/// Hearing from `host` directly: its advert replaces hearsay about it; a
/// withdrawal records when, if it had anything listed.
pub open spec fn hear_spec(b: BookV, host: Seq<char>, advert: Option<Seq<char>>, now: u128, epoch: u64) -> BookV {
    let relayed = relays_not_of(b.relayed, host);
    match advert {
        Some(name) => BookV {
            first: b.first.insert(host, (name, now, epoch)),
            relayed,
            withdrawn: b.withdrawn.remove(host),
        },
        None => BookV {
            first: b.first.remove(host),
            relayed,
            withdrawn: if b.first.contains_key(host) || exists|n: Seq<char>|
                #[trigger] visible(b, now, epoch).contains((host, n)) {
                b.withdrawn.insert(host, epoch)
            } else {
                b.withdrawn
            },
        },
    }
}

/// Forgetting a host: its advert and all hearsay about it go.
pub open spec fn forget_spec(b: BookV, host: Seq<char>) -> BookV {
    BookV { first: b.first.remove(host), relayed: relays_not_of(b.relayed, host), withdrawn: b.withdrawn }
}

/// Dropping expired hearsay and withdrawals that are no longer fresh.
pub open spec fn sweep_spec(b: BookV, now: u128, epoch: u64) -> BookV {
    BookV {
        first: b.first,
        relayed: restrict(
            b.relayed,
            |k: (Seq<char>, Seq<char>), v: RelayV| fresh_spec(v.0, epoch) && age(now, v.1) < RELAY_EXPIRY_NANOS,
        ),
        withdrawn: restrict(b.withdrawn, |k: Seq<char>, since: u64| fresh_spec(since, epoch)),
    }
}

/// Taking in one piece of hearsay from `sender`: it is ignored when it is
/// about us or the sender, about a host we do not know, stale, older than
/// the host's withdrawal, or about a host whose own advert is current;
/// otherwise it replaces an expired advert and is kept if it is newer than
/// what we had for that table.
pub open spec fn learn_step(
    b: BookV,
    sender: Seq<char>,
    self_id: Seq<char>,
    entry: (Seq<char>, Seq<char>, u64),
    known: bool,
    now: u128,
    epoch: u64,
) -> BookV {
    let (host, name, heard_at) = entry;
    if host == self_id || host == sender || !known {
        b
    } else if !fresh_spec(heard_at, epoch) {
        b
    } else if b.withdrawn.contains_key(host) && heard_at <= b.withdrawn[host] {
        b
    } else if direct_live(b, host, now) {
        b
    } else {
        let first = b.first.remove(host);
        let key = (host, name);
        let newer = !b.relayed.contains_key(key) || heard_at > b.relayed[key].0;
        BookV {
            first,
            relayed: if newer {
                b.relayed.insert(key, (heard_at, now))
            } else {
                b.relayed
            },
            withdrawn: b.withdrawn,
        }
    }
}

/// Taking in the first `n` pieces of hearsay, after a sweep.
pub open spec fn learn_spec(
    b: BookV,
    sender: Seq<char>,
    self_id: Seq<char>,
    heard: Seq<(Seq<char>, Seq<char>, u64)>,
    known: Seq<bool>,
    n: nat,
    now: u128,
    epoch: u64,
) -> BookV
    decreases n,
{
    if n == 0 {
        sweep_spec(b, now, epoch)
    } else {
        learn_step(
            learn_spec(b, sender, self_id, heard, known, (n - 1) as nat, now, epoch),
            sender,
            self_id,
            heard[n - 1],
            known[n - 1],
            now,
            epoch,
        )
    }
}

pub open spec fn first_view(v: Seq<(String, String, u128, u64)>) -> Seq<(Seq<char>, FirstV)> {
    Seq::new(v.len(), |i: int| (v[i].0@, (v[i].1@, v[i].2, v[i].3)))
}

pub open spec fn relay_view(v: Seq<(String, String, u64, u128)>) -> Seq<((Seq<char>, Seq<char>), RelayV)> {
    Seq::new(v.len(), |i: int| ((v[i].0@, v[i].1@), (v[i].2, v[i].3)))
}

pub open spec fn withdrawn_view(v: Seq<(String, u64)>) -> Seq<(Seq<char>, u64)> {
    Seq::new(v.len(), |i: int| (v[i].0@, v[i].1))
}

/// The book of open tables.
pub struct TableBook {
    first_hand: Vec<(String, String, u128, u64)>,
    relayed: Vec<(String, String, u64, u128)>,
    withdrawn: Vec<(String, u64)>,
}

impl View for TableBook {
    type V = BookV;

    closed spec fn view(&self) -> BookV {
        BookV {
            first: as_map(first_view(self.first_hand@)),
            relayed: as_map(relay_view(self.relayed@)),
            withdrawn: as_map(withdrawn_view(self.withdrawn@)),
        }
    }
}

impl TableBook {
    #[verifier::type_invariant]
    closed spec fn wf(&self) -> bool {
        &&& unique_keys(first_view(self.first_hand@))
        &&& unique_keys(relay_view(self.relayed@))
        &&& unique_keys(withdrawn_view(self.withdrawn@))
    }

    /// An empty book.
    pub fn new() -> (b: Self)
        ensures
            b@.first == Map::<Seq<char>, FirstV>::empty(),
            b@.relayed == Map::<(Seq<char>, Seq<char>), RelayV>::empty(),
            b@.withdrawn == Map::<Seq<char>, u64>::empty(),
    {
        let b = TableBook { first_hand: Vec::new(), relayed: Vec::new(), withdrawn: Vec::new() };
        assert(first_view(b.first_hand@).len() == 0);
        assert(relay_view(b.relayed@).len() == 0);
        assert(withdrawn_view(b.withdrawn@).len() == 0);
        b
    }

    /// Where the advert of `host` stands.
    fn find_first(&self, host: &String) -> (r: Option<usize>)
        ensures
            match r {
                Some(i) => i < self.first_hand@.len() && self.first_hand@[i as int].0@ == host@,
                None => !self@.first.contains_key(host@),
            },
    {
        proof {
            use_type_invariant(self);
            lemma_as_map(first_view(self.first_hand@));
        }
        let mut i: usize = 0;
        while i < self.first_hand.len()
            invariant
                i <= self.first_hand@.len(),
                forall|j: int| 0 <= j < i ==> self.first_hand@[j].0@ != host@,
            decreases self.first_hand.len() - i,
        {
            if self.first_hand[i].0 == *host {
                return Some(i);
            }
            i = i + 1;
        }
        proof {
            if self@.first.contains_key(host@) {
                let j = choose|j: int| 0 <= j < first_view(self.first_hand@).len() && first_view(self.first_hand@)[j].0 == host@;
                assert(self.first_hand@[j].0@ == host@);
            }
        }
        None
    }

    /// Takes the advert of `host` out; whether there was one.
    fn remove_first(&mut self, host: &String) -> (had: bool)
        ensures
            had == old(self)@.first.contains_key(host@),
            final(self)@.first == old(self)@.first.remove(host@),
            final(self)@.relayed == old(self)@.relayed,
            final(self)@.withdrawn == old(self)@.withdrawn,
    {
        proof {
            use_type_invariant(&*self);
        }
        match self.find_first(host) {
            Some(i) => {
                proof {
                    let v = first_view(self.first_hand@);
                    lemma_as_map(v);
                    lemma_as_map_remove(v, i as int);
                    assert(first_view(self.first_hand@.remove(i as int)) =~= v.remove(i as int));
                }
                let mut v: Vec<(String, String, u128, u64)> = Vec::new();
                std::mem::swap(&mut v, &mut self.first_hand);
                v.remove(i);
                self.first_hand = v;
                true
            },
            None => {
                assert(old(self)@.first.remove(host@) =~= old(self)@.first);
                false
            },
        }
    }

    /// Sets the advert of `host`.
    fn put_first(&mut self, host: String, name: String, seen: u128, heard_at: u64)
        ensures
            final(self)@.first == old(self)@.first.insert(host@, (name@, seen, heard_at)),
            final(self)@.relayed == old(self)@.relayed,
            final(self)@.withdrawn == old(self)@.withdrawn,
    {
        proof {
            use_type_invariant(&*self);
        }
        let ghost v = first_view(self.first_hand@);
        match self.find_first(&host) {
            Some(i) => {
                proof {
                    lemma_as_map_update(v, i as int, (name@, seen, heard_at));
                    assert(first_view(self.first_hand@.update(i as int, (host, name, seen, heard_at))) =~= v.update(
                        i as int,
                        (v[i as int].0, (name@, seen, heard_at)),
                    ));
                }
                let mut v: Vec<(String, String, u128, u64)> = Vec::new();
                std::mem::swap(&mut v, &mut self.first_hand);
                v.set(i, (host, name, seen, heard_at));
                self.first_hand = v;
            },
            None => {
                proof {
                    lemma_as_map_push(v, host@, (name@, seen, heard_at));
                    assert(first_view(self.first_hand@.push((host, name, seen, heard_at))) =~= v.push(
                        (host@, (name@, seen, heard_at)),
                    ));
                }
                let mut v: Vec<(String, String, u128, u64)> = Vec::new();
                std::mem::swap(&mut v, &mut self.first_hand);
                v.push((host, name, seen, heard_at));
                self.first_hand = v;
            },
        }
    }

    /// Where the withdrawal of `host` stands.
    fn find_withdrawn(&self, host: &String) -> (r: Option<usize>)
        ensures
            match r {
                Some(i) => i < self.withdrawn@.len() && self.withdrawn@[i as int].0@ == host@
                    && self@.withdrawn.contains_key(host@) && self@.withdrawn[host@] == self.withdrawn@[i as int].1,
                None => !self@.withdrawn.contains_key(host@),
            },
    {
        proof {
            use_type_invariant(self);
            lemma_as_map(withdrawn_view(self.withdrawn@));
        }
        let mut i: usize = 0;
        while i < self.withdrawn.len()
            invariant
                i <= self.withdrawn@.len(),
                forall|j: int| 0 <= j < i ==> self.withdrawn@[j].0@ != host@,
            decreases self.withdrawn.len() - i,
        {
            if self.withdrawn[i].0 == *host {
                proof {
                    use_type_invariant(self);
                    lemma_as_map(withdrawn_view(self.withdrawn@));
                    assert(withdrawn_view(self.withdrawn@)[i as int] == (host@, self.withdrawn@[i as int].1));
                    assert(withdrawn_view(self.withdrawn@)[i as int].0 == host@);
                    assert(as_map(withdrawn_view(self.withdrawn@))[withdrawn_view(self.withdrawn@)[i as int].0]
                        == withdrawn_view(self.withdrawn@)[i as int].1);
                }
                return Some(i);
            }
            i = i + 1;
        }
        proof {
            if self@.withdrawn.contains_key(host@) {
                let j = choose|j: int| 0 <= j < withdrawn_view(self.withdrawn@).len() && withdrawn_view(self.withdrawn@)[j].0 == host@;
                assert(self.withdrawn@[j].0@ == host@);
            }
        }
        None
    }

    /// Records that `host` withdrew at `epoch`, or forgets that it did.
    fn set_withdrawn(&mut self, host: String, since: Option<u64>)
        ensures
            final(self)@.withdrawn == match since {
                Some(t) => old(self)@.withdrawn.insert(host@, t),
                None => old(self)@.withdrawn.remove(host@),
            },
            final(self)@.first == old(self)@.first,
            final(self)@.relayed == old(self)@.relayed,
    {
        proof {
            use_type_invariant(&*self);
        }
        let ghost v = withdrawn_view(self.withdrawn@);
        match (self.find_withdrawn(&host), since) {
            (Some(i), Some(t)) => {
                proof {
                    lemma_as_map_update(v, i as int, t);
                    assert(withdrawn_view(self.withdrawn@.update(i as int, (host, t))) =~= v.update(i as int, (v[i as int].0, t)));
                }
                let mut v: Vec<(String, u64)> = Vec::new();
                std::mem::swap(&mut v, &mut self.withdrawn);
                v.set(i, (host, t));
                self.withdrawn = v;
            },
            (Some(i), None) => {
                proof {
                    lemma_as_map_remove(v, i as int);
                    assert(withdrawn_view(self.withdrawn@.remove(i as int)) =~= v.remove(i as int));
                }
                let mut v: Vec<(String, u64)> = Vec::new();
                std::mem::swap(&mut v, &mut self.withdrawn);
                v.remove(i);
                self.withdrawn = v;
            },
            (None, Some(t)) => {
                proof {
                    lemma_as_map_push(v, host@, t);
                    assert(withdrawn_view(self.withdrawn@.push((host, t))) =~= v.push((host@, t)));
                }
                let mut v: Vec<(String, u64)> = Vec::new();
                std::mem::swap(&mut v, &mut self.withdrawn);
                v.push((host, t));
                self.withdrawn = v;
            },
            (None, None) => {
                assert(old(self)@.withdrawn.remove(host@) =~= old(self)@.withdrawn);
            },
        }
    }

    /// Where relayed news of the table `name` on `host` stands.
    fn find_relay(&self, host: &String, name: &String) -> (r: Option<usize>)
        ensures
            match r {
                Some(i) => i < self.relayed@.len() && self.relayed@[i as int].0@ == host@
                    && self.relayed@[i as int].1@ == name@ && self@.relayed.contains_key((host@, name@))
                    && self@.relayed[(host@, name@)] == (self.relayed@[i as int].2, self.relayed@[i as int].3),
                None => !self@.relayed.contains_key((host@, name@)),
            },
    {
        proof {
            use_type_invariant(self);
            lemma_as_map(relay_view(self.relayed@));
        }
        let mut i: usize = 0;
        while i < self.relayed.len()
            invariant
                i <= self.relayed@.len(),
                forall|j: int| 0 <= j < i ==> (self.relayed@[j].0@, self.relayed@[j].1@) != (host@, name@),
            decreases self.relayed.len() - i,
        {
            if self.relayed[i].0 == *host && self.relayed[i].1 == *name {
                proof {
                    use_type_invariant(self);
                    lemma_as_map(relay_view(self.relayed@));
                    assert(relay_view(self.relayed@)[i as int].0 == (host@, name@));
                    assert(as_map(relay_view(self.relayed@))[relay_view(self.relayed@)[i as int].0]
                        == relay_view(self.relayed@)[i as int].1);
                }
                return Some(i);
            }
            i = i + 1;
        }
        proof {
            if self@.relayed.contains_key((host@, name@)) {
                let j = choose|j: int| 0 <= j < relay_view(self.relayed@).len() && relay_view(self.relayed@)[j].0 == (host@, name@);
                assert(relay_view(self.relayed@)[j].0 == (self.relayed@[j].0@, self.relayed@[j].1@));
            }
        }
        None
    }

    /// Sets relayed news of the table `name` on `host`.
    fn put_relay(&mut self, host: String, name: String, heard_at: u64, learned: u128)
        ensures
            final(self)@.relayed == old(self)@.relayed.insert((host@, name@), (heard_at, learned)),
            final(self)@.first == old(self)@.first,
            final(self)@.withdrawn == old(self)@.withdrawn,
    {
        proof {
            use_type_invariant(&*self);
        }
        let ghost v = relay_view(self.relayed@);
        match self.find_relay(&host, &name) {
            Some(i) => {
                proof {
                    lemma_as_map_update(v, i as int, (heard_at, learned));
                    assert(relay_view(self.relayed@.update(i as int, (host, name, heard_at, learned))) =~= v.update(
                        i as int,
                        (v[i as int].0, (heard_at, learned)),
                    ));
                }
                let mut v: Vec<(String, String, u64, u128)> = Vec::new();
                std::mem::swap(&mut v, &mut self.relayed);
                v.set(i, (host, name, heard_at, learned));
                self.relayed = v;
            },
            None => {
                proof {
                    lemma_as_map_push(v, (host@, name@), (heard_at, learned));
                    assert(relay_view(self.relayed@.push((host, name, heard_at, learned))) =~= v.push(
                        ((host@, name@), (heard_at, learned)),
                    ));
                }
                let mut v: Vec<(String, String, u64, u128)> = Vec::new();
                std::mem::swap(&mut v, &mut self.relayed);
                v.push((host, name, heard_at, learned));
                self.relayed = v;
            },
        }
    }

    /// Keeps the relayed news for which `keep` says so; `keep` is what the
    /// exec test below decides, entry by entry.
    fn retain_relays(&mut self, host: Option<&String>, now: u128, epoch: u64)
        ensures
            final(self)@.relayed == match host {
                Some(h) => relays_not_of(old(self)@.relayed, h@),
                None => restrict(
                    old(self)@.relayed,
                    |k: (Seq<char>, Seq<char>), v: RelayV| fresh_spec(v.0, epoch) && age(now, v.1) < RELAY_EXPIRY_NANOS,
                ),
            },
            final(self)@.first == old(self)@.first,
            final(self)@.withdrawn == old(self)@.withdrawn,
    {
        proof {
            use_type_invariant(&*self);
        }
        let ghost f: spec_fn((Seq<char>, Seq<char>), RelayV) -> bool = match host {
            Some(h) => |k: (Seq<char>, Seq<char>), v: RelayV| k.0 != h@,
            None => |k: (Seq<char>, Seq<char>), v: RelayV| fresh_spec(v.0, epoch) && age(now, v.1) < RELAY_EXPIRY_NANOS,
        };
        let ghost v = relay_view(self.relayed@);
        let mut out: Vec<(String, String, u64, u128)> = Vec::new();
        let mut i: usize = 0;
        proof {
            assert(v.take(0) =~= Seq::<((Seq<char>, Seq<char>), RelayV)>::empty());
            assert(relay_view(out@) =~= Seq::<((Seq<char>, Seq<char>), RelayV)>::empty());
            assert(restrict(as_map(v.take(0)), f) =~= as_map(relay_view(out@)));
        }
        while i < self.relayed.len()
            invariant
                v == relay_view(self.relayed@),
                unique_keys(v),
                i <= v.len(),
                unique_keys(relay_view(out@)),
                as_map(relay_view(out@)) == restrict(as_map(v.take(i as int)), f),
                f == match host {
                    Some(h) => (|k: (Seq<char>, Seq<char>), v: RelayV| k.0 != h@),
                    None => (|k: (Seq<char>, Seq<char>), v: RelayV| fresh_spec(v.0, epoch) && age(now, v.1)
                        < RELAY_EXPIRY_NANOS),
                },
            decreases v.len() - i,
        {
            proof {
                lemma_restrict_step(v, i as int, f);
            }
            let e = &self.relayed[i];
            let keep = match host {
                Some(h) => !(e.0 == *h),
                None => fresh(e.2, epoch) && age_below(now, e.3, RELAY_EXPIRY_NANOS),
            };
            assert(v[i as int] == ((e.0@, e.1@), (e.2, e.3)));
            if keep {
                proof {
                    lemma_as_map_push(relay_view(out@), v[i as int].0, v[i as int].1);
                }
                let ghost before = out@;
                out.push((e.0.clone(), e.1.clone(), e.2, e.3));
                assert(relay_view(out@) =~= relay_view(before).push(v[i as int]));
            }
            i = i + 1;
        }
        assert(v.take(v.len() as int) =~= v);
        self.relayed = out;
    }

    /// Drops withdrawals that are no longer fresh at `epoch`.
    fn sweep_withdrawn(&mut self, epoch: u64)
        ensures
            final(self)@.withdrawn == restrict(old(self)@.withdrawn, |k: Seq<char>, since: u64| fresh_spec(since, epoch)),
            final(self)@.first == old(self)@.first,
            final(self)@.relayed == old(self)@.relayed,
    {
        proof {
            use_type_invariant(&*self);
        }
        let ghost f = |k: Seq<char>, since: u64| fresh_spec(since, epoch);
        let ghost v = withdrawn_view(self.withdrawn@);
        let mut out: Vec<(String, u64)> = Vec::new();
        let mut i: usize = 0;
        proof {
            assert(v.take(0) =~= Seq::<(Seq<char>, u64)>::empty());
            assert(withdrawn_view(out@) =~= Seq::<(Seq<char>, u64)>::empty());
            assert(restrict(as_map(v.take(0)), f) =~= as_map(withdrawn_view(out@)));
        }
        while i < self.withdrawn.len()
            invariant
                v == withdrawn_view(self.withdrawn@),
                unique_keys(v),
                i <= v.len(),
                unique_keys(withdrawn_view(out@)),
                as_map(withdrawn_view(out@)) == restrict(as_map(v.take(i as int)), f),
                f == (|k: Seq<char>, since: u64| fresh_spec(since, epoch)),
            decreases v.len() - i,
        {
            proof {
                lemma_restrict_step(v, i as int, f);
            }
            let e = &self.withdrawn[i];
            assert(v[i as int] == (e.0@, e.1));
            if fresh(e.1, epoch) {
                proof {
                    lemma_as_map_push(withdrawn_view(out@), v[i as int].0, v[i as int].1);
                }
                let ghost before = out@;
                out.push((e.0.clone(), e.1));
                assert(withdrawn_view(out@) =~= withdrawn_view(before).push(v[i as int]));
            }
            i = i + 1;
        }
        assert(v.take(v.len() as int) =~= v);
        self.withdrawn = out;
    }
}

/// Host and table pairs in order: by host, then by table.
pub open spec fn pair_lt(p: (Seq<char>, Seq<char>), q: (Seq<char>, Seq<char>)) -> bool {
    name_lt(p.0, q.0) || (p.0 == q.0 && name_lt(p.1, q.1))
}

pub proof fn lemma_pair_lt_trans(p: (Seq<char>, Seq<char>), q: (Seq<char>, Seq<char>), r: (Seq<char>, Seq<char>))
    requires
        pair_lt(p, q),
        pair_lt(q, r),
    ensures
        pair_lt(p, r),
{
    if name_lt(p.0, q.0) && name_lt(q.0, r.0) {
        lemma_name_lt_trans(p.0, q.0, r.0);
    } else if p.0 == q.0 && q.0 == r.0 {
        lemma_name_lt_trans(p.1, q.1, r.1);
    }
}

pub proof fn lemma_pair_lt_total(p: (Seq<char>, Seq<char>), q: (Seq<char>, Seq<char>))
    requires
        p != q,
    ensures
        pair_lt(p, q) || pair_lt(q, p),
{
    lemma_name_total(p.0, q.0);
    lemma_name_total(p.1, q.1);
}

pub proof fn lemma_pair_lt_asym(p: (Seq<char>, Seq<char>), q: (Seq<char>, Seq<char>))
    requires
        pair_lt(p, q),
    ensures
        !pair_lt(q, p),
        p != q,
{
    if pair_lt(q, p) {
        lemma_pair_lt_trans(p, q, p);
    }
}

/// A listed table's host and name.
pub open spec fn key_of(e: (Seq<char>, Seq<char>, u64, bool)) -> (Seq<char>, Seq<char>) {
    (e.0, e.1)
}

pub open spec fn entry_views(v: Seq<(String, String, u64, bool)>) -> Seq<(Seq<char>, Seq<char>, u64, bool)> {
    Seq::new(v.len(), |i: int| (v[i].0@, v[i].1@, v[i].2, v[i].3))
}

/// Entries in strictly increasing order of host and table.
pub open spec fn sorted_entries(s: Seq<(Seq<char>, Seq<char>, u64, bool)>) -> bool {
    forall|i: int, j: int| 0 <= i < j < s.len() ==> pair_lt(key_of(#[trigger] s[i]), key_of(#[trigger] s[j]))
}

/// The host and table pairs of entries.
pub open spec fn keys(s: Seq<(Seq<char>, Seq<char>, u64, bool)>) -> Seq<(Seq<char>, Seq<char>)> {
    Seq::new(s.len(), |i: int| key_of(s[i]))
}

/// Two lists in strictly increasing order with the same members are the same list.
pub proof fn lemma_sorted_keys_unique(a: Seq<(Seq<char>, Seq<char>)>, b: Seq<(Seq<char>, Seq<char>)>)
    requires
        forall|i: int, j: int| 0 <= i < j < a.len() ==> pair_lt(#[trigger] a[i], #[trigger] a[j]),
        forall|i: int, j: int| 0 <= i < j < b.len() ==> pair_lt(#[trigger] b[i], #[trigger] b[j]),
        a.to_set() == b.to_set(),
    ensures
        a == b,
    decreases a.len(),
{
    if a.len() == 0 {
        if b.len() > 0 {
            assert(b.to_set().contains(b[0]));
        }
        assert(a =~= b);
    } else {
        assert(a.to_set().contains(a[0]));
        assert(b.len() > 0);
        assert(b.to_set().contains(b[0]));
        let j = choose|j: int| 0 <= j < b.len() && b[j] == a[0];
        let k = choose|k: int| 0 <= k < a.len() && a[k] == b[0];
        if j > 0 {
            assert(pair_lt(b[0], b[j]));
            if k > 0 {
                assert(pair_lt(a[0], a[k]));
                lemma_pair_lt_asym(b[0], a[0]);
            } else {
                lemma_pair_lt_asym(b[0], b[j]);
            }
        }
        assert(a[0] == b[0]);
        let a2 = a.drop_first();
        let b2 = b.drop_first();
        assert forall|x: (Seq<char>, Seq<char>)| a2.to_set().contains(x) <==> b2.to_set().contains(x) by {
            if a2.to_set().contains(x) {
                let m = choose|m: int| 0 <= m < a2.len() && a2[m] == x;
                assert(a[m + 1] == x);
                assert(pair_lt(a[0], a[m + 1]));
                assert(b.to_set().contains(x));
                let n = choose|n: int| 0 <= n < b.len() && b[n] == x;
                if n == 0 {
                    lemma_pair_lt_asym(a[0], x);
                }
                assert(b2[n - 1] == x);
            }
            if b2.to_set().contains(x) {
                let m = choose|m: int| 0 <= m < b2.len() && b2[m] == x;
                assert(b[m + 1] == x);
                assert(pair_lt(b[0], b[m + 1]));
                assert(a.to_set().contains(x));
                let n = choose|n: int| 0 <= n < a.len() && a[n] == x;
                if n == 0 {
                    lemma_pair_lt_asym(b[0], x);
                }
                assert(a2[n - 1] == x);
            }
        }
        assert(a2.to_set() =~= b2.to_set());
        lemma_sorted_keys_unique(a2, b2);
        assert(a =~= seq![a[0]] + a2);
        assert(b =~= seq![b[0]] + b2);
    }
}

/// Whether `a` orders before `b`.
fn text_lt(a: &String, b: &String) -> (r: bool)
    ensures
        r == name_lt(a@, b@),
{
    chars_le(&chars_of(a.as_str()), &chars_of(b.as_str())) && !(*a == *b)
}

fn key_lt(a: &(String, String, u64, bool), b: &(String, String, u64, bool)) -> (r: bool)
    ensures
        r == pair_lt((a.0@, a.1@), (b.0@, b.1@)),
{
    text_lt(&a.0, &b.0) || (a.0 == b.0 && text_lt(&a.1, &b.1))
}

/// Puts `e` into the sorted list `out`, whose keys all differ from its own.
fn insert_sorted(out: &mut Vec<(String, String, u64, bool)>, e: (String, String, u64, bool))
    requires
        sorted_entries(entry_views(old(out)@)),
        forall|i: int| 0 <= i < old(out)@.len() ==> key_of(#[trigger] entry_views(old(out)@)[i]) != (e.0@, e.1@),
    ensures
        sorted_entries(entry_views(final(out)@)),
        entry_views(final(out)@).to_set() == entry_views(old(out)@).to_set().insert((e.0@, e.1@, e.2, e.3)),
{
    let ghost s = entry_views(out@);
    let ghost x = (e.0@, e.1@, e.2, e.3);
    let mut j: usize = 0;
    let mut go = true;
    while go && j < out.len()
        invariant
            s == entry_views(out@),
            x == (e.0@, e.1@, e.2, e.3),
            j <= out@.len(),
            forall|m: int| 0 <= m < j ==> pair_lt(key_of(#[trigger] s[m]), key_of(x)),
            !go ==> j < out@.len() && !pair_lt(key_of(s[j as int]), key_of(x)),
        decreases out.len() - j + (if go { 1int } else { 0int }),
    {
        assert(key_of(s[j as int]) == (out@[j as int].0@, out@[j as int].1@));
        if key_lt(&out[j], &e) {
            j = j + 1;
        } else {
            go = false;
        }
    }
    proof {
        if j < s.len() {
            assert(key_of(s[j as int]) != key_of(x));
            lemma_pair_lt_total(key_of(s[j as int]), key_of(x));
        }
    }
    out.insert(j, e);
    proof {
        let u = entry_views(out@);
        assert(u =~= s.insert(j as int, x));
        assert forall|a: int, b: int| 0 <= a < b < u.len() implies pair_lt(key_of(#[trigger] u[a]), key_of(#[trigger] u[b])) by {
            if b < j {
                assert(u[a] == s[a] && u[b] == s[b]);
            } else if b == j {
                assert(u[a] == s[a] && u[b] == x);
            } else if a == j {
                assert(u[b] == s[b - 1]);
                if b - 1 > j {
                    assert(pair_lt(key_of(s[j as int]), key_of(s[b - 1])));
                    lemma_pair_lt_trans(key_of(x), key_of(s[j as int]), key_of(s[b - 1]));
                }
            } else if a < j {
                assert(u[a] == s[a] && u[b] == s[b - 1]);
            } else {
                assert(u[a] == s[a - 1] && u[b] == s[b - 1]);
            }
        }
        assert(u.to_set() =~= s.to_set().insert(x)) by {
            assert forall|y| u.to_set().contains(y) implies s.to_set().insert(x).contains(y) by {
                let m = choose|m: int| 0 <= m < u.len() && u[m] == y;
                if m < j {
                    assert(s[m] == y);
                } else if m > j {
                    assert(s[m - 1] == y);
                }
            }
            assert forall|y| s.to_set().insert(x).contains(y) implies u.to_set().contains(y) by {
                if y == x {
                    assert(u[j as int] == x);
                } else {
                    let m = choose|m: int| 0 <= m < s.len() && s[m] == y;
                    if m < j {
                        assert(u[m] == y);
                    } else {
                        assert(u[m + 1] == y);
                    }
                }
            }
        }
    }
}

/// The first-hand entries among the first `i` adverts.
pub open spec fn direct_part(fv: Seq<(Seq<char>, FirstV)>, i: int, now: u128) -> Set<(Seq<char>, Seq<char>, u64, bool)> {
    Set::new(
        |e: (Seq<char>, Seq<char>, u64, bool)|
            !e.3 && exists|j: int|
                0 <= j < i && (#[trigger] fv[j]).0 == e.0 && fv[j].1.0 == e.1 && fv[j].1.2 == e.2 && age(now, fv[j].1.1)
                    < FIRST_HAND_EXPIRY_NANOS,
    )
}

/// The second-hand entries among the first `i` relays.
pub open spec fn relay_part(
    b: BookV,
    rv: Seq<((Seq<char>, Seq<char>), RelayV)>,
    i: int,
    now: u128,
    epoch: u64,
) -> Set<(Seq<char>, Seq<char>, u64, bool)> {
    Set::new(
        |e: (Seq<char>, Seq<char>, u64, bool)|
            e.3 && exists|j: int|
                0 <= j < i && (#[trigger] rv[j]).0 == (e.0, e.1) && rv[j].1.0 == e.2 && !direct_live(b, e.0, now)
                    && fresh_spec(rv[j].1.0, epoch) && age(now, rv[j].1.1) < RELAY_EXPIRY_NANOS,
    )
}

impl TableBook {
    /// Whether `host` has a current advert of its own at `now`.
    fn is_direct(&self, host: &String, now: u128) -> (r: bool)
        ensures
            r == direct_live(self@, host@, now),
    {
        proof {
            use_type_invariant(self);
            lemma_as_map(first_view(self.first_hand@));
        }
        match self.find_first(host) {
            Some(i) => {
                proof {
                    assert(first_view(self.first_hand@)[i as int].0 == host@);
                }
                age_below(now, self.first_hand[i].2, FIRST_HAND_EXPIRY_NANOS)
            },
            None => false,
        }
    }

    /// The tables the book lists at `now` and `epoch`, in order of host and table.
    fn entries(&self, now: u128, epoch: u64) -> (r: Vec<(String, String, u64, bool)>)
        ensures
            sorted_entries(entry_views(r@)),
            entry_views(r@).to_set() == entry_set(self@, now, epoch),
    {
        proof {
            use_type_invariant(self);
        }
        let ghost b = self@;
        let ghost fv = first_view(self.first_hand@);
        let ghost rv = relay_view(self.relayed@);
        let mut out: Vec<(String, String, u64, bool)> = Vec::new();
        let mut i: usize = 0;
        proof {
            assert(entry_views(out@).to_set() =~= direct_part(fv, 0, now));
        }
        while i < self.first_hand.len()
            invariant
                fv == first_view(self.first_hand@),
                unique_keys(fv),
                i <= fv.len(),
                sorted_entries(entry_views(out@)),
                entry_views(out@).to_set() == direct_part(fv, i as int, now),
            decreases fv.len() - i,
        {
            let f = &self.first_hand[i];
            assert(fv[i as int] == (f.0@, (f.1@, f.2, f.3)));
            if age_below(now, f.2, FIRST_HAND_EXPIRY_NANOS) {
                proof {
                    assert forall|m: int| 0 <= m < out@.len() implies key_of(#[trigger] entry_views(out@)[m]) != (f.0@, f.1@) by {
                        let e = entry_views(out@)[m];
                        assert(entry_views(out@).to_set().contains(e));
                        let j = choose|j: int|
                            0 <= j < i && (#[trigger] fv[j]).0 == e.0 && fv[j].1.0 == e.1 && fv[j].1.2 == e.2 && age(
                                now,
                                fv[j].1.1,
                            ) < FIRST_HAND_EXPIRY_NANOS;
                        assert(fv[j].0 != fv[i as int].0);
                    }
                }
                insert_sorted(&mut out, (f.0.clone(), f.1.clone(), f.3, false));
                proof {
                    assert(entry_views(out@).to_set() =~= direct_part(fv, i + 1, now)) by {
                        assert forall|e| #[trigger] direct_part(fv, i + 1, now).contains(e) implies direct_part(fv, i as int, now).insert((f.0@, f.1@, f.3, false)).contains(e) by {
                            let j = choose|j: int|
                                0 <= j < i + 1 && (#[trigger] fv[j]).0 == e.0 && fv[j].1.0 == e.1 && fv[j].1.2 == e.2
                                    && age(now, fv[j].1.1) < FIRST_HAND_EXPIRY_NANOS;
                            if j < i {
                                assert(direct_part(fv, i as int, now).contains(e));
                            }
                        }
                        assert forall|e| #[trigger] direct_part(fv, i as int, now).insert((f.0@, f.1@, f.3, false)).contains(e) implies direct_part(fv, i + 1, now).contains(e) by {
                            if e != (f.0@, f.1@, f.3, false) {
                                let j = choose|j: int|
                                    0 <= j < i && (#[trigger] fv[j]).0 == e.0 && fv[j].1.0 == e.1 && fv[j].1.2 == e.2
                                        && age(now, fv[j].1.1) < FIRST_HAND_EXPIRY_NANOS;
                                assert(0 <= j < i + 1);
                            } else {
                                assert(fv[i as int].0 == e.0);
                            }
                        }
                    }
                }
            } else {
                proof {
                    assert(entry_views(out@).to_set() =~= direct_part(fv, i + 1, now)) by {
                        assert forall|e| #[trigger] direct_part(fv, i + 1, now).contains(e) implies direct_part(fv, i as int, now).contains(e) by {
                            let j = choose|j: int|
                                0 <= j < i + 1 && (#[trigger] fv[j]).0 == e.0 && fv[j].1.0 == e.1 && fv[j].1.2 == e.2
                                    && age(now, fv[j].1.1) < FIRST_HAND_EXPIRY_NANOS;
                            assert(j != i);
                        }
                    }
                }
            }
            i = i + 1;
        }
        let ghost direct = direct_part(fv, fv.len() as int, now);
        proof {
            lemma_as_map(fv);
            assert forall|e: (Seq<char>, Seq<char>, u64, bool)| #[trigger] direct.contains(e) implies direct_live(b, e.0, now) by {
                let j = choose|j: int|
                    0 <= j < fv.len() && (#[trigger] fv[j]).0 == e.0 && fv[j].1.0 == e.1 && fv[j].1.2 == e.2 && age(now, fv[j].1.1)
                        < FIRST_HAND_EXPIRY_NANOS;
                assert(b.first[fv[j].0] == fv[j].1);
            }
            assert(entry_views(out@).to_set() =~= direct.union(relay_part(b, rv, 0, now, epoch)));
        }
        let mut i: usize = 0;
        while i < self.relayed.len()
            invariant
                b == self@,
                fv == first_view(self.first_hand@),
                rv == relay_view(self.relayed@),
                unique_keys(rv),
                i <= rv.len(),
                direct == direct_part(fv, fv.len() as int, now),
                forall|e: (Seq<char>, Seq<char>, u64, bool)| #[trigger] direct.contains(e) ==> direct_live(b, e.0, now) && !e.3,
                sorted_entries(entry_views(out@)),
                entry_views(out@).to_set() == direct.union(relay_part(b, rv, i as int, now, epoch)),
            decreases rv.len() - i,
        {
            let r = &self.relayed[i];
            assert(rv[i as int] == ((r.0@, r.1@), (r.2, r.3)));
            let keep = !self.is_direct(&r.0, now) && fresh(r.2, epoch) && age_below(now, r.3, RELAY_EXPIRY_NANOS);
            let ghost x = (r.0@, r.1@, r.2, true);
            if keep {
                proof {
                    assert forall|m: int| 0 <= m < out@.len() implies key_of(#[trigger] entry_views(out@)[m]) != (r.0@, r.1@) by {
                        let e = entry_views(out@)[m];
                        assert(entry_views(out@).to_set().contains(e));
                        if direct.contains(e) {
                        } else {
                            let j = choose|j: int|
                                0 <= j < i && (#[trigger] rv[j]).0 == (e.0, e.1) && rv[j].1.0 == e.2 && !direct_live(b, e.0, now)
                                    && fresh_spec(rv[j].1.0, epoch) && age(now, rv[j].1.1) < RELAY_EXPIRY_NANOS;
                            assert(rv[j].0 != rv[i as int].0);
                        }
                    }
                }
                insert_sorted(&mut out, (r.0.clone(), r.1.clone(), r.2, true));
                proof {
                    let p0 = relay_part(b, rv, i as int, now, epoch);
                    let p1 = relay_part(b, rv, i + 1, now, epoch);
                    assert(p1 =~= p0.insert(x)) by {
                        assert forall|e| #[trigger] p1.contains(e) implies p0.insert(x).contains(e) by {
                            let j = choose|j: int|
                                0 <= j < i + 1 && (#[trigger] rv[j]).0 == (e.0, e.1) && rv[j].1.0 == e.2 && !direct_live(b, e.0, now)
                                    && fresh_spec(rv[j].1.0, epoch) && age(now, rv[j].1.1) < RELAY_EXPIRY_NANOS;
                            if j < i {
                                assert(p0.contains(e));
                            }
                        }
                        assert forall|e| #[trigger] p0.insert(x).contains(e) implies p1.contains(e) by {
                            if e != x {
                                let j = choose|j: int|
                                    0 <= j < i && (#[trigger] rv[j]).0 == (e.0, e.1) && rv[j].1.0 == e.2 && !direct_live(b, e.0, now)
                                        && fresh_spec(rv[j].1.0, epoch) && age(now, rv[j].1.1) < RELAY_EXPIRY_NANOS;
                                assert(0 <= j < i + 1);
                            } else {
                                assert(rv[i as int].0 == (e.0, e.1));
                            }
                        }
                    }
                    assert(entry_views(out@).to_set() =~= direct.union(p1));
                }
            } else {
                proof {
                    let p0 = relay_part(b, rv, i as int, now, epoch);
                    let p1 = relay_part(b, rv, i + 1, now, epoch);
                    assert(p1 =~= p0) by {
                        assert forall|e| #[trigger] p1.contains(e) implies p0.contains(e) by {
                            let j = choose|j: int|
                                0 <= j < i + 1 && (#[trigger] rv[j]).0 == (e.0, e.1) && rv[j].1.0 == e.2 && !direct_live(b, e.0, now)
                                    && fresh_spec(rv[j].1.0, epoch) && age(now, rv[j].1.1) < RELAY_EXPIRY_NANOS;
                            assert(j != i);
                        }
                    }
                }
            }
            i = i + 1;
        }
        proof {
            lemma_as_map(fv);
            lemma_as_map(rv);
            let all = direct.union(relay_part(b, rv, rv.len() as int, now, epoch));
            assert forall|e: (Seq<char>, Seq<char>, u64, bool)| #[trigger] all.contains(e) <==> entry_set(b, now, epoch).contains(e) by {
                if direct.contains(e) {
                    let j = choose|j: int|
                        0 <= j < fv.len() && (#[trigger] fv[j]).0 == e.0 && fv[j].1.0 == e.1 && fv[j].1.2 == e.2 && age(now, fv[j].1.1)
                            < FIRST_HAND_EXPIRY_NANOS;
                    assert(b.first[fv[j].0] == fv[j].1);
                }
                if relay_part(b, rv, rv.len() as int, now, epoch).contains(e) {
                    let j = choose|j: int|
                        0 <= j < rv.len() && (#[trigger] rv[j]).0 == (e.0, e.1) && rv[j].1.0 == e.2 && !direct_live(b, e.0, now)
                            && fresh_spec(rv[j].1.0, epoch) && age(now, rv[j].1.1) < RELAY_EXPIRY_NANOS;
                    assert(b.relayed[rv[j].0] == rv[j].1);
                }
                if entry_set(b, now, epoch).contains(e) {
                    if !e.3 {
                        let j = choose|j: int| 0 <= j < fv.len() && fv[j].0 == e.0;
                        assert(b.first[fv[j].0] == fv[j].1);
                        assert(direct.contains(e));
                    } else {
                        let j = choose|j: int| 0 <= j < rv.len() && rv[j].0 == (e.0, e.1);
                        assert(b.relayed[rv[j].0] == rv[j].1);
                        assert(relay_part(b, rv, rv.len() as int, now, epoch).contains(e));
                    }
                }
            }
            assert(all =~= entry_set(b, now, epoch));
        }
        out
    }
}

/// The host and table pairs of a listing are what the book shows.
pub proof fn lemma_keys_visible(s: Seq<(Seq<char>, Seq<char>, u64, bool)>, b: BookV, now: u128, epoch: u64)
    requires
        s.to_set() == entry_set(b, now, epoch),
    ensures
        keys(s).to_set() == visible(b, now, epoch),
{
    assert forall|p: (Seq<char>, Seq<char>)| #[trigger] keys(s).to_set().contains(p) <==> visible(b, now, epoch).contains(p) by {
        if keys(s).to_set().contains(p) {
            let i = choose|i: int| 0 <= i < keys(s).len() && keys(s)[i] == p;
            assert(s.to_set().contains(s[i]));
        }
        if visible(b, now, epoch).contains(p) {
            let e = if direct_live(b, p.0, now) && p.1 == b.first[p.0].0 {
                (p.0, p.1, b.first[p.0].2, false)
            } else {
                (p.0, p.1, b.relayed[p].0, true)
            };
            assert(entry_set(b, now, epoch).contains(e));
            let i = choose|i: int| 0 <= i < s.len() && s[i] == e;
            assert(keys(s)[i] == p);
        }
    }
    assert(keys(s).to_set() =~= visible(b, now, epoch));
}

/// Whether two listings show the same host and table pairs, in order.
fn same_keys(a: &Vec<(String, String, u64, bool)>, b: &Vec<(String, String, u64, bool)>) -> (r: bool)
    ensures
        r == (keys(entry_views(a@)) == keys(entry_views(b@))),
{
    let ghost ka = keys(entry_views(a@));
    let ghost kb = keys(entry_views(b@));
    if a.len() != b.len() {
        assert(ka.len() != kb.len());
        return false;
    }
    let mut i: usize = 0;
    while i < a.len()
        invariant
            a.len() == b.len(),
            ka == keys(entry_views(a@)),
            kb == keys(entry_views(b@)),
            i <= a.len(),
            forall|j: int| 0 <= j < i ==> ka[j] == kb[j],
        decreases a.len() - i,
    {
        if !(a[i].0 == b[i].0 && a[i].1 == b[i].1) {
            assert(ka[i as int] != kb[i as int]);
            return false;
        }
        i = i + 1;
    }
    assert(ka =~= kb);
    true
}

/// Whether a listing shows a table on `host`.
fn lists_host(s: &Vec<(String, String, u64, bool)>, host: &String) -> (r: bool)
    ensures
        r == exists|i: int| 0 <= i < s@.len() && (#[trigger] entry_views(s@)[i]).0 == host@,
{
    let mut i: usize = 0;
    while i < s.len()
        invariant
            i <= s.len(),
            forall|j: int| 0 <= j < i ==> (#[trigger] entry_views(s@)[j]).0 != host@,
        decreases s.len() - i,
    {
        if s[i].0 == *host {
            assert(entry_views(s@)[i as int].0 == host@);
            return true;
        }
        i = i + 1;
    }
    false
}

/// What changed in what the book shows, from the listings before and after.
proof fn lemma_changed(
    before: Seq<(Seq<char>, Seq<char>, u64, bool)>,
    after: Seq<(Seq<char>, Seq<char>, u64, bool)>,
    b0: BookV,
    b1: BookV,
    now: u128,
    epoch: u64,
)
    requires
        sorted_entries(before),
        sorted_entries(after),
        before.to_set() == entry_set(b0, now, epoch),
        after.to_set() == entry_set(b1, now, epoch),
    ensures
        (keys(before) == keys(after)) == (visible(b0, now, epoch) == visible(b1, now, epoch)),
{
    lemma_keys_visible(before, b0, now, epoch);
    lemma_keys_visible(after, b1, now, epoch);
    if visible(b0, now, epoch) == visible(b1, now, epoch) {
        lemma_sorted_keys_unique(keys(before), keys(after));
    }
}

/// The text an advert names, if there is one.
pub open spec fn advert_name(a: Option<&TableAdvert>) -> Option<Seq<char>> {
    match a {
        Some(t) => Some(t.name@),
        None => None,
    }
}

/// A piece of hearsay: host, table and when it was heard.
pub open spec fn heard_views(h: Seq<HeardTable>) -> Seq<(Seq<char>, Seq<char>, u64)> {
    Seq::new(h.len(), |i: int| (h[i].host@, h[i].table.name@, h[i].heard_at))
}

impl TableBook {
    /// Takes in what `host` said of its own table (`None`: it has none open).
    /// Whether what the book shows changed.
    pub fn hear(&mut self, host: &str, advert: Option<&TableAdvert>, now: u128, epoch: u64) -> (changed: bool)
        ensures
            final(self)@ == hear_spec(old(self)@, host@, advert_name(advert), now, epoch),
            changed == (visible(old(self)@, now, epoch) != visible(final(self)@, now, epoch)),
    {
        let before = self.entries(now, epoch);
        let ghost b0 = self@;
        let h = crate::text::owned(host);
        self.retain_relays(Some(&h), now, epoch);
        match advert {
            Some(a) => {
                self.set_withdrawn(h.clone(), None);
                self.put_first(h, a.name.clone(), now, epoch);
            },
            None => {
                let had = self.remove_first(&h);
                let listed = lists_host(&before, &h);
                proof {
                    lemma_keys_visible(entry_views(before@), b0, now, epoch);
                    if listed {
                        let i = choose|i: int| 0 <= i < before@.len() && (#[trigger] entry_views(before@)[i]).0 == h@;
                        assert(keys(entry_views(before@))[i] == (h@, entry_views(before@)[i].1));
                        assert(visible(b0, now, epoch).contains((h@, entry_views(before@)[i].1)));
                    }
                    if exists|n: Seq<char>| #[trigger] visible(b0, now, epoch).contains((h@, n)) {
                        let n = choose|n: Seq<char>| #[trigger] visible(b0, now, epoch).contains((h@, n));
                        assert(keys(entry_views(before@)).to_set().contains((h@, n)));
                        let i = choose|i: int| 0 <= i < keys(entry_views(before@)).len() && keys(entry_views(before@))[i] == (h@, n);
                        assert(entry_views(before@)[i].0 == h@);
                    }
                }
                if had || listed {
                    self.set_withdrawn(h, Some(epoch));
                }
            },
        }
        let after = self.entries(now, epoch);
        proof {
            lemma_changed(entry_views(before@), entry_views(after@), b0, self@, now, epoch);
        }
        !same_keys(&before, &after)
    }

    /// Forgets `host`: its advert and all hearsay about it. Whether what the
    /// book shows changed.
    pub fn forget(&mut self, host: &str, now: u128, epoch: u64) -> (changed: bool)
        ensures
            final(self)@ == forget_spec(old(self)@, host@),
            changed == (visible(old(self)@, now, epoch) != visible(final(self)@, now, epoch)),
    {
        let before = self.entries(now, epoch);
        let ghost b0 = self@;
        let h = crate::text::owned(host);
        self.remove_first(&h);
        self.retain_relays(Some(&h), now, epoch);
        let after = self.entries(now, epoch);
        proof {
            lemma_changed(entry_views(before@), entry_views(after@), b0, self@, now, epoch);
        }
        !same_keys(&before, &after)
    }

    /// Takes in one piece of hearsay.
    fn learn_one(&mut self, sender: &String, self_id: &String, entry: &HeardTable, known: bool, now: u128, epoch: u64)
        ensures
            final(self)@ == learn_step(
                old(self)@,
                sender@,
                self_id@,
                (entry.host@, entry.table.name@, entry.heard_at),
                known,
                now,
                epoch,
            ),
    {
        let host = &entry.host;
        if *host == *self_id || *host == *sender || !known {
            return;
        }
        if !fresh(entry.heard_at, epoch) {
            return;
        }
        match self.find_withdrawn(host) {
            Some(j) => {
                if entry.heard_at <= self.withdrawn[j].1 {
                    return;
                }
            },
            None => {},
        }
        if self.is_direct(host, now) {
            return;
        }
        self.remove_first(host);
        let newer = match self.find_relay(host, &entry.table.name) {
            Some(j) => entry.heard_at > self.relayed[j].2,
            None => true,
        };
        if newer {
            self.put_relay(host.clone(), entry.table.name.clone(), entry.heard_at, now);
        }
    }

    /// Takes in hearsay from `sender`; `known[i]` says whether the host of
    /// `heard[i]` is one we know. Whether what the book shows changed.
    pub fn learn(
        &mut self,
        sender: &str,
        heard: &[HeardTable],
        self_id: &str,
        known: &[bool],
        now: u128,
        epoch: u64,
    ) -> (changed: bool)
        requires
            known.len() == heard.len(),
        ensures
            final(self)@ == learn_spec(
                old(self)@,
                sender@,
                self_id@,
                heard_views(heard@),
                known@,
                heard.len() as nat,
                now,
                epoch,
            ),
            changed == (visible(old(self)@, now, epoch) != visible(final(self)@, now, epoch)),
    {
        let before = self.entries(now, epoch);
        let ghost b0 = self@;
        let s = crate::text::owned(sender);
        let me = crate::text::owned(self_id);
        self.retain_relays(None, now, epoch);
        self.sweep_withdrawn(epoch);
        let mut i: usize = 0;
        while i < heard.len()
            invariant
                known.len() == heard.len(),
                i <= heard.len(),
                s@ == sender@,
                me@ == self_id@,
                self@ == learn_spec(b0, sender@, self_id@, heard_views(heard@), known@, i as nat, now, epoch),
            decreases heard.len() - i,
        {
            self.learn_one(&s, &me, &heard[i], known[i], now, epoch);
            assert(heard_views(heard@)[i as int] == (heard@[i as int].host@, heard@[i as int].table.name@, heard@[i as int].heard_at));
            i = i + 1;
        }
        let after = self.entries(now, epoch);
        proof {
            lemma_changed(entry_views(before@), entry_views(after@), b0, self@, now, epoch);
        }
        !same_keys(&before, &after)
    }
}

/// What the book lists, in order of host and table.
pub open spec fn listing(b: BookV, now: u128, epoch: u64) -> Seq<(Seq<char>, Seq<char>, u64, bool)> {
    choose|s: Seq<(Seq<char>, Seq<char>, u64, bool)>| sorted_entries(s) && s.to_set() == entry_set(b, now, epoch)
}

proof fn lemma_entry_key_unique(
    b: BookV,
    now: u128,
    epoch: u64,
    x: (Seq<char>, Seq<char>, u64, bool),
    y: (Seq<char>, Seq<char>, u64, bool),
)
    requires
        entry_set(b, now, epoch).contains(x),
        entry_set(b, now, epoch).contains(y),
        key_of(x) == key_of(y),
    ensures
        x == y,
{
}

/// A sorted list of what the book lists is its listing.
proof fn lemma_listing(s: Seq<(Seq<char>, Seq<char>, u64, bool)>, b: BookV, now: u128, epoch: u64)
    requires
        sorted_entries(s),
        s.to_set() == entry_set(b, now, epoch),
    ensures
        listing(b, now, epoch) == s,
{
    let t = listing(b, now, epoch);
    assert(sorted_entries(t) && t.to_set() == entry_set(b, now, epoch));
    lemma_keys_visible(s, b, now, epoch);
    lemma_keys_visible(t, b, now, epoch);
    lemma_sorted_keys_unique(keys(s), keys(t));
    assert(s.len() == keys(s).len());
    assert forall|i: int| 0 <= i < s.len() implies s[i] == t[i] by {
        assert(keys(s)[i] == keys(t)[i]);
        assert(s.to_set().contains(s[i]));
        assert(t.to_set().contains(t[i]));
        lemma_entry_key_unique(b, now, epoch, s[i], t[i]);
    }
    assert(s =~= t);
}

impl TableBook {
    /// The tables open at `now` and `epoch`, in order of host and table.
    pub fn live(&self, now: u128, epoch: u64) -> (r: Vec<OpenTable>)
        ensures
            r@.len() == listing(self@, now, epoch).len(),
            forall|i: int|
                0 <= i < r@.len() ==> (#[trigger] r@[i]).host@ == listing(self@, now, epoch)[i].0 && r@[i].name@
                    == listing(self@, now, epoch)[i].1 && r@[i].relayed == listing(self@, now, epoch)[i].3,
    {
        let entries = self.entries(now, epoch);
        proof {
            lemma_listing(entry_views(entries@), self@, now, epoch);
        }
        let mut out: Vec<OpenTable> = Vec::new();
        let mut i: usize = 0;
        while i < entries.len()
            invariant
                i <= entries.len(),
                out@.len() == i,
                entry_views(entries@) == listing(self@, now, epoch),
                forall|j: int|
                    0 <= j < i ==> (#[trigger] out@[j]).host@ == entries@[j].0@ && out@[j].name@ == entries@[j].1@
                        && out@[j].relayed == entries@[j].3,
            decreases entries.len() - i,
        {
            let e = &entries[i];
            out.push(OpenTable { host: e.0.clone(), name: e.1.clone(), relayed: e.3 });
            i = i + 1;
        }
        out
    }

    /// What to pass on to peers: every table listed, with when it was heard.
    pub fn relay(&self, now: u128, epoch: u64) -> (r: Vec<HeardTable>)
        ensures
            r@.len() == listing(self@, now, epoch).len(),
            forall|i: int|
                0 <= i < r@.len() ==> (#[trigger] r@[i]).host@ == listing(self@, now, epoch)[i].0
                    && r@[i].table.name@ == listing(self@, now, epoch)[i].1 && r@[i].heard_at == listing(
                    self@,
                    now,
                    epoch,
                )[i].2,
    {
        let entries = self.entries(now, epoch);
        proof {
            lemma_listing(entry_views(entries@), self@, now, epoch);
        }
        let mut out: Vec<HeardTable> = Vec::new();
        let mut i: usize = 0;
        while i < entries.len()
            invariant
                i <= entries.len(),
                out@.len() == i,
                entry_views(entries@) == listing(self@, now, epoch),
                forall|j: int|
                    0 <= j < i ==> (#[trigger] out@[j]).host@ == entries@[j].0@ && out@[j].table.name@
                        == entries@[j].1@ && out@[j].heard_at == entries@[j].2,
            decreases entries.len() - i,
        {
            let e = &entries[i];
            out.push(HeardTable { host: e.0.clone(), table: TableAdvert { name: e.1.clone() }, heard_at: e.2 });
            i = i + 1;
        }
        out
    }
}

impl Default for TableBook {
    fn default() -> (b: Self)
        ensures
            b@.first == Map::<Seq<char>, FirstV>::empty(),
            b@.relayed == Map::<(Seq<char>, Seq<char>), RelayV>::empty(),
            b@.withdrawn == Map::<Seq<char>, u64>::empty(),
    {
        TableBook::new()
    }
}

/// Hearing the advert a host already has current again changes nothing the
/// book shows.
pub proof fn law_refresh_is_quiet(b: BookV, host: Seq<char>, name: Seq<char>, now: u128, epoch: u64, heard: u64)
    requires
        direct_live(b, host, now),
        b.first[host].0 == name,
    ensures
        visible(hear_spec(b, host, Some(name), now, heard), now, epoch) == visible(b, now, epoch),
{
    let b2 = hear_spec(b, host, Some(name), now, heard);
    assert forall|p: (Seq<char>, Seq<char>)| #[trigger] visible(b2, now, epoch).contains(p) <==> visible(b, now, epoch).contains(p) by {
        if p.0 != host {
            assert(b2.first.contains_key(p.0) == b.first.contains_key(p.0));
            if b.relayed.contains_key(p) {
                assert(b2.relayed.contains_key(p));
            }
        } else {
            assert(!b2.relayed.contains_key(p));
        }
    }
    assert(visible(b2, now, epoch) =~= visible(b, now, epoch));
}

/// Once a host withdraws its table, the book shows nothing open on it.
pub proof fn law_withdrawal_hides_host(b: BookV, host: Seq<char>, now: u128, epoch: u64, name: Seq<char>)
    ensures
        !visible(hear_spec(b, host, None, now, epoch), now, epoch).contains((host, name)),
{
}

/// A host's own advert replaces all hearsay about it: the book shows exactly
/// that table on the host.
pub proof fn law_advert_supersedes_hearsay(b: BookV, host: Seq<char>, name: Seq<char>, now: u128, epoch: u64, other: Seq<char>)
    ensures
        visible(hear_spec(b, host, Some(name), now, epoch), now, epoch).contains((host, other)) <==> other == name,
{
}

/// After forgetting a host, the book shows nothing open on it, first-hand or
/// second-hand.
pub proof fn law_forget_hides_host(b: BookV, host: Seq<char>, now: u128, epoch: u64, name: Seq<char>)
    ensures
        !visible(forget_spec(b, host), now, epoch).contains((host, name)),
{
}

/// Hearsay about ourselves or about the peer telling it is never taken in.
pub proof fn law_never_learned_second_hand(
    b: BookV,
    sender: Seq<char>,
    self_id: Seq<char>,
    entry: (Seq<char>, Seq<char>, u64),
    known: bool,
    now: u128,
    epoch: u64,
)
    requires
        entry.0 == self_id || entry.0 == sender,
    ensures
        learn_step(b, sender, self_id, entry, known, now, epoch) == b,
{
}

/// A withdrawal outranks hearsay heard no later than it.
pub proof fn law_withdrawal_outranks_older_hearsay(
    b: BookV,
    sender: Seq<char>,
    self_id: Seq<char>,
    entry: (Seq<char>, Seq<char>, u64),
    known: bool,
    now: u128,
    epoch: u64,
)
    requires
        b.withdrawn.contains_key(entry.0),
        entry.2 <= b.withdrawn[entry.0],
    ensures
        learn_step(b, sender, self_id, entry, known, now, epoch) == b,
{
}

} // verus!
