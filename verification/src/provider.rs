//! Which peer to fetch a ref from: one that holds more of it than this node,
//! or a complete sibling head of the same owner not merged yet, trusted at
//! least as a cache and reachable; the owner's own device first, then the
//! most trusted, then the one holding most.
use vstd::prelude::*;
use crate::gossip::RefAdvert;
use crate::record::same_text;
use crate::trust::{TrustLevel, rank};

verus! {

/// What the mesh knows of one peer: its id, the refs it advertises, how far
/// it is trusted, whether an address for it is known, and its id read as a
/// group, where it reads as one.
pub struct PeerOffer {
    pub id: String,
    pub adverts: Vec<RefAdvert>,
    pub level: TrustLevel,
    pub reachable: bool,
    pub device: Option<String>,
}

pub open spec fn opt_view(o: Option<String>) -> Option<Seq<char>> {
    match o {
        Some(s) => Some(s@),
        None => None,
    }
}

/// Whether owners agree: they do unless both are named and differ.
pub open spec fn owners_agree(ours: Option<Seq<char>>, theirs: Option<Seq<char>>) -> bool {
    match (ours, theirs) {
        (Some(a), Some(b)) => a == b,
        _ => true,
    }
}

/// The first of `s`, from `from` on, that advertises `name` for an owner
/// agreeing with `owner`; `check_owner` off, the first that advertises `name`.
pub open spec fn first_advert(s: Seq<RefAdvert>, name: Seq<char>, check_owner: bool, owner: Option<Seq<char>>) -> Option<int>
    decreases s.len(),
{
    if s.len() == 0 {
        None
    } else {
        match first_advert(s.drop_last(), name, check_owner, owner) {
            Some(i) => Some(i),
            None => if s.last().name@ == name && (!check_owner || owners_agree(owner, opt_view(s.last().owner))) {
                Some(s.len() - 1)
            } else {
                None
            },
        }
    }
}

/// How a peer ranks as a provider of `name`, with the advert that ranks it:
/// whether it is the owner's device, its trust, and how much it holds.
pub open spec fn offer_rank(
    name: Seq<char>,
    locals: Seq<RefAdvert>,
    merged: Seq<Seq<char>>,
    p: PeerOffer,
) -> Option<(bool, int, int, int)> {
    let ours = first_advert(locals, name, false, None);
    let our_held: int = match ours {
        Some(i) => locals[i].held as int,
        None => 0,
    };
    let our_head: Option<Seq<char>> = match ours {
        Some(i) => Some(locals[i].manifest@),
        None => None,
    };
    let our_owner: Option<Seq<char>> = match ours {
        Some(i) => opt_view(locals[i].owner),
        None => None,
    };
    match first_advert(p.adverts@, name, true, our_owner) {
        None => None,
        Some(k) => {
            let a = p.adverts@[k];
            let more_held = a.held > our_held;
            let sibling = a.total > 0 && a.held >= a.total && our_owner is Some && opt_view(a.owner) == our_owner
                && our_head != Some(a.manifest@) && !merged.contains(a.manifest@);
            if a.total == 0 || (!more_held && !sibling) || rank(p.level) < rank(TrustLevel::Cache) || !p.reachable {
                None
            } else {
                let owners_device = a.owner is Some && opt_view(p.device) == opt_view(a.owner);
                Some((owners_device, rank(p.level), a.held as int, k))
            }
        },
    }
}

/// Whether rank `a` is above rank `b`: the owner's device, then trust, then held.
pub open spec fn above(a: (bool, int, int, int), b: (bool, int, int, int)) -> bool {
    (a.0 && !b.0) || (a.0 == b.0 && (a.1 > b.1 || (a.1 == b.1 && a.2 > b.2)))
}

/// The best provider among the first peers: a later peer takes the place
/// only by ranking above.
pub open spec fn best_of(
    name: Seq<char>,
    locals: Seq<RefAdvert>,
    merged: Seq<Seq<char>>,
    peers: Seq<PeerOffer>,
) -> Option<(int, (bool, int, int, int))>
    decreases peers.len(),
{
    if peers.len() == 0 {
        None
    } else {
        let before = best_of(name, locals, merged, peers.drop_last());
        match offer_rank(name, locals, merged, peers.last()) {
            None => before,
            Some(r) => match before {
                None => Some((peers.len() - 1, r)),
                Some((j, c)) => if above(r, c) {
                    Some((peers.len() - 1, r))
                } else {
                    Some((j, c))
                },
            },
        }
    }
}

fn find_advert(s: &Vec<RefAdvert>, name: &str, check_owner: bool, owner: &Option<String>) -> (r: Option<usize>)
    ensures
        match r {
            Some(i) => first_advert(s@, name@, check_owner, opt_view(*owner)) == Some(i as int),
            None => first_advert(s@, name@, check_owner, opt_view(*owner)) is None,
        },
        r matches Some(i) ==> i < s@.len(),
{
    let mut i: usize = 0;
    while i < s.len()
        invariant
            i <= s.len(),
            first_advert(s@.take(i as int), name@, check_owner, opt_view(*owner)) is None,
        decreases s.len() - i,
    {
        assert(s@.take(i + 1).drop_last() =~= s@.take(i as int));
        assert(s@.take(i + 1).last() == s@[i as int]);
        let agree = match (owner, &s[i].owner) {
            (Some(a), Some(b)) => same_text(a.as_str(), b.as_str()),
            _ => true,
        };
        if same_text(s[i].name.as_str(), name) && (!check_owner || agree) {
            proof {
                lemma_first_advert_prefix(s@, name@, check_owner, opt_view(*owner), i + 1);
            }
            return Some(i);
        }
        i = i + 1;
    }
    assert(s@.take(i as int) =~= s@);
    None
}

proof fn lemma_first_advert_prefix(s: Seq<RefAdvert>, name: Seq<char>, check_owner: bool, owner: Option<Seq<char>>, n: int)
    requires
        0 <= n <= s.len(),
    ensures
        first_advert(s.take(n), name, check_owner, owner) is Some ==> first_advert(s, name, check_owner, owner)
            == first_advert(s.take(n), name, check_owner, owner),
    decreases s.len() - n,
{
    if n < s.len() {
        lemma_first_advert_prefix(s, name, check_owner, owner, n + 1);
        assert(s.take(n + 1).drop_last() =~= s.take(n));
    } else {
        assert(s.take(n) =~= s);
    }
}

fn contains_text(v: &Vec<String>, t: &str) -> (r: bool)
    ensures
        r == Seq::new(v@.len(), |i: int| v@[i]@).contains(t@),
{
    let ghost w = Seq::new(v@.len(), |i: int| v@[i]@);
    let mut i: usize = 0;
    while i < v.len()
        invariant
            i <= v.len(),
            w == Seq::new(v@.len(), |i: int| v@[i]@),
            forall|j: int| 0 <= j < i ==> w[j] != t@,
        decreases v.len() - i,
    {
        if same_text(v[i].as_str(), t) {
            assert(w[i as int] == t@);
            return true;
        }
        i = i + 1;
    }
    false
}

fn copy_text(o: &Option<String>) -> (r: Option<String>)
    ensures
        opt_view(r) == opt_view(*o),
{
    match o {
        Some(s) => Some(s.clone()),
        None => None,
    }
}

/// How the peer `p` ranks as a provider of `name`.
fn rank_offer(name: &str, locals: &Vec<RefAdvert>, merged: &Vec<String>, p: &PeerOffer) -> (r: Option<(bool, u32, u32, usize)>)
    ensures
        match r {
            Some((d, l, h, k)) => offer_rank(name@, locals@, Seq::new(merged@.len(), |i: int| merged@[i]@), *p)
                == Some((d, l as int, h as int, k as int)),
            None => offer_rank(name@, locals@, Seq::new(merged@.len(), |i: int| merged@[i]@), *p) is None,
        },
{
    let none: Option<String> = None;
    let ours = find_advert(locals, name, false, &none);
    let our_held: u32 = match ours {
        Some(i) => locals[i].held,
        None => 0,
    };
    let our_owner: Option<String> = match ours {
        Some(i) => copy_text(&locals[i].owner),
        None => None,
    };
    let k = match find_advert(&p.adverts, name, true, &our_owner) {
        Some(k) => k,
        None => return None,
    };
    let a = &p.adverts[k];
    let more_held = a.held > our_held;
    let same_owner = match (&a.owner, &our_owner) {
        (Some(x), Some(y)) => same_text(x.as_str(), y.as_str()),
        _ => false,
    };
    let same_head = match ours {
        Some(i) => same_text(locals[i].manifest.as_str(), a.manifest.as_str()),
        None => false,
    };
    let sibling = a.complete() && our_owner.is_some() && same_owner && !same_head && !contains_text(
        merged,
        a.manifest.as_str(),
    );
    let level = match p.level {
        TrustLevel::Unknown => 0u32,
        TrustLevel::Contact => 1u32,
        TrustLevel::Cache => 2u32,
        TrustLevel::Mesh => 3u32,
    };
    proof {
        assert(level as int == rank(p.level));
    }
    if a.total == 0 || (!more_held && !sibling) || level < 2 || !p.reachable {
        return None;
    }
    let device = match (&a.owner, &p.device) {
        (Some(x), Some(y)) => same_text(x.as_str(), y.as_str()),
        _ => false,
    };
    Some((device, level, a.held, k))
}

/// The best provider of `name`, by its position among `peers` and that of
/// its advert; none when no peer offers more than this node holds or a
/// sibling head to merge.
pub fn best_provider(name: &str, locals: &Vec<RefAdvert>, merged: &Vec<String>, peers: &Vec<PeerOffer>) -> (r:
    Option<(usize, usize)>)
    ensures
        match best_of(name@, locals@, Seq::new(merged@.len(), |i: int| merged@[i]@), peers@) {
            Some((j, c)) => r == Some((j as usize, c.3 as usize)),
            None => r is None,
        },
{
    let ghost ms = Seq::new(merged@.len(), |i: int| merged@[i]@);
    let mut best: Option<(usize, (bool, u32, u32, usize))> = None;
    let mut i: usize = 0;
    assert(peers@.take(0) =~= Seq::<PeerOffer>::empty());
    while i < peers.len()
        invariant
            i <= peers.len(),
            ms == Seq::new(merged@.len(), |i: int| merged@[i]@),
            match best_of(name@, locals@, ms, peers@.take(i as int)) {
                Some((j, c)) => best matches Some((bj, (d, l, h, k))) && bj == j && c == (d, l as int, h as int, k as int)
                    && j < i,
                None => best is None,
            },
        decreases peers.len() - i,
    {
        assert(peers@.take(i + 1).drop_last() =~= peers@.take(i as int));
        assert(peers@.take(i + 1).last() == peers@[i as int]);
        match rank_offer(name, locals, merged, &peers[i]) {
            None => {},
            Some(r) => {
                let take = match best {
                    None => true,
                    Some((_, c)) => (r.0 && !c.0) || (r.0 == c.0 && (r.1 > c.1 || (r.1 == c.1 && r.2 > c.2))),
                };
                if take {
                    best = Some((i, r));
                }
            },
        }
        i = i + 1;
    }
    assert(peers@.take(i as int) =~= peers@);
    match best {
        Some((j, (_, _, _, k))) => Some((j, k)),
        None => None,
    }
}

proof fn lemma_best_is_first_highest(name: Seq<char>, locals: Seq<RefAdvert>, merged: Seq<Seq<char>>, peers: Seq<PeerOffer>)
    ensures
        match best_of(name, locals, merged, peers) {
            None => forall|k: int| 0 <= k < peers.len() ==> (#[trigger] offer_rank(name, locals, merged, peers[k])) is None,
            Some((j, c)) => {
                &&& 0 <= j < peers.len()
                &&& offer_rank(name, locals, merged, peers[j]) == Some(c)
                &&& forall|k: int|
                    0 <= k < peers.len() && (#[trigger] offer_rank(name, locals, merged, peers[k])) is Some ==> {
                        let r = offer_rank(name, locals, merged, peers[k])->0;
                        &&& !((r.0 && !c.0) || (r.0 == c.0 && (r.1 > c.1 || (r.1 == c.1 && r.2 > c.2))))
                        &&& k < j ==> ((c.0 && !r.0) || (c.0 == r.0 && (c.1 > r.1 || (c.1 == r.1 && c.2 > r.2))))
                    }
            },
        },
    decreases peers.len(),
{
    if peers.len() > 0 {
        let d = peers.drop_last();
        lemma_best_is_first_highest(name, locals, merged, d);
        assert forall|k: int| 0 <= k < d.len() implies #[trigger] peers[k] == d[k] by {}
    }
}

/// Which peer is asked for a ref: the first of those that offer it with
/// the highest rank, ranking the owner's own device first, then higher
/// trust, then more blobs held; none only when no peer offers it. So of two
/// offers alike in device and trust, the one holding more is asked.
pub proof fn law_provider_is_the_first_best_offer(
    name: Seq<char>,
    locals: Seq<RefAdvert>,
    merged: Seq<Seq<char>>,
    peers: Seq<PeerOffer>,
)
    ensures
        match best_of(name, locals, merged, peers) {
            None => forall|k: int| 0 <= k < peers.len() ==> (#[trigger] offer_rank(name, locals, merged, peers[k])) is None,
            Some((j, c)) => {
                &&& 0 <= j < peers.len()
                &&& offer_rank(name, locals, merged, peers[j]) == Some(c)
                &&& forall|k: int|
                    0 <= k < peers.len() && (#[trigger] offer_rank(name, locals, merged, peers[k])) is Some ==> {
                        let r = offer_rank(name, locals, merged, peers[k])->0;
                        &&& !((r.0 && !c.0) || (r.0 == c.0 && (r.1 > c.1 || (r.1 == c.1 && r.2 > c.2))))
                        &&& k < j ==> ((c.0 && !r.0) || (c.0 == r.0 && (c.1 > r.1 || (c.1 == r.1 && c.2 > r.2))))
                    }
            },
        },
{
    lemma_best_is_first_highest(name, locals, merged, peers);
}

proof fn lemma_first_advert(s: Seq<RefAdvert>, name: Seq<char>, check_owner: bool, owner: Option<Seq<char>>)
    ensures
        match first_advert(s, name, check_owner, owner) {
            Some(i) => 0 <= i < s.len() && s[i].name@ == name && (!check_owner || owners_agree(owner, opt_view(s[i].owner)))
                && forall|j: int|
                0 <= j < i ==> !((#[trigger] s[j]).name@ == name && (!check_owner || owners_agree(owner, opt_view(s[j].owner)))),
            None => forall|j: int|
                0 <= j < s.len() ==> !((#[trigger] s[j]).name@ == name && (!check_owner || owners_agree(owner, opt_view(s[j].owner)))),
        },
    decreases s.len(),
{
    if s.len() > 0 {
        let d = s.drop_last();
        lemma_first_advert(d, name, check_owner, owner);
        assert forall|j: int| 0 <= j < d.len() implies #[trigger] s[j] == d[j] by {}
    }
}

/// Only a useful offer is taken: a reachable peer trusted at least as a
/// cache, whose first advert of the ref (for an owner agreeing with ours)
/// needs some blob and holds more of it than this node's first advert of
/// the ref holds (nothing, without one), or holds all of it. Its rank is the
/// peer's trust and what that advert holds.
pub proof fn law_only_useful_offers_rank(name: Seq<char>, locals: Seq<RefAdvert>, merged: Seq<Seq<char>>, p: PeerOffer)
    ensures
        offer_rank(name, locals, merged, p) matches Some((dev, lvl, held, k)) ==> {
            &&& p.reachable
            &&& rank(p.level) >= rank(TrustLevel::Cache)
            &&& lvl == rank(p.level)
            &&& 0 <= k < p.adverts@.len()
            &&& p.adverts@[k].name@ == name
            &&& p.adverts@[k].total > 0
            &&& held == p.adverts@[k].held
            &&& (held > (if exists|i: int| 0 <= i < locals.len() && (#[trigger] locals[i]).name@ == name {
                locals[choose|i: int| 0 <= i < locals.len() && locals[i].name@ == name && forall|j: int|
                    0 <= j < i ==> (#[trigger] locals[j]).name@ != name].held as int
            } else {
                0
            }) || p.adverts@[k].held >= p.adverts@[k].total)
        },
{
    lemma_first_advert(locals, name, false, None);
    let ours = first_advert(locals, name, false, None);
    let our_owner: Option<Seq<char>> = match ours {
        Some(i) => opt_view(locals[i].owner),
        None => None,
    };
    lemma_first_advert(p.adverts@, name, true, our_owner);
    if ours is Some {
        let i0 = ours->0;
        assert(locals[i0].name@ == name);
        let c = choose|i: int| 0 <= i < locals.len() && locals[i].name@ == name && forall|j: int|
            0 <= j < i ==> (#[trigger] locals[j]).name@ != name;
        if c < i0 {
            assert(!(locals[c].name@ == name));
        } else if i0 < c {
            assert(locals[i0].name@ != name);
        }
    }
}

} // verus!
