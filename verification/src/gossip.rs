//! What peers tell each other about the refs and tables they hold.
use vstd::prelude::*;
use crate::identity::{Dgid, Signature, parse_dgid, vouched, ed25519_accepts};
use crate::hex::parse_hex;
use crate::text::trimmed;

verus! {

/// A ref a peer holds: its name, its manifest, how many blobs it needs and
/// how many of them the peer has, and the group that owns it, if any.
#[derive(Clone, Debug, PartialEq, Eq)]
pub struct RefAdvert {
    pub name: String,
    pub manifest: String,
    pub total: u32,
    pub held: u32,
    pub owner: Option<String>,
}

impl RefAdvert {
    /// Whether the peer holds every blob of a ref that needs at least one.
    pub fn complete(&self) -> (r: bool)
        ensures
            r == (self.total > 0 && self.held >= self.total),
    {
        self.total > 0 && self.held >= self.total
    }
}

/// A table a peer hosts.
#[derive(Clone, Debug, PartialEq, Eq)]
pub struct TableAdvert {
    pub name: String,
}

/// A table a peer heard of from another host, and when.
#[derive(Clone, Debug, PartialEq, Eq)]
pub struct HeardTable {
    pub host: String,
    pub table: TableAdvert,
    pub heard_at: u64,
}

/// The group a peer's view vouches for: the claimed dgid, when the vouch is
/// that group's signature over the sender's node id.
pub open spec fn vouched_spec(dgid: Option<Seq<char>>, vouch: Option<Seq<char>>, node_id: Seq<u8>) -> Option<Seq<u8>> {
    match (dgid, vouch) {
        (Some(d), Some(v)) => match (parse_dgid(d), parse_hex(trimmed(v), 64)) {
            (Some(g), Some(sig)) => if ed25519_accepts(g, node_id, sig) {
                Some(g)
            } else {
                None
            },
            _ => None,
        },
        _ => None,
    }
}

/// The group that the sender with node id `node_id` proves it belongs to,
/// given the dgid and vouch its view carries.
pub fn vouched_dgid(dgid: Option<&str>, vouch: Option<&str>, node_id: &[u8; 32]) -> (r: Option<Dgid>)
    ensures
        match r {
            Some(g) => vouched_spec(opt_view(dgid), opt_view(vouch), node_id@) == Some(g@),
            None => vouched_spec(opt_view(dgid), opt_view(vouch), node_id@) is None,
        },
{
    let d = match dgid {
        Some(d) => d,
        None => return None,
    };
    let g = match Dgid::parse(d) {
        Some(g) => g,
        None => {
            return None;
        },
    };
    let v = match vouch {
        Some(v) => v,
        None => return None,
    };
    let sig = match Signature::parse(v) {
        Some(s) => s,
        None => return None,
    };
    if vouched(g, node_id, sig) {
        Some(g)
    } else {
        None
    }
}

/// The text an optional string holds.
pub open spec fn opt_view(o: Option<&str>) -> Option<Seq<char>> {
    match o {
        Some(s) => Some(s@),
        None => None,
    }
}

} // verus!
