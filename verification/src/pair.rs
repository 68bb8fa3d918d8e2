//! Pairing a device into a group: one-use offers, the links that carry
//! them, and the comparisons that check their tokens.
use vstd::prelude::*;
use crate::gateway::after;
use crate::hex::{self, hex_of};
use crate::identity::{self, Dgid, parse_dgid};
use crate::lex::{first_of, find_first, split_on, split_text};
use crate::path::{join, join_spec};
use crate::record::same_text;
use crate::text::{chars_of, string_of, append, trimmed, trim_str, trim_chars, has_prefix, tail, slice, owned};

verus! {

/// How long an offer stays open, in milliseconds.
pub const OFFER_TTL_MS: u64 = 600000;

/// A one-use pairing offer: a random token and when it stops being accepted,
/// on a monotonic clock in milliseconds.
pub struct Offer {
    pub token: [u8; 32],
    pub expires: u64,
}

impl Offer {
    /// A fresh offer made at `now`.
    pub fn new(now: u64) -> (r: Result<Self, std::io::Error>)
        requires
            now + OFFER_TTL_MS <= u64::MAX,
        ensures
            r matches Ok(o) ==> o.expires == now + OFFER_TTL_MS,
    {
        let token = identity::random_secret()?;
        Ok(Offer { token, expires: now + OFFER_TTL_MS })
    }

    /// The token in hex.
    pub fn token_hex(&self) -> (s: String)
        ensures
            s@ == hex_of(self.token@),
    {
        string_of(&hex::encode(&self.token))
    }

    /// Whether the offer is still open at `now`.
    pub fn live(&self, now: u64) -> (r: bool)
        ensures
            r == (now < self.expires),
    {
        now < self.expires
    }

    /// Whole seconds left at `now`; none once it has expired.
    pub fn seconds_left(&self, now: u64) -> (r: u64)
        ensures
            r == (if now < self.expires {
                (self.expires - now) / 1000
            } else {
                0
            }),
    {
        if now < self.expires {
            (self.expires - now) / 1000
        } else {
            0
        }
    }
}

/// Whether two byte strings are equal, looking at every byte whatever the first difference.
pub fn constant_time_eq(left: &[u8], right: &[u8]) -> (r: bool)
    ensures
        r == (left@ == right@),
{
    if left.len() != right.len() {
        return false;
    }
    let mut acc: u8 = 0;
    let mut i: usize = 0;
    while i < left.len()
        invariant
            left.len() == right.len(),
            i <= left.len(),
            (acc == 0) == (forall|j: int| 0 <= j < i ==> left@[j] == right@[j]),
        decreases left.len() - i,
    {
        let a = left[i];
        let b = right[i];
        let d = a ^ b;
        assert((d == 0) == (a == b)) by (bit_vector)
            requires
                d == a ^ b,
        ;
        let next = acc | d;
        assert((next == 0) == (acc == 0 && d == 0)) by (bit_vector)
            requires
                next == acc | d,
        ;
        acc = next;
        i = i + 1;
    }
    proof {
        if acc == 0 {
            assert(left@ =~= right@);
        }
    }
    acc == 0
}

/// A pairing link's content: the offering node's ticket, its group, and the token.
#[derive(Debug, Clone, PartialEq, Eq)]
pub struct Invite {
    pub ticket: String,
    pub dgid: Dgid,
    pub token: [u8; 32],
}

/// The link of an invite.
pub open spec fn invite_url(ticket: Seq<char>, dgid: Seq<u8>, token: Seq<u8>) -> Seq<char> {
    "spirit://pair?ticket="@ + ticket + "&dgid="@ + hex_of(dgid) + "&token="@ + hex_of(token)
}

/// What the pairs of a link's query set: the ticket, the dgid and the token;
/// later pairs win, and a dgid or token that does not parse unsets it.
pub open spec fn invite_fields(pairs: Seq<Seq<char>>) -> (Option<Seq<char>>, Option<Seq<u8>>, Option<Seq<u8>>)
    decreases pairs.len(),
{
    if pairs.len() == 0 {
        (None, None, None)
    } else {
        let (ticket, dgid, token) = invite_fields(pairs.drop_last());
        let p = pairs.last();
        match first_of(p, '=') {
            None => (ticket, dgid, token),
            Some(i) => {
                let key = p.take(i);
                let value = p.skip(i + 1);
                if key == "ticket"@ {
                    (Some(value), dgid, token)
                } else if key == "dgid"@ {
                    (ticket, parse_dgid(value), token)
                } else if key == "token"@ {
                    (ticket, dgid, parse_dgid(value))
                } else {
                    (ticket, dgid, token)
                }
            },
        }
    }
}

/// The invite a link carries, or why it carries none.
pub open spec fn invite_spec(url: Seq<char>) -> Result<(Seq<char>, Seq<u8>, Seq<u8>), Seq<char>> {
    match after(trimmed(url), "spirit://pair?"@) {
        None => Err("a pairing link starts with spirit://pair?"@),
        Some(q) => {
            let (ticket, dgid, token) = invite_fields(split_on(q, "&"@));
            match (ticket, dgid, token) {
                (None, _, _) => Err("the pairing link has no ticket"@),
                (Some(_), None, _) => Err("the pairing link has no valid dgid"@),
                (Some(_), Some(_), None) => Err("the pairing link has no valid token"@),
                (Some(t), Some(d), Some(k)) => Ok((t, d, k)),
            }
        },
    }
}

fn read_fields(pairs: &Vec<Vec<char>>) -> (r: (Option<String>, Option<Dgid>, Option<Dgid>))
    ensures
        ({
            let views = Seq::new(pairs@.len(), |i: int| pairs@[i]@);
            invite_fields(views) == (
                crate::gateway::str_opt(r.0),
                crate::collection::dgid_opt(r.1),
                crate::collection::dgid_opt(r.2),
            )
        }),
{
    let ghost views = Seq::new(pairs@.len(), |i: int| pairs@[i]@);
    let mut ticket: Option<String> = None;
    let mut dgid: Option<Dgid> = None;
    let mut token: Option<Dgid> = None;
    let mut i: usize = 0;
    assert(views.take(0) =~= Seq::<Seq<char>>::empty());
    while i < pairs.len()
        invariant
            i <= pairs.len(),
            views == Seq::new(pairs@.len(), |k: int| pairs@[k]@),
            invite_fields(views.take(i as int)) == (
                crate::gateway::str_opt(ticket),
                crate::collection::dgid_opt(dgid),
                crate::collection::dgid_opt(token),
            ),
        decreases pairs.len() - i,
    {
        assert(views.take(i + 1).drop_last() =~= views.take(i as int));
        assert(views.take(i + 1).last() == pairs@[i as int]@);
        let p = &pairs[i];
        match find_first(p, '=') {
            None => {},
            Some(e) => {
                assert(e < p.len());
                let key = slice(p, 0, e);
                let value = string_of(&tail(p, e + 1));
                let k = string_of(&key);
                if same_text(k.as_str(), "ticket") {
                    ticket = Some(value);
                } else if same_text(k.as_str(), "dgid") {
                    dgid = Dgid::parse(value.as_str());
                } else if same_text(k.as_str(), "token") {
                    token = Dgid::parse(value.as_str());
                }
            },
        }
        i = i + 1;
    }
    assert(views.take(i as int) =~= views);
    (ticket, dgid, token)
}

impl Invite {
    /// The link that carries this invite.
    pub fn url(&self) -> (s: String)
        ensures
            s@ == invite_url(self.ticket@, self.dgid@, self.token@),
    {
        let mut v = chars_of("spirit://pair?ticket=");
        append(&mut v, &chars_of(self.ticket.as_str()));
        append(&mut v, &chars_of("&dgid="));
        append(&mut v, &hex::encode(self.dgid.as_bytes()));
        append(&mut v, &chars_of("&token="));
        append(&mut v, &hex::encode(&self.token));
        string_of(&v)
    }

    /// The invite a pairing link carries.
    pub fn parse(url: &str) -> (r: Result<Self, String>)
        ensures
            match r {
                Ok(inv) => invite_spec(url@) == Ok::<(Seq<char>, Seq<u8>, Seq<u8>), Seq<char>>(
                    (inv.ticket@, inv.dgid@, inv.token@),
                ),
                Err(e) => invite_spec(url@) == Err::<(Seq<char>, Seq<u8>, Seq<u8>), Seq<char>>(e@),
            },
    {
        proof {
            reveal_strlit("&");
        }
        let t = string_of(&trim_str(url));
        let q = match crate::gateway::strip_prefix_text(t.as_str(), "spirit://pair?") {
            Some(q) => q,
            None => return Err(owned("a pairing link starts with spirit://pair?")),
        };
        let pairs = split_text(&chars_of(q.as_str()), &chars_of("&"));
        let (ticket, dgid, token) = read_fields(&pairs);
        proof {
            let views = Seq::new(pairs@.len(), |i: int| pairs@[i]@);
            assert(views =~= split_on(q@, "&"@));
        }
        let ticket = match ticket {
            Some(t) => t,
            None => return Err(owned("the pairing link has no ticket")),
        };
        let dgid = match dgid {
            Some(d) => d,
            None => return Err(owned("the pairing link has no valid dgid")),
        };
        let token = match token {
            Some(k) => *k.as_bytes(),
            None => return Err(owned("the pairing link has no valid token")),
        };
        Ok(Invite { ticket, dgid, token })
    }
}

/// The file of remembered seeds under a store directory.
pub fn seeds_path(store_dir: &str) -> (p: String)
    ensures
        p@ == join_spec(store_dir@, "seeds"@),
{
    join(store_dir, "seeds")
}

/// The non-empty trimmed lines of `lines`, in order.
pub open spec fn kept_lines(lines: Seq<Seq<char>>) -> Seq<Seq<char>>
    decreases lines.len(),
{
    if lines.len() == 0 {
        Seq::empty()
    } else {
        let k = kept_lines(lines.drop_last());
        let t = trimmed(lines.last());
        if t.len() > 0 {
            k.push(t)
        } else {
            k
        }
    }
}

/// The seeds a seeds file lists: its non-empty lines, trimmed.
pub fn seeds_of(text: &str) -> (v: Vec<String>)
    ensures
        crate::mesh::string_views(v@) == kept_lines(split_on(text@, "\n"@)),
{
    proof {
        reveal_strlit("\n");
    }
    let lines = split_text(&chars_of(text), &chars_of("\n"));
    let ghost ls = split_on(text@, "\n"@);
    let mut out: Vec<String> = Vec::new();
    let mut i: usize = 0;
    assert(crate::mesh::string_views(out@) =~= kept_lines(ls.take(0)));
    while i < lines.len()
        invariant
            i <= lines.len(),
            lines@.len() == ls.len(),
            forall|j: int| 0 <= j < lines@.len() ==> (#[trigger] lines@[j])@ == ls[j],
            crate::mesh::string_views(out@) == kept_lines(ls.take(i as int)),
        decreases lines.len() - i,
    {
        assert(ls.take(i + 1).drop_last() =~= ls.take(i as int));
        assert(ls.take(i + 1).last() == lines@[i as int]@);
        let t = trim_chars(&lines[i]);
        if t.len() > 0 {
            let ghost before = crate::mesh::string_views(out@);
            out.push(string_of(&t));
            assert(crate::mesh::string_views(out@) =~= before.push(t@));
        }
        i = i + 1;
    }
    assert(ls.take(i as int) =~= ls);
    out
}

/// The group key a join reply hands over, if the reply is a success whose
/// secret reads as 32 bytes and is the key of the invited group.
pub open spec fn joined_secret(invited: Seq<u8>, ok: bool, group_secret: Option<Seq<char>>) -> Option<Seq<u8>> {
    if !ok {
        None
    } else {
        match group_secret {
            Some(t) => match parse_dgid(t) {
                Some(s) => if identity::ed25519_public(s) == invited {
                    Some(s)
                } else {
                    None
                },
                None => None,
            },
            None => None,
        }
    }
}

/// What a device makes of the admitter's answer to its join of the group
/// `invited`: a refusal is passed on; a success must hand over the secret
/// key of the invited group. Once it does, the group and every member the
/// admitter listed are trusted as mesh, and the group's identity comes back.
pub fn accept_join_reply(
    invited: Dgid,
    ok: bool,
    error: Option<String>,
    group_secret: Option<String>,
    members: &Vec<Dgid>,
    trust: &mut crate::trust::Trust,
) -> (r: Result<identity::Identity, String>)
    ensures
        !ok ==> (r matches Err(e) && e@ == match error {
            Some(t) => t@,
            None => "the admitter refused"@,
        }),
        r is Ok <==> joined_secret(invited@, ok, crate::record::text_opt(group_secret)) is Some,
        r is Err ==> *final(trust) == *old(trust),
        r matches Ok(id) ==> {
            &&& joined_secret(invited@, ok, crate::record::text_opt(group_secret)) == Some(id.secret())
            &&& final(trust).own_group() == old(trust).own_group()
            &&& final(trust).stored(invited@) == Some(crate::trust::TrustLevel::Mesh)
            &&& forall|i: int| 0 <= i < members@.len() ==> #[trigger] final(trust).stored(members@[i]@) == Some(
                crate::trust::TrustLevel::Mesh,
            )
            &&& forall|k: Seq<u8>|
                k != invited@ && (forall|i: int| 0 <= i < members@.len() ==> members@[i]@ != k)
                    ==> #[trigger] final(trust).stored(k) == old(trust).stored(k)
        },
{
    if !ok {
        return Err(match error {
            Some(t) => t,
            None => owned("the admitter refused"),
        });
    }
    let secret = match &group_secret {
        Some(t) => match Dgid::parse(t.as_str()) {
            Some(d) => *d.as_bytes(),
            None => return Err(owned("the admitter sent no usable group secret")),
        },
        None => return Err(owned("the admitter sent no usable group secret")),
    };
    let group = identity::Identity::from_secret(secret);
    if !(group.dgid() == invited) {
        return Err(owned("the group secret does not match the invited dgid"));
    }
    let ghost before = *trust;
    trust.set(invited, crate::trust::TrustLevel::Mesh);
    let mut i: usize = 0;
    while i < members.len()
        invariant
            i <= members.len(),
            trust.own_group() == before.own_group(),
            trust.stored(invited@) == Some(crate::trust::TrustLevel::Mesh),
            forall|j: int| 0 <= j < i ==> #[trigger] trust.stored(members@[j]@) == Some(crate::trust::TrustLevel::Mesh),
            forall|k: Seq<u8>|
                k != invited@ && (forall|j: int| 0 <= j < i ==> members@[j]@ != k) ==> #[trigger] trust.stored(k)
                    == before.stored(k),
        decreases members.len() - i,
    {
        trust.set(members[i], crate::trust::TrustLevel::Mesh);
        i = i + 1;
    }
    Ok(group)
}

} // verus!
