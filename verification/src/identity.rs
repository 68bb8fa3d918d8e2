//! Group identities (DGIDs), signatures, and the signing identity of a store.
use vstd::prelude::*;
use crate::hex::{self, hex_of, parse_hex};
use crate::text::{self, string_of, trimmed, starts_with, lemma_trimmed_plain, lemma_trimmed_padded, is_space};
use crate::hex::{is_hex_digit, lemma_parse_hex_of};
use ed25519_dalek::{Signer, Verifier};

verus! {

/// `std::io::Error`, carried through unchanged.
#[verifier::external_type_specification]
#[verifier::external_body]
pub struct ExIoError(std::io::Error);

/// The public key that `ed25519_dalek` derives from a 32-byte secret.
pub uninterp spec fn ed25519_public(secret: Seq<u8>) -> Seq<u8>;

/// The signature that `ed25519_dalek` makes over a message with a 32-byte secret.
pub uninterp spec fn ed25519_signature(secret: Seq<u8>, message: Seq<u8>) -> Seq<u8>;

/// Whether `ed25519_dalek` accepts a signature over a message under a public key.
pub uninterp spec fn ed25519_accepts(public: Seq<u8>, message: Seq<u8>, signature: Seq<u8>) -> bool;

/// `SigningKey::from_bytes(secret).verifying_key().to_bytes()`: the public key of a secret.
#[verifier::external_body]
fn public_key(secret: &[u8; 32]) -> (p: [u8; 32])
    ensures
        p@ == ed25519_public(secret@),
{
    ed25519_dalek::SigningKey::from_bytes(secret).verifying_key().to_bytes()
}

/// `Signer::sign` of `SigningKey::from_bytes(secret)`: a signature over `message`.
/// The crate documents that a signature it makes verifies under the signer's public key.
#[verifier::external_body]
fn sign_message(secret: &[u8; 32], message: &[u8]) -> (s: [u8; 64])
    ensures
        s@ == ed25519_signature(secret@, message@),
        ed25519_accepts(ed25519_public(secret@), message@, s@),
{
    ed25519_dalek::SigningKey::from_bytes(secret).sign(message).to_bytes()
}

/// `Verifier::verify` of `VerifyingKey::from_bytes(public)`: false where the bytes are no valid key.
#[verifier::external_body]
fn verify_message(public: &[u8; 32], message: &[u8], signature: &[u8; 64]) -> (ok: bool)
    ensures
        ok == ed25519_accepts(public@, message@, signature@),
{
    match ed25519_dalek::VerifyingKey::from_bytes(public) {
        Ok(key) => key.verify(message, &ed25519_dalek::Signature::from_bytes(signature)).is_ok(),
        Err(_) => false,
    }
}

/// `getrandom::fill`: 32 bytes from the system's random source.
#[verifier::external_body]
pub(crate) fn random_secret() -> (r: Result<[u8; 32], std::io::Error>) {
    let mut secret = [0u8; 32];
    match getrandom::fill(&mut secret) {
        Ok(()) => Ok(secret),
        Err(e) => Err(std::io::Error::other(e.to_string())),
    }
}

pub open spec fn dgid_prefix() -> Seq<char> {
    seq!['d', 'g', 'i', 'd', ':']
}

/// The 32 bytes spelled by `text`: trimmed, an optional `dgid:` prefix dropped, then 64 hex characters.
pub open spec fn parse_dgid(text: Seq<char>) -> Option<Seq<u8>> {
    let t = trimmed(text);
    let h = if starts_with(t, dgid_prefix()) {
        t.skip(5)
    } else {
        t
    };
    parse_hex(h, 32)
}

/// A group identity: the public key of a group's Ed25519 keypair.
#[derive(Debug, Clone, Copy, Eq, PartialOrd, Ord, Hash)]
pub struct Dgid {
    bytes: [u8; 32],
}

impl View for Dgid {
    type V = Seq<u8>;

    closed spec fn view(&self) -> Seq<u8> {
        self.bytes@
    }
}

impl PartialEq for Dgid {
    fn eq(&self, other: &Self) -> (r: bool) {
        crate::store::same_bytes(&self.bytes, &other.bytes)
    }
}

impl vstd::std_specs::cmp::PartialEqSpecImpl for Dgid {
    open spec fn obeys_eq_spec() -> bool {
        true
    }

    open spec fn eq_spec(&self, other: &Self) -> bool {
        self@ == other@
    }
}

impl PartialEq for Signature {
    fn eq(&self, other: &Self) -> (r: bool) {
        crate::store::same_bytes(&self.bytes, &other.bytes)
    }
}

impl vstd::std_specs::cmp::PartialEqSpecImpl for Signature {
    open spec fn obeys_eq_spec() -> bool {
        true
    }

    open spec fn eq_spec(&self, other: &Self) -> bool {
        self@ == other@
    }
}

/// A dgid is 32 bytes long.
pub proof fn lemma_sig_len(s: Signature)
    ensures
        s@.len() == 64,
{
}

pub proof fn lemma_dgid_len(d: Dgid)
    ensures
        d@.len() == 32,
{
}

/// Dgids with the same bytes are the same.
pub proof fn lemma_dgid_eq(a: Dgid, b: Dgid)
    requires
        a@ == b@,
    ensures
        a == b,
{
    assert(a.bytes =~= b.bytes);
}

impl Dgid {
    pub fn prefix() -> (p: Vec<char>)
        ensures
            p@ == dgid_prefix(),
    {
        let v = vec!['d', 'g', 'i', 'd', ':'];
        assert(v@ =~= dgid_prefix());
        v
    }

    pub fn from_bytes(bytes: [u8; 32]) -> (d: Self)
        ensures
            d@ == bytes@,
    {
        Dgid { bytes }
    }

    pub fn as_bytes(&self) -> (b: &[u8; 32])
        ensures
            b@ == self@,
    {
        &self.bytes
    }

    pub fn parse(text: &str) -> (r: Option<Self>)
        ensures
            match r {
                Some(d) => parse_dgid(text@) == Some(d@),
                None => parse_dgid(text@) is None,
            },
    {
        let t = text::trim_str(text);
        let p = Self::prefix();
        let h = if text::has_prefix(&t, &p) {
            text::tail(&t, 5)
        } else {
            t
        };
        match hex::decode(&h, 32) {
            None => None,
            Some(v) => Some(Dgid { bytes: bytes_32(&v) }),
        }
    }

    /// The first four bytes in hex.
    pub fn short(&self) -> (s: String)
        ensures
            s@ == hex_of(self@.take(4)),
    {
        let v = hex::encode(&self.bytes);
        let short = text::slice(&v, 0, 8);
        assert(short@ =~= hex_of(self@.take(4)));
        string_of(&short)
    }

    /// `dgid:` and 64 hex characters.
    pub fn to_string(&self) -> (s: String)
        ensures
            s@ == dgid_prefix() + hex_of(self@),
    {
        let mut v = Self::prefix();
        let h = hex::encode(&self.bytes);
        text::append(&mut v, &h);
        string_of(&v)
    }
}

/// The 32 bytes of `v`.
pub fn bytes_32(v: &Vec<u8>) -> (a: [u8; 32])
    requires
        v.len() == 32,
    ensures
        a@ == v@,
{
    let mut a = [0u8; 32];
    let mut i: usize = 0;
    while i < 32
        invariant
            v.len() == 32,
            i <= 32,
            forall|j: int| 0 <= j < i ==> a@[j] == v@[j],
        decreases 32 - i,
    {
        a[i] = v[i];
        i = i + 1;
    }
    assert(a@ =~= v@);
    a
}

/// The 64 bytes of `v`.
pub fn bytes_64(v: &Vec<u8>) -> (a: [u8; 64])
    requires
        v.len() == 64,
    ensures
        a@ == v@,
{
    let mut a = [0u8; 64];
    let mut i: usize = 0;
    while i < 64
        invariant
            v.len() == 64,
            i <= 64,
            forall|j: int| 0 <= j < i ==> a@[j] == v@[j],
        decreases 64 - i,
    {
        a[i] = v[i];
        i = i + 1;
    }
    assert(a@ =~= v@);
    a
}

/// An Ed25519 signature.
#[derive(Debug, Clone, Copy, Eq)]
pub struct Signature {
    bytes: [u8; 64],
}

impl View for Signature {
    type V = Seq<u8>;

    closed spec fn view(&self) -> Seq<u8> {
        self.bytes@
    }
}

impl Signature {
    pub fn from_bytes(bytes: [u8; 64]) -> (s: Self)
        ensures
            s@ == bytes@,
    {
        Signature { bytes }
    }

    pub fn as_bytes(&self) -> (b: &[u8; 64])
        ensures
            b@ == self@,
    {
        &self.bytes
    }

    /// The signature spelled by `text`: 128 hex characters once trimmed.
    pub fn parse(text: &str) -> (r: Option<Self>)
        ensures
            match r {
                Some(s) => parse_hex(trimmed(text@), 64) == Some(s@),
                None => parse_hex(trimmed(text@), 64) is None,
            },
    {
        match hex::decode_trimmed(text, 64) {
            None => None,
            Some(v) => Some(Signature { bytes: bytes_64(&v) }),
        }
    }

    /// 128 lower-case hex characters.
    pub fn to_string(&self) -> (s: String)
        ensures
            s@ == hex_of(self@),
    {
        let v = hex::encode(&self.bytes);
        string_of(&v)
    }
}

/// The signing identity of a group or a device: an Ed25519 secret key.
pub struct Identity {
    secret: [u8; 32],
}

impl Identity {
    /// The secret bytes.
    pub closed spec fn secret(&self) -> Seq<u8> {
        self.secret@
    }

    pub fn from_secret(bytes: [u8; 32]) -> (i: Self)
        ensures
            i.secret() == bytes@,
    {
        Identity { secret: bytes }
    }

    /// A fresh identity from the system's random source.
    pub fn generate() -> (r: Result<Self, std::io::Error>) {
        let secret = random_secret()?;
        Ok(Identity::from_secret(secret))
    }

    pub fn secret_bytes(&self) -> (b: [u8; 32])
        ensures
            b@ == self.secret(),
    {
        self.secret
    }

    /// The group identity: the public key of the secret.
    pub fn dgid(&self) -> (d: Dgid)
        ensures
            d@ == ed25519_public(self.secret()),
    {
        Dgid { bytes: public_key(&self.secret) }
    }

    pub fn sign(&self, message: &[u8]) -> (s: Signature)
        ensures
            s@ == ed25519_signature(self.secret(), message@),
            ed25519_accepts(ed25519_public(self.secret()), message@, s@),
    {
        Signature { bytes: sign_message(&self.secret, message) }
    }
}

/// Whether `signature` is a signature over `message` by the group `dgid`.
pub fn verify(dgid: Dgid, message: &[u8], signature: Signature) -> (ok: bool)
    ensures
        ok == ed25519_accepts(dgid@, message@, signature@),
{
    verify_message(&dgid.bytes, message, &signature.bytes)
}

/// A group's signature over a node id, vouching that the node is one of its devices.
pub fn vouch(group: &Identity, node_id: &[u8; 32]) -> (s: Signature)
    ensures
        s@ == ed25519_signature(group.secret(), node_id@),
        ed25519_accepts(ed25519_public(group.secret()), node_id@, s@),
{
    group.sign(node_id)
}

/// Whether `signature` is the group `dgid` vouching for `node_id`.
pub fn vouched(dgid: Dgid, node_id: &[u8; 32], signature: Signature) -> (ok: bool)
    ensures
        ok == ed25519_accepts(dgid@, node_id@, signature@),
{
    verify(dgid, node_id, signature)
}

/// A signature printed and read back, with or without white space around
/// it, is the same signature; a text whose trimmed form is not 128
/// characters long is no signature.
pub proof fn law_signature_text_round_trip(s: Signature, before: Seq<char>, after: Seq<char>, text: Seq<char>)
    requires
        forall|i: int| 0 <= i < before.len() ==> is_space(#[trigger] before[i]),
        forall|i: int| 0 <= i < after.len() ==> is_space(#[trigger] after[i]),
    ensures
        parse_hex(trimmed(hex_of(s@)), 64) == Some(s@),
        parse_hex(trimmed(before + hex_of(s@) + after), 64) == Some(s@),
        trimmed(text).len() != 128 ==> parse_hex(trimmed(text), 64) is None,
{
    let h = hex_of(s@);
    assert(s@.len() == 64);
    crate::address::lemma_hex_chars(s@);
    assert(is_hex_digit(h[0]));
    assert(is_hex_digit(h[127]));
    assert(h.last() == h[127]);
    lemma_trimmed_plain(h);
    lemma_trimmed_padded(before, h, after);
    lemma_parse_hex_of(s@);
}

/// A dgid's text form reads back as the dgid.
pub proof fn lemma_dgid_round_trip(d: Seq<u8>)
    requires
        d.len() == 32,
    ensures
        parse_dgid(dgid_prefix() + hex_of(d)) == Some(d),
{
    let h = hex_of(d);
    let t = dgid_prefix() + h;
    crate::address::lemma_hex_chars(d);
    assert(is_hex_digit(h[63]));
    assert(t.last() == h[63]);
    lemma_trimmed_plain(t);
    assert(t.take(5) =~= dgid_prefix());
    assert(t.skip(5) =~= h);
    lemma_parse_hex_of(d);
}

} // verus!

verus! {

/// The file that holds a store's group key: `identity/key` under `dir`.
pub fn key_path(dir: &str) -> (p: String)
    ensures
        p@ == crate::path::join_spec(crate::path::join_spec(dir@, "identity"@), "key"@),
{
    let d = crate::path::join(dir, "identity");
    crate::path::join(d.as_str(), "key")
}

/// The file that holds a store's device key: `identity/node` under `dir`.
pub fn device_key_path(dir: &str) -> (p: String)
    ensures
        p@ == crate::path::join_spec(crate::path::join_spec(dir@, "identity"@), "node"@),
{
    let d = crate::path::join(dir, "identity");
    crate::path::join(d.as_str(), "node")
}

/// The secret key that a key file holds: 64 hex characters once trimmed.
pub fn parse_secret(text: &str) -> (r: Option<Identity>)
    ensures
        match r {
            Some(i) => parse_hex(trimmed(text@), 32) == Some(i.secret()),
            None => parse_hex(trimmed(text@), 32) is None,
        },
{
    match hex::decode_trimmed(text, 32) {
        Some(v) => Some(Identity::from_secret(bytes_32(&v))),
        None => None,
    }
}

/// The text a key file holds: the secret in hex and a newline.
pub fn secret_text(identity: &Identity) -> (s: String)
    ensures
        s@ == hex_of(identity.secret()) + seq!['\n'],
{
    let mut v = hex::encode(&identity.secret_bytes());
    v.push('\n');
    string_of(&v)
}

} // verus!
