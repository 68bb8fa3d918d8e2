//! Typed addresses: a blob hash behind a prefix naming what it addresses.
use vstd::prelude::*;
use crate::hex::{self, hex_of, parse_hex};
use crate::store::BlobHash;
use crate::text::{self, chars_of, string_of, trimmed, starts_with, is_space, lemma_trimmed_plain};
use crate::hex::{is_hex_digit, digit, lemma_parse_hex_of};

verus! {

/// The hash spelled by `text` behind `prefix`: the text is trimmed, must start
/// with the prefix, and what follows is trimmed again and read as 64 hex characters.
pub open spec fn parse_prefixed(text: Seq<char>, prefix: Seq<char>) -> Option<Seq<u8>> {
    let t = trimmed(text);
    if starts_with(t, prefix) {
        parse_hex(trimmed(t.skip(prefix.len() as int)), 32)
    } else {
        None
    }
}

/// The text form of a hash behind `prefix`.
pub open spec fn prefixed_text(prefix: Seq<char>, hash: Seq<u8>) -> Seq<char> {
    prefix + hex_of(hash)
}

pub fn read_prefixed(text: &str, prefix: &Vec<char>) -> (r: Option<BlobHash>)
    ensures
        match r {
            Some(h) => parse_prefixed(text@, prefix@) == Some(h@),
            None => parse_prefixed(text@, prefix@) is None,
        },
{
    let t = text::trim_str(text);
    if !text::has_prefix(&t, prefix) {
        return None;
    }
    let rest = text::tail(&t, prefix.len());
    let inner = text::trim_chars(&rest);
    match hex::decode(&inner, 32) {
        None => None,
        Some(v) => Some(BlobHash::from_vec(&v)),
    }
}

pub fn write_prefixed(prefix: &Vec<char>, hash: &BlobHash) -> (s: String)
    ensures
        s@ == prefixed_text(prefix@, hash@),
{
    let mut v = text::copy_chars(prefix);
    let h = hex::encode(hash.as_bytes());
    text::append(&mut v, &h);
    string_of(&v)
}

pub open spec fn ci_prefix() -> Seq<char> {
    seq!['c', 'i', ':']
}

pub open spec fn td_prefix() -> Seq<char> {
    seq!['t', 'd', ':']
}

pub open spec fn att_prefix() -> Seq<char> {
    seq!['a', 't', 't', ':']
}

pub open spec fn col_prefix() -> Seq<char> {
    seq!['c', 'o', 'l', ':']
}

pub open spec fn blob_prefix() -> Seq<char> {
    seq!['b', 'l', 'o', 'b', ':']
}

/// The address of a Content Identity Record.
#[derive(Debug, Clone, Copy, PartialEq, Eq, PartialOrd, Ord, Hash)]
pub struct CiHash(pub BlobHash);

/// The address of a Transform Definition Record.
#[derive(Debug, Clone, Copy, PartialEq, Eq, PartialOrd, Ord, Hash)]
pub struct TdHash(pub BlobHash);

/// The address of an attestation.
#[derive(Debug, Clone, Copy, PartialEq, Eq, PartialOrd, Ord, Hash)]
pub struct AttHash(pub BlobHash);

/// The address of a collection head.
#[derive(Debug, Clone, Copy, PartialEq, Eq, PartialOrd, Ord, Hash)]
pub struct ColHash(pub BlobHash);

/// The address of an output blob.
#[derive(Debug, Clone, Copy, PartialEq, Eq, PartialOrd, Ord, Hash)]
pub struct BlobRef(pub BlobHash);

/// A text that is not an address of the expected kind.
#[derive(Debug, Clone, PartialEq, Eq)]
pub struct AddressError {
    pub expected: String,
    pub found: String,
}

impl CiHash {
    pub fn prefix() -> (p: Vec<char>)
        ensures
            p@ == ci_prefix(),
    {
        let v = vec!['c', 'i', ':'];
        assert(v@ =~= ci_prefix());
        v
    }

    pub fn from_hash(hash: BlobHash) -> (a: Self)
        ensures
            a.0 == hash,
    {
        CiHash(hash)
    }

    pub fn hash(&self) -> (h: BlobHash)
        ensures
            h == self.0,
    {
        self.0
    }

    pub fn parse(text: &str) -> (r: Option<Self>)
        ensures
            match r {
                Some(a) => parse_prefixed(text@, ci_prefix()) == Some(a.0@),
                None => parse_prefixed(text@, ci_prefix()) is None,
            },
    {
        match read_prefixed(text, &Self::prefix()) {
            Some(h) => Some(CiHash(h)),
            None => None,
        }
    }

    /// The address as text: `ci:` and 64 hex characters.
    pub fn to_string(&self) -> (s: String)
        ensures
            s@ == prefixed_text(ci_prefix(), self.0@),
    {
        write_prefixed(&Self::prefix(), &self.0)
    }

    pub fn from_text(text: &str) -> (r: Result<Self, AddressError>)
        ensures
            match r {
                Ok(a) => parse_prefixed(text@, ci_prefix()) == Some(a.0@),
                Err(e) => parse_prefixed(text@, ci_prefix()) is None && e.found@ == text@,
            },
    {
        match Self::parse(text) {
            Some(a) => Ok(a),
            None => Err(AddressError { expected: string_of(&Self::prefix()), found: text::owned(text) }),
        }
    }
}

impl TdHash {
    pub fn prefix() -> (p: Vec<char>)
        ensures
            p@ == td_prefix(),
    {
        let v = vec!['t', 'd', ':'];
        assert(v@ =~= td_prefix());
        v
    }

    pub fn from_hash(hash: BlobHash) -> (a: Self)
        ensures
            a.0 == hash,
    {
        TdHash(hash)
    }

    pub fn hash(&self) -> (h: BlobHash)
        ensures
            h == self.0,
    {
        self.0
    }

    pub fn parse(text: &str) -> (r: Option<Self>)
        ensures
            match r {
                Some(a) => parse_prefixed(text@, td_prefix()) == Some(a.0@),
                None => parse_prefixed(text@, td_prefix()) is None,
            },
    {
        match read_prefixed(text, &Self::prefix()) {
            Some(h) => Some(TdHash(h)),
            None => None,
        }
    }

    /// The address as text: `td:` and 64 hex characters.
    pub fn to_string(&self) -> (s: String)
        ensures
            s@ == prefixed_text(td_prefix(), self.0@),
    {
        write_prefixed(&Self::prefix(), &self.0)
    }

    pub fn from_text(text: &str) -> (r: Result<Self, AddressError>)
        ensures
            match r {
                Ok(a) => parse_prefixed(text@, td_prefix()) == Some(a.0@),
                Err(e) => parse_prefixed(text@, td_prefix()) is None && e.found@ == text@,
            },
    {
        match Self::parse(text) {
            Some(a) => Ok(a),
            None => Err(AddressError { expected: string_of(&Self::prefix()), found: text::owned(text) }),
        }
    }
}

impl AttHash {
    pub fn prefix() -> (p: Vec<char>)
        ensures
            p@ == att_prefix(),
    {
        let v = vec!['a', 't', 't', ':'];
        assert(v@ =~= att_prefix());
        v
    }

    pub fn from_hash(hash: BlobHash) -> (a: Self)
        ensures
            a.0 == hash,
    {
        AttHash(hash)
    }

    pub fn hash(&self) -> (h: BlobHash)
        ensures
            h == self.0,
    {
        self.0
    }

    pub fn parse(text: &str) -> (r: Option<Self>)
        ensures
            match r {
                Some(a) => parse_prefixed(text@, att_prefix()) == Some(a.0@),
                None => parse_prefixed(text@, att_prefix()) is None,
            },
    {
        match read_prefixed(text, &Self::prefix()) {
            Some(h) => Some(AttHash(h)),
            None => None,
        }
    }

    /// The address as text: `att:` and 64 hex characters.
    pub fn to_string(&self) -> (s: String)
        ensures
            s@ == prefixed_text(att_prefix(), self.0@),
    {
        write_prefixed(&Self::prefix(), &self.0)
    }

    pub fn from_text(text: &str) -> (r: Result<Self, AddressError>)
        ensures
            match r {
                Ok(a) => parse_prefixed(text@, att_prefix()) == Some(a.0@),
                Err(e) => parse_prefixed(text@, att_prefix()) is None && e.found@ == text@,
            },
    {
        match Self::parse(text) {
            Some(a) => Ok(a),
            None => Err(AddressError { expected: string_of(&Self::prefix()), found: text::owned(text) }),
        }
    }
}

impl ColHash {
    pub fn prefix() -> (p: Vec<char>)
        ensures
            p@ == col_prefix(),
    {
        let v = vec!['c', 'o', 'l', ':'];
        assert(v@ =~= col_prefix());
        v
    }

    pub fn from_hash(hash: BlobHash) -> (a: Self)
        ensures
            a.0 == hash,
    {
        ColHash(hash)
    }

    pub fn hash(&self) -> (h: BlobHash)
        ensures
            h == self.0,
    {
        self.0
    }

    pub fn parse(text: &str) -> (r: Option<Self>)
        ensures
            match r {
                Some(a) => parse_prefixed(text@, col_prefix()) == Some(a.0@),
                None => parse_prefixed(text@, col_prefix()) is None,
            },
    {
        match read_prefixed(text, &Self::prefix()) {
            Some(h) => Some(ColHash(h)),
            None => None,
        }
    }

    /// The address as text: `col:` and 64 hex characters.
    pub fn to_string(&self) -> (s: String)
        ensures
            s@ == prefixed_text(col_prefix(), self.0@),
    {
        write_prefixed(&Self::prefix(), &self.0)
    }

    pub fn from_text(text: &str) -> (r: Result<Self, AddressError>)
        ensures
            match r {
                Ok(a) => parse_prefixed(text@, col_prefix()) == Some(a.0@),
                Err(e) => parse_prefixed(text@, col_prefix()) is None && e.found@ == text@,
            },
    {
        match Self::parse(text) {
            Some(a) => Ok(a),
            None => Err(AddressError { expected: string_of(&Self::prefix()), found: text::owned(text) }),
        }
    }
}

impl BlobRef {
    pub fn prefix() -> (p: Vec<char>)
        ensures
            p@ == blob_prefix(),
    {
        let v = vec!['b', 'l', 'o', 'b', ':'];
        assert(v@ =~= blob_prefix());
        v
    }

    pub fn from_hash(hash: BlobHash) -> (a: Self)
        ensures
            a.0 == hash,
    {
        BlobRef(hash)
    }

    pub fn hash(&self) -> (h: BlobHash)
        ensures
            h == self.0,
    {
        self.0
    }

    pub fn parse(text: &str) -> (r: Option<Self>)
        ensures
            match r {
                Some(a) => parse_prefixed(text@, blob_prefix()) == Some(a.0@),
                None => parse_prefixed(text@, blob_prefix()) is None,
            },
    {
        match read_prefixed(text, &Self::prefix()) {
            Some(h) => Some(BlobRef(h)),
            None => None,
        }
    }

    /// The address as text: `blob:` and 64 hex characters.
    pub fn to_string(&self) -> (s: String)
        ensures
            s@ == prefixed_text(blob_prefix(), self.0@),
    {
        write_prefixed(&Self::prefix(), &self.0)
    }

    pub fn from_text(text: &str) -> (r: Result<Self, AddressError>)
        ensures
            match r {
                Ok(a) => parse_prefixed(text@, blob_prefix()) == Some(a.0@),
                Err(e) => parse_prefixed(text@, blob_prefix()) is None && e.found@ == text@,
            },
    {
        match Self::parse(text) {
            Some(a) => Ok(a),
            None => Err(AddressError { expected: string_of(&Self::prefix()), found: text::owned(text) }),
        }
    }
}


pub proof fn lemma_hex_chars(hash: Seq<u8>)
    ensures
        forall|i: int| 0 <= i < hex_of(hash).len() ==> is_hex_digit(#[trigger] hex_of(hash)[i]),
{
    assert forall|i: int| 0 <= i < hex_of(hash).len() implies is_hex_digit(#[trigger] hex_of(hash)[i]) by {
        let b = hash[i / 2];
        assert(b / 16 < 16);
        assert(b % 16 < 16);
    }
}

/// An address written by `prefixed_text` reads back as the hash it was written from.
pub proof fn lemma_prefixed_round_trip(prefix: Seq<char>, hash: Seq<u8>)
    requires
        hash.len() == 32,
        prefix.len() > 0,
        !is_space(prefix[0]),
    ensures
        parse_prefixed(prefixed_text(prefix, hash), prefix) == Some(hash),
{
    let h = hex_of(hash);
    let t = prefix + h;
    lemma_hex_chars(hash);
    assert(is_hex_digit(h[63]));
    assert(t.last() == h[63]);
    lemma_trimmed_plain(t);
    assert(t.take(prefix.len() as int) =~= prefix);
    assert(t.skip(prefix.len() as int) =~= h);
    assert(is_hex_digit(h[0]));
    lemma_trimmed_plain(h);
    lemma_parse_hex_of(hash);
}

/// Text written behind one prefix never reads as an address behind another that
/// differs from it at a position both share.
pub proof fn lemma_prefixes_do_not_cross(p: Seq<char>, q: Seq<char>, hash: Seq<u8>, k: int)
    requires
        hash.len() == 32,
        p.len() > 0,
        !is_space(p[0]),
        0 <= k < p.len(),
        k < q.len(),
        p[k] != q[k],
    ensures
        parse_prefixed(prefixed_text(p, hash), q) is None,
{
    let t = p + hex_of(hash);
    lemma_hex_chars(hash);
    assert(is_hex_digit(hex_of(hash)[63]));
    assert(t.last() == hex_of(hash)[63]);
    lemma_trimmed_plain(t);
    if starts_with(t, q) {
        assert(t.take(q.len() as int)[k] == t[k]);
    }
}

/// A bare hash in hex is no address: every prefix has a character at a
/// position where hex text can only hold a hex digit, and that character is not one.
pub proof fn lemma_bare_hash_is_no_address(text: Seq<char>, prefix: Seq<char>, k: int)
    requires
        forall|i: int| 0 <= i < text.len() ==> is_hex_digit(#[trigger] text[i]),
        0 <= k < prefix.len(),
        !is_hex_digit(prefix[k]),
        !is_space(prefix[0]),
    ensures
        parse_prefixed(text, prefix) is None,
{
    let t = trimmed(text);
    if starts_with(t, prefix) {
        let a = text::lemma_trimmed_sub(text);
        assert(t.take(prefix.len() as int)[k] == t[k]);
        assert(t[k] == text[a + k]);
    }
}

/// Each kind of address reads back from its own text form.
pub proof fn lemma_addresses_round_trip(hash: Seq<u8>)
    requires
        hash.len() == 32,
    ensures
        parse_prefixed(prefixed_text(ci_prefix(), hash), ci_prefix()) == Some(hash),
        parse_prefixed(prefixed_text(td_prefix(), hash), td_prefix()) == Some(hash),
        parse_prefixed(prefixed_text(att_prefix(), hash), att_prefix()) == Some(hash),
        parse_prefixed(prefixed_text(col_prefix(), hash), col_prefix()) == Some(hash),
        parse_prefixed(prefixed_text(blob_prefix(), hash), blob_prefix()) == Some(hash),
{
    lemma_prefixed_round_trip(ci_prefix(), hash);
    lemma_prefixed_round_trip(td_prefix(), hash);
    lemma_prefixed_round_trip(att_prefix(), hash);
    lemma_prefixed_round_trip(col_prefix(), hash);
    lemma_prefixed_round_trip(blob_prefix(), hash);
}

/// The text form of one kind of address never reads as another kind.
pub proof fn lemma_addresses_do_not_cross(hash: Seq<u8>)
    requires
        hash.len() == 32,
    ensures
        parse_prefixed(prefixed_text(td_prefix(), hash), ci_prefix()) is None,
        parse_prefixed(prefixed_text(td_prefix(), hash), blob_prefix()) is None,
        parse_prefixed(prefixed_text(ci_prefix(), hash), td_prefix()) is None,
        parse_prefixed(prefixed_text(ci_prefix(), hash), col_prefix()) is None,
        parse_prefixed(prefixed_text(col_prefix(), hash), ci_prefix()) is None,
        parse_prefixed(prefixed_text(att_prefix(), hash), ci_prefix()) is None,
        parse_prefixed(prefixed_text(blob_prefix(), hash), ci_prefix()) is None,
{
    lemma_prefixes_do_not_cross(td_prefix(), ci_prefix(), hash, 0);
    lemma_prefixes_do_not_cross(td_prefix(), blob_prefix(), hash, 0);
    lemma_prefixes_do_not_cross(ci_prefix(), td_prefix(), hash, 0);
    lemma_prefixes_do_not_cross(ci_prefix(), col_prefix(), hash, 1);
    lemma_prefixes_do_not_cross(col_prefix(), ci_prefix(), hash, 1);
    lemma_prefixes_do_not_cross(att_prefix(), ci_prefix(), hash, 0);
    lemma_prefixes_do_not_cross(blob_prefix(), ci_prefix(), hash, 0);
}

/// A bare hash in hex reads as no kind of address.
pub proof fn lemma_bare_hash_reads_as_no_address(hash: Seq<u8>)
    ensures
        parse_prefixed(hex_of(hash), ci_prefix()) is None,
        parse_prefixed(hex_of(hash), td_prefix()) is None,
        parse_prefixed(hex_of(hash), att_prefix()) is None,
        parse_prefixed(hex_of(hash), col_prefix()) is None,
        parse_prefixed(hex_of(hash), blob_prefix()) is None,
{
    lemma_hex_chars(hash);
    lemma_bare_hash_is_no_address(hex_of(hash), ci_prefix(), 1);
    lemma_bare_hash_is_no_address(hex_of(hash), td_prefix(), 0);
    lemma_bare_hash_is_no_address(hex_of(hash), att_prefix(), 1);
    lemma_bare_hash_is_no_address(hex_of(hash), col_prefix(), 1);
    lemma_bare_hash_is_no_address(hex_of(hash), blob_prefix(), 1);
}

/// A bare hash in hex reads back as the hash, once trimmed.
pub proof fn lemma_bare_round_trip(hash: Seq<u8>)
    requires
        hash.len() == 32,
    ensures
        parse_prefixed(prefixed_text(Seq::empty(), hash), Seq::empty()) == Some(hash),
        parse_hex(trimmed(hex_of(hash)), 32) == Some(hash),
{
    let h = hex_of(hash);
    lemma_hex_chars(hash);
    assert(is_hex_digit(h[0]));
    assert(is_hex_digit(h[63]));
    lemma_trimmed_plain(h);
    assert(Seq::<char>::empty() + h =~= h);
    assert(h.skip(0) =~= h);
    assert(h.take(0) =~= Seq::<char>::empty());
    assert(starts_with(h, Seq::empty()));
    lemma_parse_hex_of(hash);
}

/// Any hex rendering reads back as its bytes once trimmed.
pub proof fn lemma_hex_trim_round_trip(bytes: Seq<u8>)
    requires
        bytes.len() > 0,
    ensures
        parse_hex(trimmed(hex_of(bytes)), bytes.len()) == Some(bytes),
{
    let h = hex_of(bytes);
    lemma_hex_chars(bytes);
    assert(is_hex_digit(h[0]));
    assert(is_hex_digit(h[h.len() - 1]));
    lemma_trimmed_plain(h);
    lemma_parse_hex_of(bytes);
}

} // verus!
