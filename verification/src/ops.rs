//! What the store's commands show: the rows and views they print, and the
//! small readings of hashes, records and gateway replies they rest on.
use vstd::prelude::*;
use crate::address::{ci_prefix, td_prefix, att_prefix, col_prefix, blob_prefix, prefixed_text};
use crate::cbor::{Value, Data, dec, data_pairs};
use crate::canonical::from_slice;
use crate::hex::{hex_of, parse_hex};
use crate::lex::{first_of, find_first, parse_decimal, parse_unsigned, words, split_words, first_run};
use crate::store::BlobHash;
use crate::fetch::blank_line;
use crate::lex::{find_bytes, lemma_first_run};
use crate::text::{self, chars_of, string_of, trimmed, starts_with, append};

verus! {

/// The identity of a store, as `identity` prints it.
#[derive(Debug, Clone, PartialEq, Eq)]
pub struct IdentityInfo {
    pub store: String,
    pub dgid: String,
    pub node_id: String,
    pub key_path: String,
    pub node_key_path: String,
}

/// A blob in the store, with its size and what it holds.
#[derive(Debug, Clone, PartialEq, Eq)]
pub struct BlobInfo {
    pub hash: String,
    pub size: u64,
    pub kind: String,
}

/// A ref and what it points at.
#[derive(Debug, Clone, PartialEq, Eq)]
pub struct RefInfo {
    pub name: String,
    pub hash: String,
    pub kind: String,
}

/// An attestation as the commands show it.
#[derive(Debug, Clone, PartialEq, Eq)]
pub struct AttestationView {
    pub hash: String,
    pub kind: String,
    pub ci: String,
    pub td: Option<String>,
    pub blob: Option<String>,
    pub other: Option<String>,
    pub expires: Option<String>,
    pub signer: Option<String>,
    pub level: String,
}

/// An item of a folded collection.
#[derive(Debug, Clone, PartialEq, Eq)]
pub struct ItemView {
    pub ci: String,
    pub kind: String,
    pub label: Option<String>,
    pub default_td: Option<String>,
}

/// One line of `collection list`.
#[derive(Debug, Clone, PartialEq, Eq)]
pub struct CollectionSummary {
    pub name: String,
    pub head: String,
    pub owner: String,
    pub items: usize,
    pub attestations: usize,
    pub closure: usize,
}

/// A collection as `collection show` prints it.
#[derive(Debug, Clone, PartialEq, Eq)]
pub struct CollectionView {
    pub name: String,
    pub head: String,
    pub owner: String,
    pub forked_from: Option<String>,
    pub items: Vec<ItemView>,
    pub attestations: Vec<AttestationView>,
    pub ops: usize,
    pub records: usize,
    pub closure: usize,
}

/// A signed op as `collection ops` prints it.
#[derive(Debug, Clone, PartialEq, Eq)]
pub struct OpView {
    pub seq: u64,
    pub hash: String,
    pub kind: String,
    pub target: String,
    pub counted: bool,
}

/// A content identity in the index.
#[derive(Debug, Clone, PartialEq, Eq)]
pub struct IdentityEntry {
    pub ci: String,
    pub kind: String,
    pub linked_from: Vec<String>,
    pub attestations: Vec<AttestationView>,
}

/// A collection and its owner.
#[derive(Debug, Clone, PartialEq, Eq)]
pub struct CollectionOwner {
    pub name: String,
    pub owner: String,
}

/// An external identifier that names a content identity.
#[derive(Debug, Clone, PartialEq, Eq)]
pub struct ExternalId {
    pub key: String,
    pub value: String,
    pub ci: String,
}

/// The local index as `index` prints it.
#[derive(Debug, Clone, PartialEq, Eq)]
pub struct IndexView {
    pub collections: Vec<CollectionOwner>,
    pub identities: Vec<IdentityEntry>,
    pub externals: Vec<ExternalId>,
}

/// A candidate artifact for a content identity.
#[derive(Debug, Clone, PartialEq, Eq)]
pub struct Artifact {
    pub blob: String,
    pub td: String,
    pub td_kind: String,
    pub variant: Option<String>,
    pub snapshot: Option<String>,
    pub signer: Option<String>,
    pub level: String,
    pub held: bool,
    pub expires: Option<String>,
    pub expired: bool,
    pub eligible: bool,
}

/// The resolver's pick.
#[derive(Debug, Clone, PartialEq, Eq)]
pub struct Pick {
    pub blob: String,
    pub signer: String,
    pub held: bool,
}

/// A member of the device group.
#[derive(Debug, Clone, PartialEq, Eq)]
pub struct MemberView {
    pub node_id: String,
    pub ci: String,
    pub role: Option<String>,
    pub tags: Vec<String>,
    pub expires: Option<String>,
    pub verified: bool,
    pub expired: bool,
    pub this_device: bool,
}

/// A trusted key and its level.
#[derive(Debug, Clone, PartialEq, Eq)]
pub struct TrustEntry {
    pub dgid: String,
    pub level: String,
}

/// Rust's debug rendering of a string: the text in double quotes, escaped.
pub uninterp spec fn debug_quoted(text: Seq<char>) -> Seq<char>;

/// `<str as Debug>::fmt` through `format!`: the text quoted and escaped.
#[verifier::external_body]
pub(crate) fn quoted(text: &str) -> (q: String)
    ensures
        q@ == debug_quoted(text@),
{
    format!("{text:?}")
}

/// The text with the first address prefix it starts with taken off.
pub open spec fn strip_address_prefix(t: Seq<char>) -> Seq<char> {
    if starts_with(t, ci_prefix()) {
        t.skip(3)
    } else if starts_with(t, td_prefix()) {
        t.skip(3)
    } else if starts_with(t, att_prefix()) {
        t.skip(4)
    } else if starts_with(t, col_prefix()) {
        t.skip(4)
    } else if starts_with(t, blob_prefix()) {
        t.skip(5)
    } else {
        t
    }
}

/// The hash a command argument names: trimmed, with or without an address
/// prefix, then 64 hex characters.
pub open spec fn parse_hash_spec(text: Seq<char>) -> Option<Seq<u8>> {
    parse_hex(trimmed(strip_address_prefix(trimmed(text))), 32)
}

pub open spec fn not_a_hash() -> Seq<char> {
    seq![' ', 'i', 's', ' ', 'n', 'o', 't', ' ', 'a', ' ', 'h', 'a', 's', 'h']
}

/// The hash `text` names; the error quotes the trimmed text.
pub fn parse_hash(text: &str) -> (r: Result<BlobHash, String>)
    ensures
        match r {
            Ok(h) => parse_hash_spec(text@) == Some(h@),
            Err(e) => parse_hash_spec(text@) is None && e@ == debug_quoted(trimmed(text@))
                + not_a_hash(),
        },
{
    let t = text::trim_str(text);
    let ci = crate::address::CiHash::prefix();
    let td = crate::address::TdHash::prefix();
    let att = crate::address::AttHash::prefix();
    let col = crate::address::ColHash::prefix();
    let blob = vec!['b', 'l', 'o', 'b', ':'];
    assert(blob@ =~= blob_prefix());
    let bare = if text::has_prefix(&t, &ci) {
        text::tail(&t, 3)
    } else if text::has_prefix(&t, &td) {
        text::tail(&t, 3)
    } else if text::has_prefix(&t, &att) {
        text::tail(&t, 4)
    } else if text::has_prefix(&t, &col) {
        text::tail(&t, 4)
    } else if text::has_prefix(&t, &blob) {
        text::tail(&t, 5)
    } else {
        text::copy_chars(&t)
    };
    assert(bare@ == strip_address_prefix(t@));
    let b = string_of(&bare);
    match BlobHash::parse(b.as_str()) {
        Some(h) => Ok(h),
        None => {
            let ts = string_of(&t);
            let q = quoted(ts.as_str());
            let mut v = chars_of(q.as_str());
            let tail = vec![' ', 'i', 's', ' ', 'n', 'o', 't', ' ', 'a', ' ', 'h', 'a', 's', 'h'];
            assert(tail@ =~= not_a_hash());
            append(&mut v, &tail);
            Err(string_of(&v))
        },
    }
}

/// The text up to the first space.
pub open spec fn first_word(t: Seq<char>) -> Seq<char> {
    match first_of(t, ' ') {
        Some(i) => t.take(i),
        None => t,
    }
}

/// The address prefix for a record described as `kind`.
pub open spec fn kind_prefix(kind: Seq<char>) -> Seq<char> {
    let w = first_word(kind);
    if w == seq!['c', 'i', 'r'] {
        ci_prefix()
    } else if w == seq!['t', 'd', 'r'] {
        td_prefix()
    } else if w == seq!['a', 't', 't', 'e', 's', 't', 'a', 't', 'i', 'o', 'n'] {
        att_prefix()
    } else if w == seq!['c', 'o', 'l', 'l', 'e', 'c', 't', 'i', 'o', 'n'] {
        col_prefix()
    } else {
        Seq::empty()
    }
}

/// The address of a record described as `kind` (as `describe` gives it):
/// the hash behind the prefix that names its record type, bare otherwise.
pub fn address_of(kind: &str, hash: BlobHash) -> (s: String)
    ensures
        s@ == prefixed_text(kind_prefix(kind@), hash@),
{
    let k = chars_of(kind);
    let word = match find_first(&k, ' ') {
        Some(i) => text::slice(&k, 0, i),
        None => text::copy_chars(&k),
    };
    assert(word@ == first_word(k@)) by {
        if let Some(i) = first_of(k@, ' ') {
            assert(word@ =~= k@.take(i));
        }
    }
    let cir = vec!['c', 'i', 'r'];
    let tdr = vec!['t', 'd', 'r'];
    let att = vec!['a', 't', 't', 'e', 's', 't', 'a', 't', 'i', 'o', 'n'];
    let col = vec!['c', 'o', 'l', 'l', 'e', 'c', 't', 'i', 'o', 'n'];
    assert(cir@ =~= seq!['c', 'i', 'r']);
    assert(tdr@ =~= seq!['t', 'd', 'r']);
    assert(att@ =~= seq!['a', 't', 't', 'e', 's', 't', 'a', 't', 'i', 'o', 'n']);
    assert(col@ =~= seq!['c', 'o', 'l', 'l', 'e', 'c', 't', 'i', 'o', 'n']);
    let prefix: Vec<char> = if text::same_chars(&word, &cir) {
        crate::address::CiHash::prefix()
    } else if text::same_chars(&word, &tdr) {
        crate::address::TdHash::prefix()
    } else if text::same_chars(&word, &att) {
        crate::address::AttHash::prefix()
    } else if text::same_chars(&word, &col) {
        crate::address::ColHash::prefix()
    } else {
        Vec::new()
    };
    assert(prefix@ =~= kind_prefix(kind@));
    crate::address::write_prefixed(&prefix, &hash)
}

/// The text value of the first entry keyed by the text `name` whose value is text.
pub open spec fn text_entry(entries: Seq<(Data, Data)>, name: Seq<char>) -> Option<Seq<char>>
    decreases entries.len(),
{
    if entries.len() == 0 {
        None
    } else {
        match entries[0] {
            (Data::Text(k), Data::Text(t)) => if k == name {
                Some(t)
            } else {
                text_entry(entries.drop_first(), name)
            },
            _ => text_entry(entries.drop_first(), name),
        }
    }
}

pub open spec fn record_word() -> Seq<char> {
    seq!['r', 'e', 'c', 'o', 'r', 'd']
}

pub open spec fn kind_word() -> Seq<char> {
    seq!['k', 'i', 'n', 'd']
}

pub open spec fn bytes_word() -> Seq<char> {
    seq!['b', 'y', 't', 'e', 's']
}

pub open spec fn cbor_map_words() -> Seq<char> {
    seq!['c', 'b', 'o', 'r', ' ', 'm', 'a', 'p']
}

/// What a blob holds, in a few words: `record (kind)` for a record map,
/// whichever of the two it has, `cbor map` for another map, else `bytes`.
pub open spec fn describe_spec(bytes: Seq<u8>) -> Seq<char> {
    match dec(bytes) {
        Some((Data::Table(entries), _)) => match (
            text_entry(entries, record_word()),
            text_entry(entries, kind_word()),
        ) {
            (Some(r), Some(k)) => r + seq![' ', '('] + k + seq![')'],
            (Some(r), None) => r,
            (None, Some(k)) => k,
            (None, None) => cbor_map_words(),
        },
        _ => bytes_word(),
    }
}

pub(crate) fn find_text_entry(entries: &Vec<(Value, Value)>, name: &Vec<char>) -> (r: Option<Vec<char>>)
    ensures
        match r {
            Some(t) => text_entry(data_pairs(entries@), name@) == Some(t@),
            None => text_entry(data_pairs(entries@), name@) is None,
        },
{
    let mut i: usize = entries.len();
    let mut found: Option<Vec<char>> = None;
    proof {
        crate::cbor::lemma_data_pairs(entries@);
        assert(data_pairs(entries@).skip(entries.len() as int) =~= Seq::<(Data, Data)>::empty());
    }
    while i > 0
        invariant
            i <= entries.len(),
            match found {
                Some(t) => text_entry(data_pairs(entries@).skip(i as int), name@) == Some(t@),
                None => text_entry(data_pairs(entries@).skip(i as int), name@) is None,
            },
        decreases i,
    {
        i = i - 1;
        proof {
            crate::cbor::lemma_data_pairs(entries@);
            let d = data_pairs(entries@);
            assert(d.skip(i as int).drop_first() =~= d.skip(i + 1));
        }
        match &entries[i] {
            (Value::Text(k), Value::Text(t)) => {
                let kc = chars_of(k.as_str());
                if text::same_chars(&kc, name) {
                    found = Some(chars_of(t.as_str()));
                }
            },
            _ => {},
        }
    }
    proof {
        assert(data_pairs(entries@).skip(0) =~= data_pairs(entries@));
    }
    found
}

/// What the blob `bytes` holds, in a few words.
pub fn describe(bytes: &[u8]) -> (s: String)
    ensures
        s@ == describe_spec(bytes@),
{
    let value = match from_slice(bytes) {
        Ok(v) => v,
        Err(_) => {
            let w = vec!['b', 'y', 't', 'e', 's'];
            assert(w@ =~= bytes_word());
            return string_of(&w);
        },
    };
    match &value {
        Value::Table(entries) => {
            let rw = vec!['r', 'e', 'c', 'o', 'r', 'd'];
            let kw = vec!['k', 'i', 'n', 'd'];
            assert(rw@ =~= record_word());
            assert(kw@ =~= kind_word());
            let record = find_text_entry(entries, &rw);
            let kind = find_text_entry(entries, &kw);
            match (record, kind) {
                (Some(r), Some(k)) => {
                    let mut v = r;
                    v.push(' ');
                    v.push('(');
                    append(&mut v, &k);
                    v.push(')');
                    assert(v@ =~= describe_spec(bytes@));
                    string_of(&v)
                },
                (Some(r), None) => string_of(&r),
                (None, Some(k)) => string_of(&k),
                (None, None) => {
                    let w = vec!['c', 'b', 'o', 'r', ' ', 'm', 'a', 'p'];
                    assert(w@ =~= cbor_map_words());
                    string_of(&w)
                },
            }
        },
        _ => {
            let w = vec!['b', 'y', 't', 'e', 's'];
            assert(w@ =~= bytes_word());
            string_of(&w)
        },
    }
}

/// The text that `String::from_utf8_lossy` reads from `bytes`, with each
/// invalid sequence replaced.
pub uninterp spec fn lossy_text(bytes: Seq<u8>) -> Seq<char>;

/// `String::from_utf8_lossy`: the bytes read as UTF-8, invalid sequences replaced.
#[verifier::external_body]
fn utf8_lossy(bytes: &[u8]) -> (s: String)
    ensures
        s@ == lossy_text(bytes@),
{
    String::from_utf8_lossy(bytes).into_owned()
}

/// Why a gateway reply could not be read.
#[derive(Debug, Clone, Copy, PartialEq, Eq)]
pub enum ReplyError {
    /// No blank line ends the head.
    Malformed,
    /// The status line has no number where the status goes.
    NoStatus,
}

/// What a reply error says.
pub open spec fn reply_error_text(e: ReplyError) -> Seq<char> {
    match e {
        ReplyError::Malformed => "malformed gateway reply"@,
        ReplyError::NoStatus => "gateway reply has no status"@,
    }
}

impl ReplyError {
    pub fn message(&self) -> (s: &'static str)
        ensures
            s@ == reply_error_text(*self),
    {
        match self {
            ReplyError::Malformed => "malformed gateway reply",
            ReplyError::NoStatus => "gateway reply has no status",
        }
    }
}

/// The status of a reply whose head is `head`: the second word of the head
/// read as a `u16`.
pub open spec fn head_status(head: Seq<u8>) -> Option<u16> {
    let ws = words(lossy_text(head));
    if ws.len() < 2 {
        None
    } else {
        match parse_unsigned(ws[1], 65535) {
            Some(n) => Some(n as u16),
            None => None,
        }
    }
}

/// The status and body of a raw HTTP reply from the gateway: the body is
/// everything after the first blank line.
pub open spec fn reply_spec(raw: Seq<u8>) -> Result<(u16, Seq<u8>), ReplyError> {
    match first_run(raw, blank_line()) {
        None => Err(ReplyError::Malformed),
        Some(split) => match head_status(raw.take(split)) {
            None => Err(ReplyError::NoStatus),
            Some(status) => Ok((status, raw.skip(split + 4))),
        },
    }
}

/// Reads a raw reply from the gateway.
pub fn read_reply(raw: &[u8]) -> (r: Result<(u16, Vec<u8>), ReplyError>)
    ensures
        match r {
            Ok((status, body)) => reply_spec(raw@) == Ok::<(u16, Seq<u8>), ReplyError>((status, body@)),
            Err(e) => reply_spec(raw@) == Err::<(u16, Seq<u8>), ReplyError>(e),
        },
{
    let split = match find_bytes(raw, &[13u8, 10u8, 13u8, 10u8]) {
        Some(i) => i,
        None => {
            proof {
                assert(seq![13u8, 10u8, 13u8, 10u8] =~= blank_line());
            }
            return Err(ReplyError::Malformed);
        },
    };
    proof {
        assert(seq![13u8, 10u8, 13u8, 10u8] =~= blank_line());
        lemma_first_run(raw@, blank_line());
    }
    let mut head: Vec<u8> = Vec::new();
    let mut i: usize = 0;
    while i < split
        invariant
            split <= raw.len(),
            i <= split,
            head@ == raw@.take(i as int),
        decreases split - i,
    {
        head.push(raw[i]);
        i = i + 1;
        assert(head@ =~= raw@.take(i as int));
    }
    let text = utf8_lossy(head.as_slice());
    let chars = chars_of(text.as_str());
    let ws = split_words(&chars);
    if ws.len() < 2 {
        return Err(ReplyError::NoStatus);
    }
    let status = match parse_decimal(&ws[1], 65535) {
        Some(n) => n as u16,
        None => return Err(ReplyError::NoStatus),
    };
    let mut body: Vec<u8> = Vec::new();
    let mut j: usize = split + 4;
    while j < raw.len()
        invariant
            split + 4 <= raw.len(),
            split + 4 <= j <= raw.len(),
            body@ == raw@.subrange(split + 4, j as int),
        decreases raw.len() - j,
    {
        body.push(raw[j]);
        j = j + 1;
        assert(body@ =~= raw@.subrange(split + 4, j as int));
    }
    assert(body@ =~= raw@.skip(split + 4));
    Ok((status, body))
}

pub open spec fn node_id_bytes() -> Seq<u8> {
    seq![110u8, 111u8, 100u8, 101u8, 95u8, 105u8, 100u8]
}

/// Whether a reply to `GET /gateway/status` shows a live gateway: a 200 whose
/// body mentions `node_id`. `None` stands for a call that failed.
pub fn gateway_alive(reply: &Option<(u16, Vec<u8>)>) -> (r: bool)
    ensures
        r == match reply {
            Some((status, body)) => *status == 200 && first_run(body@, node_id_bytes()) is Some,
            None => false,
        },
{
    match reply {
        Some((status, body)) => {
            if *status != 200 {
                return false;
            }
            let found = find_bytes(body.as_slice(), &[110u8, 111u8, 100u8, 101u8, 95u8, 105u8, 100u8]);
            proof {
                assert(seq![110u8, 111u8, 100u8, 101u8, 95u8, 105u8, 100u8] =~= node_id_bytes());
            }
            found.is_some()
        },
        None => false,
    }
}

} // verus!
