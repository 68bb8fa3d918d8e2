//! Blob hashes and the content-addressed blob store.
use vstd::prelude::*;
use crate::hex::{self, hex_of, parse_hex};
use crate::text::{string_of, trimmed};

verus! {

/// The BLAKE3 digest of the bytes, as `blake3::hash` computes it.
pub uninterp spec fn blake3_digest(bytes: Seq<u8>) -> Seq<u8>;

/// `blake3::hash`: the 32-byte BLAKE3 digest of `bytes`.
#[verifier::external_body]
fn blake3_hash(bytes: &[u8]) -> (digest: [u8; 32])
    ensures
        digest@ == blake3_digest(bytes@),
{
    *blake3::hash(bytes).as_bytes()
}

/// The address of a blob: the BLAKE3 hash of its bytes.
#[derive(Debug, Clone, Copy, Eq, PartialOrd, Ord, Hash)]
pub struct BlobHash {
    bytes: [u8; 32],
}

impl View for BlobHash {
    type V = Seq<u8>;

    closed spec fn view(&self) -> Seq<u8> {
        self.bytes@
    }
}

/// Whether `a` and `b` hold the same bytes.
pub fn same_bytes(a: &[u8], b: &[u8]) -> (r: bool)
    ensures
        r == (a@ == b@),
{
    if a.len() != b.len() {
        return false;
    }
    let mut i: usize = 0;
    while i < a.len()
        invariant
            a.len() == b.len(),
            i <= a.len(),
            forall|j: int| 0 <= j < i ==> a@[j] == b@[j],
        decreases a.len() - i,
    {
        if a[i] != b[i] {
            return false;
        }
        i = i + 1;
    }
    assert(a@ =~= b@);
    true
}

impl PartialEq for BlobHash {
    fn eq(&self, other: &Self) -> (r: bool) {
        same_bytes(&self.bytes, &other.bytes)
    }
}

impl vstd::std_specs::cmp::PartialEqSpecImpl for BlobHash {
    open spec fn obeys_eq_spec() -> bool {
        true
    }

    open spec fn eq_spec(&self, other: &Self) -> bool {
        self@ == other@
    }
}

/// A hash is 32 bytes long.
pub proof fn lemma_hash_len(h: BlobHash)
    ensures
        h@.len() == 32,
{
}

/// Hashes with the same bytes are the same.
pub proof fn lemma_hash_eq(a: BlobHash, b: BlobHash)
    requires
        a@ == b@,
    ensures
        a == b,
{
    assert(a.bytes =~= b.bytes);
}

impl BlobHash {
    /// The hash of `bytes`.
    pub fn of(bytes: &[u8]) -> (h: Self)
        ensures
            h@ == blake3_digest(bytes@),
    {
        BlobHash { bytes: blake3_hash(bytes) }
    }

    pub fn from_bytes(bytes: [u8; 32]) -> (h: Self)
        ensures
            h@ == bytes@,
    {
        BlobHash { bytes }
    }

    /// The hash whose bytes are `v`.
    pub fn from_vec(v: &Vec<u8>) -> (h: Self)
        requires
            v.len() == 32,
        ensures
            h@ == v@,
    {
        let mut bytes = [0u8; 32];
        let mut i: usize = 0;
        while i < 32
            invariant
                v.len() == 32,
                i <= 32,
                forall|j: int| 0 <= j < i ==> bytes@[j] == v@[j],
            decreases 32 - i,
        {
            bytes[i] = v[i];
            i = i + 1;
        }
        assert(bytes@ =~= v@);
        BlobHash { bytes }
    }

    /// The bytes of the hash in a vector.
    pub fn to_vec(&self) -> (v: Vec<u8>)
        ensures
            v@ == self@,
    {
        let mut v: Vec<u8> = Vec::new();
        let mut i: usize = 0;
        while i < 32
            invariant
                i <= 32,
                v@ == self.bytes@.take(i as int),
            decreases 32 - i,
        {
            v.push(self.bytes[i]);
            i = i + 1;
            assert(v@ =~= self.bytes@.take(i as int));
        }
        assert(self.bytes@.take(32) =~= self.bytes@);
        v
    }

    pub fn as_bytes(&self) -> (b: &[u8; 32])
        ensures
            b@ == self@,
    {
        &self.bytes
    }

    /// The hash as 64 lower-case hex characters.
    pub fn to_hex(&self) -> (s: String)
        ensures
            s@ == hex_of(self@),
    {
        let v = hex::encode(&self.bytes);
        string_of(&v)
    }

    /// The hash spelled by `text`: 64 hex characters once trimmed.
    pub fn parse(text: &str) -> (r: Option<Self>)
        ensures
            match r {
                Some(h) => parse_hex(trimmed(text@), 32) == Some(h@),
                None => parse_hex(trimmed(text@), 32) is None,
            },
    {
        match hex::decode_trimmed(text, 32) {
            None => None,
            Some(v) => Some(BlobHash::from_vec(&v)),
        }
    }
}

} // verus!

verus! {

/// Why a blob could not be read.
#[derive(Debug)]
pub enum StoreError {
    Io(std::io::Error),
    Missing(BlobHash),
    Corrupt { expected: BlobHash, actual: BlobHash },
}

/// The bytes read for `hash`, checked against it: bytes that hash otherwise are corrupt.
pub fn check_blob(hash: BlobHash, bytes: Vec<u8>) -> (r: Result<Vec<u8>, StoreError>)
    ensures
        match r {
            Ok(b) => b@ == bytes@ && blake3_digest(bytes@) == hash@,
            Err(StoreError::Corrupt { expected, actual }) => expected == hash && actual@
                == blake3_digest(bytes@) && blake3_digest(bytes@) != hash@,
            Err(_) => false,
        },
{
    let actual = BlobHash::of(bytes.as_slice());
    if actual == hash {
        Ok(bytes)
    } else {
        Err(StoreError::Corrupt { expected: hash, actual })
    }
}

/// The bytes held under the hash `k`.
pub open spec fn find_blob(s: Seq<(Seq<u8>, Seq<u8>)>, k: Seq<u8>) -> Option<Seq<u8>>
    decreases s.len(),
{
    if s.len() == 0 {
        None
    } else if s.last().0 == k {
        Some(s.last().1)
    } else {
        find_blob(s.drop_last(), k)
    }
}

pub open spec fn blob_views(s: Seq<(BlobHash, Vec<u8>)>) -> Seq<(Seq<u8>, Seq<u8>)> {
    Seq::new(s.len(), |i: int| (s[i].0@, s[i].1@))
}

/// A store of blobs under their hashes.
pub trait Blobs {
    /// Stores `bytes`; the hash handed back is theirs.
    fn put(&mut self, bytes: &[u8]) -> (r: Result<BlobHash, StoreError>)
        ensures
            r matches Ok(h) ==> h@ == blake3_digest(bytes@),
    ;

    /// The bytes stored under `hash`; what comes back hashes to `hash`.
    fn get(&self, hash: BlobHash) -> (r: Result<Vec<u8>, StoreError>)
        ensures
            r matches Ok(b) ==> blake3_digest(b@) == hash@,
    ;

    /// Whether a blob is stored under `hash`.
    fn has(&self, hash: BlobHash) -> bool;
}

/// A blob store in memory.
pub struct MemBlobs {
    blobs: Vec<(BlobHash, Vec<u8>)>,
}

impl MemBlobs {
    #[verifier::type_invariant]
    closed spec fn wf(&self) -> bool {
        forall|i: int|
            0 <= i < self.blobs@.len() ==> (#[trigger] self.blobs@[i]).0@ == blake3_digest(
                self.blobs@[i].1@,
            )
    }

    /// The bytes held under the hash `k`.
    pub closed spec fn held(&self, k: Seq<u8>) -> Option<Seq<u8>> {
        find_blob(blob_views(self.blobs@), k)
    }

    /// How many blobs are held.
    pub closed spec fn count(&self) -> nat {
        self.blobs@.len()
    }

    proof fn lemma_found(s: Seq<(BlobHash, Vec<u8>)>, k: Seq<u8>)
        requires
            forall|i: int| 0 <= i < s.len() ==> (#[trigger] s[i]).0@ == blake3_digest(s[i].1@),
        ensures
            find_blob(blob_views(s), k) matches Some(b) ==> blake3_digest(b) == k,
        decreases s.len(),
    {
        if s.len() > 0 {
            let v = blob_views(s);
            assert(v.drop_last() =~= blob_views(s.drop_last()));
            assert(v.last() == (s.last().0@, s.last().1@));
            assert(s.last() == s[s.len() - 1]);
            Self::lemma_found(s.drop_last(), k);
        }
    }

    pub fn new() -> (m: Self)
        ensures
            m.count() == 0,
            forall|k: Seq<u8>| #[trigger] m.held(k) is None,
    {
        MemBlobs { blobs: Vec::new() }
    }

    pub fn len(&self) -> (n: usize)
        ensures
            n == self.count(),
    {
        self.blobs.len()
    }

    pub fn is_empty(&self) -> (r: bool)
        ensures
            r == (self.count() == 0),
    {
        self.len() == 0
    }

    fn position(&self, hash: &BlobHash) -> (r: Option<usize>)
        ensures
            match r {
                Some(i) => i < self.blobs@.len() && self.held(hash@) == Some(self.blobs@[i as int].1@),
                None => self.held(hash@) is None,
            },
    {
        let ghost v = blob_views(self.blobs@);
        let mut i = self.blobs.len();
        assert(v.take(i as int) =~= v);
        while i > 0
            invariant
                i <= self.blobs@.len(),
                v == blob_views(self.blobs@),
                find_blob(v, hash@) == find_blob(v.take(i as int), hash@),
            decreases i,
        {
            let ghost t = v.take(i as int);
            assert(t.last() == (self.blobs@[i - 1].0@, self.blobs@[i - 1].1@));
            assert(t.drop_last() =~= v.take(i - 1));
            if self.blobs[i - 1].0 == *hash {
                return Some(i - 1);
            }
            i = i - 1;
        }
        None
    }

    /// Whether a blob is held under `hash`.
    pub fn has(&self, hash: BlobHash) -> (r: bool)
        ensures
            r == self.held(hash@) is Some,
    {
        proof {
            assert(blob_views(self.blobs@).take(self.blobs@.len() as int) =~= blob_views(self.blobs@));
        }
        self.position(&hash).is_some()
    }

    /// The bytes held under `hash`.
    pub fn get(&self, hash: BlobHash) -> (r: Result<Vec<u8>, StoreError>)
        ensures
            match r {
                Ok(b) => self.held(hash@) == Some(b@) && blake3_digest(b@) == hash@,
                Err(StoreError::Missing(h)) => h == hash && self.held(hash@) is None,
                Err(_) => false,
            },
    {
        proof {
            use_type_invariant(self);
            Self::lemma_found(self.blobs@, hash@);
            assert(blob_views(self.blobs@).take(self.blobs@.len() as int) =~= blob_views(self.blobs@));
        }
        match self.position(&hash) {
            Some(i) => Ok(crate::canonical::copy_bytes(&self.blobs[i].1)),
            None => Err(StoreError::Missing(hash)),
        }
    }

    /// Stores `bytes` under their hash; bytes already held under it stay.
    pub fn put(&mut self, bytes: &[u8]) -> (r: Result<BlobHash, StoreError>)
        ensures
            r matches Ok(h) && h@ == blake3_digest(bytes@) && final(self).held(h@) == (
            match old(self).held(h@) {
                Some(b) => Some(b),
                None => Some(bytes@),
            }) && final(self).count() == old(self).count() + (if old(self).held(h@) is Some {
                0int
            } else {
                1int
            }),
            forall|k: Seq<u8>|
                k != blake3_digest(bytes@) ==> #[trigger] final(self).held(k) == old(self).held(k),
    {
        proof {
            use_type_invariant(&*self);
            assert(blob_views(self.blobs@).take(self.blobs@.len() as int) =~= blob_views(self.blobs@));
        }
        let hash = BlobHash::of(bytes);
        if self.has(hash) {
            return Ok(hash);
        }
        let mut copy: Vec<u8> = Vec::new();
        let mut i: usize = 0;
        while i < bytes.len()
            invariant
                i <= bytes.len(),
                copy@ == bytes@.take(i as int),
            decreases bytes.len() - i,
        {
            copy.push(bytes[i]);
            i = i + 1;
            assert(copy@ =~= bytes@.take(i as int));
        }
        assert(bytes@.take(i as int) =~= bytes@);
        let ghost before = self.blobs@;
        let mut blobs: Vec<(BlobHash, Vec<u8>)> = Vec::new();
        std::mem::swap(&mut blobs, &mut self.blobs);
        blobs.push((hash, copy));
        assert(blob_views(blobs@).drop_last() =~= blob_views(before));
        assert(blob_views(blobs@).last() == (hash@, bytes@));
        self.blobs = blobs;
        Ok(hash)
    }
}

impl Blobs for MemBlobs {
    fn put(&mut self, bytes: &[u8]) -> (r: Result<BlobHash, StoreError>)
        ensures
            r matches Ok(h) && h@ == blake3_digest(bytes@) && final(self).held(h@) == (
            match old(self).held(h@) {
                Some(b) => Some(b),
                None => Some(bytes@),
            }),
            forall|k: Seq<u8>|
                k != blake3_digest(bytes@) ==> #[trigger] final(self).held(k) == old(self).held(k),
    {
        MemBlobs::put(self, bytes)
    }

    fn get(&self, hash: BlobHash) -> (r: Result<Vec<u8>, StoreError>)
        ensures
            match r {
                Ok(b) => self.held(hash@) == Some(b@),
                Err(StoreError::Missing(h)) => h == hash && self.held(hash@) is None,
                Err(_) => false,
            },
    {
        MemBlobs::get(self, hash)
    }

    fn has(&self, hash: BlobHash) -> (r: bool)
        ensures
            r == self.held(hash@) is Some,
    {
        MemBlobs::has(self, hash)
    }
}

} // verus!

verus! {

/// A blob store on disk: one file per blob, named by its hash, under `root`.
pub struct BlobStore {
    root: String,
}

impl BlobStore {
    /// The store rooted at `root`; creating the directory is the caller's part.
    pub fn at(root: &str) -> (s: Self)
        ensures
            s.root_path() == root@,
    {
        BlobStore { root: crate::text::owned(root) }
    }

    pub closed spec fn root_path(&self) -> Seq<char> {
        self.root@
    }

    pub fn root(&self) -> (r: &str)
        ensures
            r@ == self.root_path(),
    {
        self.root.as_str()
    }

    /// The file that holds the blob `hash`.
    pub fn path_of(&self, hash: BlobHash) -> (p: String)
        ensures
            p@ == crate::path::join_spec(self.root_path(), hex_of(hash@)),
    {
        let name = hash.to_hex();
        crate::path::join(self.root.as_str(), name.as_str())
    }
}

} // verus!
