//! The local API socket: where it lives, and how its frames carry requests and replies.
use vstd::prelude::*;
use vstd::utf8::encode_utf8;
use crate::path::{join, join_spec};
use crate::store::{BlobHash, blake3_digest, lemma_hash_len};
use crate::hex::hex_of;
use crate::text::{chars_of, string_of, append};
use crate::gateway::Response;

verus! {

pub const SOCKET_FILE: &'static str = "api.sock";

/// The longest socket path, in bytes, that stays under the store directory.
pub const MAX_SOCKET_PATH: usize = 100;

/// The largest frame payload either side accepts.
pub const MAX_FRAME: usize = 268435456;

pub const SOCKET_PREFIX: &'static str = "spirit-";

pub const SOCKET_SUFFIX: &'static str = ".sock";

/// The socket's name when the store directory is too deep for one: the first
/// sixteen hex digits of the directory's hash.
pub open spec fn fallback_name(dir: Seq<char>) -> Seq<char> {
    SOCKET_PREFIX@ + hex_of(blake3_digest(encode_utf8(dir))).take(16) + SOCKET_SUFFIX@
}

/// The socket for the store at `dir`: `api.sock` inside it while that path is
/// short enough, else a name derived from the directory under `runtime`.
pub open spec fn socket_path(dir: Seq<char>, runtime: Seq<char>) -> Seq<char> {
    let preferred = join_spec(dir, SOCKET_FILE@);
    if encode_utf8(preferred).len() < MAX_SOCKET_PATH {
        preferred
    } else {
        join_spec(runtime, fallback_name(dir))
    }
}

/// The socket for the store at `dir`; `runtime` is the directory for sockets
/// that do not fit under the store.
pub fn path(dir: &str, runtime: &str) -> (p: String)
    ensures
        p@ == socket_path(dir@, runtime@),
{
    let preferred = join(dir, SOCKET_FILE);
    if preferred.as_str().as_bytes().len() < MAX_SOCKET_PATH {
        return preferred;
    }
    let key = BlobHash::of(dir.as_bytes());
    let hex = key.to_hex();
    let digits = chars_of(hex.as_str());
    proof {
        lemma_hash_len(key);
    }
    let mut name = chars_of(SOCKET_PREFIX);
    let mut i: usize = 0;
    while i < 16
        invariant
            digits@ == hex_of(key@),
            digits@.len() == 64,
            i <= 16,
            name@ == SOCKET_PREFIX@ + digits@.take(i as int),
        decreases 16 - i,
    {
        name.push(digits[i]);
        i = i + 1;
        assert(name@ =~= SOCKET_PREFIX@ + digits@.take(i as int));
    }
    let suffix = chars_of(SOCKET_SUFFIX);
    append(&mut name, &suffix);
    let file = string_of(&name);
    join(runtime, file.as_str())
}

/// A request carried over the socket.
#[derive(Debug, Clone, PartialEq, Eq)]
pub struct ApiRequest {
    pub method: String,
    pub path: String,
    pub query: String,
    pub body: Vec<u8>,
}

/// A reply carried over the socket.
#[derive(Debug, Clone, PartialEq, Eq)]
pub struct ApiReply {
    pub status: u16,
    pub content_type: String,
    pub body: Vec<u8>,
}

/// The reply that carries a gateway response.
pub fn reply_of(response: Response) -> (r: ApiReply)
    ensures
        r.status == response.status,
        r.content_type@ == response.content_type@,
        r.body@ == response.body@,
{
    ApiReply { status: response.status, content_type: response.content_type, body: response.body }
}

/// Whether the reply to a status request over the socket shows a live
/// daemon; `None` stands for a call that failed.
pub fn alive(reply: &Option<ApiReply>) -> (r: bool)
    ensures
        r == match reply {
            Some(a) => a.status == 200,
            None => false,
        },
{
    match reply {
        Some(a) => a.status == 200,
        None => false,
    }
}

/// The four big-endian bytes of `n`.
pub open spec fn be32(n: nat) -> Seq<u8> {
    seq![
        ((n / 16777216) % 256) as u8,
        ((n / 65536) % 256) as u8,
        ((n / 256) % 256) as u8,
        (n % 256) as u8,
    ]
}

/// The number that four big-endian bytes spell.
pub open spec fn be32_value(b: Seq<u8>) -> nat {
    (b[0] as nat) * 16777216 + (b[1] as nat) * 65536 + (b[2] as nat) * 256 + (b[3] as nat)
}

/// A frame: the payload's length in four big-endian bytes, then the payload.
pub fn frame(payload: &[u8]) -> (f: Vec<u8>)
    requires
        payload.len() <= u32::MAX,
    ensures
        f@ == be32(payload@.len()) + payload@,
{
    let n: usize = payload.len();
    let mut f: Vec<u8> = Vec::new();
    f.push(((n / 16777216) % 256) as u8);
    f.push(((n / 65536) % 256) as u8);
    f.push(((n / 256) % 256) as u8);
    f.push((n % 256) as u8);
    let mut i: usize = 0;
    while i < payload.len()
        invariant
            i <= payload.len(),
            f@ == be32(payload@.len()) + payload@.take(i as int),
        decreases payload.len() - i,
    {
        f.push(payload[i]);
        i = i + 1;
        assert(f@ =~= be32(payload@.len()) + payload@.take(i as int));
    }
    assert(payload@.take(payload.len() as int) =~= payload@);
    f
}

/// The payload length a frame header announces, or `None` past the largest
/// frame accepted.
pub fn frame_len(header: [u8; 4]) -> (r: Option<usize>)
    ensures
        match r {
            Some(n) => n == be32_value(header@) && n <= MAX_FRAME,
            None => be32_value(header@) > MAX_FRAME,
        },
{
    let n: u64 = (header[0] as u64) * 16777216 + (header[1] as u64) * 65536
        + (header[2] as u64) * 256 + (header[3] as u64);
    if n > MAX_FRAME as u64 {
        None
    } else {
        Some(n as usize)
    }
}

/// Reading a frame's header gives back the length of the payload it was made
/// from, for every payload within the largest frame.
pub proof fn law_frame_len_round_trip(n: nat)
    requires
        n <= MAX_FRAME,
    ensures
        be32_value(be32(n)) == n,
{
    let b = be32(n);
    assert(b[0] as nat == (n / 16777216) % 256);
    assert(b[1] as nat == (n / 65536) % 256);
    assert(b[2] as nat == (n / 256) % 256);
    assert(b[3] as nat == n % 256);
    assert((n / 16777216) % 256 * 16777216 + (n / 65536) % 256 * 65536 + (n / 256) % 256 * 256
        + n % 256 == n) by (nonlinear_arith)
        requires
            n <= 268435456,
    ;
}

} // verus!
