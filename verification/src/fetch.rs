//! Plain-HTTP fetching from gateways: reading a URL into a target, and a raw
//! reply into its status and body.
use vstd::prelude::*;
use vstd::utf8::{valid_utf8, decode_utf8};
use crate::cbor::utf8_text;
use crate::lex::{
    dec_text, decimal, first_of, last_of, find_first, find_last, parse_unsigned, parse_decimal,
    strip_brackets, trim_brackets, words, split_words, split_on, split_text, first_run, find_bytes,
    lower_all, to_lower, contains_run, has_run, parse_unsigned_hex, parse_hex_number,
    lemma_first_run,
};
use crate::text::{chars_of, string_of, starts_with, has_prefix, tail, slice, trimmed, trim_chars, append, concat};

verus! {

/// The largest reply body accepted.
pub const MAX_BODY: usize = 1048576;

/// The message for a URL that needs TLS.
pub const HTTPS_REFUSED: &'static str = "https gateways need a fetcher from the caller (Mesh::set_fetch); spirit-node carries no TLS";

/// Where an HTTP request goes.
#[derive(Debug, Clone, PartialEq, Eq)]
pub struct Target {
    pub host: String,
    pub port: u16,
    pub path: String,
}

impl Target {
    /// The `Host` header value: the host, and the port unless it is 80.
    pub fn authority(&self) -> (s: String)
        ensures
            s@ == if self.port == 80 {
                self.host@
            } else {
                self.host@ + seq![':'] + dec_text(self.port as nat)
            },
    {
        if self.port == 80 {
            self.host.clone()
        } else {
            let mut v = chars_of(self.host.as_str());
            v.push(':');
            append(&mut v, &decimal(self.port as u64));
            string_of(&v)
        }
    }
}

/// The target a URL names, or why it names none.
pub open spec fn target_spec(url: Seq<char>) -> Result<(Seq<char>, u16, Seq<char>), Seq<char>> {
    if starts_with(url, "http://"@) {
        let rest = url.skip(7);
        let (authority, path) = match first_of(rest, '/') {
            Some(i) => (rest.take(i), rest.skip(i)),
            None => (rest, "/"@),
        };
        if authority.len() == 0 {
            Err("no host in "@ + url)
        } else {
            match last_of(authority, ':') {
                Some(j) => {
                    let host = authority.take(j);
                    let port = authority.skip(j + 1);
                    if first_of(host, ']') is None || (host.len() > 0 && host.last() == ']') {
                        match parse_unsigned(port, 65535) {
                            Some(p) => Ok((strip_brackets(host), p as u16, path)),
                            None => Err("bad port in "@ + url),
                        }
                    } else {
                        Ok((strip_brackets(authority), 80u16, path))
                    }
                },
                None => Ok((strip_brackets(authority), 80u16, path)),
            }
        }
    } else if starts_with(url, "https://"@) {
        Err(HTTPS_REFUSED@)
    } else {
        Err("not an http url: "@ + url)
    }
}

/// The target an `http://` URL names.
pub fn target(url: &str) -> (r: Result<Target, String>)
    ensures
        match r {
            Ok(t) => target_spec(url@) == Ok::<(Seq<char>, u16, Seq<char>), Seq<char>>(
                (t.host@, t.port, t.path@),
            ),
            Err(e) => target_spec(url@) == Err::<(Seq<char>, u16, Seq<char>), Seq<char>>(e@),
        },
{
    proof {
        reveal_strlit("http://");
        reveal_strlit("https://");
    }
    let cs = chars_of(url);
    let http = chars_of("http://");
    if !has_prefix(&cs, &http) {
        if has_prefix(&cs, &chars_of("https://")) {
            return Err(crate::text::owned(HTTPS_REFUSED));
        }
        return Err(concat("not an http url: ", url));
    }
    let rest = tail(&cs, 7);
    let (authority, path) = match find_first(&rest, '/') {
        Some(i) => (slice(&rest, 0, i), tail(&rest, i)),
        None => (rest, chars_of("/")),
    };
    if authority.len() == 0 {
        return Err(concat("no host in ", url));
    }
    let (host, port) = match find_last(&authority, ':') {
        Some(j) => {
            let host = slice(&authority, 0, j);
            let port_text = tail(&authority, j + 1);
            let closed = host.len() > 0 && host[host.len() - 1] == ']';
            if find_first(&host, ']').is_none() || closed {
                match parse_decimal(&port_text, 65535) {
                    Some(p) => (host, p as u16),
                    None => return Err(concat("bad port in ", url)),
                }
            } else {
                (authority, 80u16)
            }
        },
        None => (authority, 80u16),
    };
    Ok(Target { host: string_of(&trim_brackets(&host)), port, path: string_of(&path) })
}

/// Whether a header line sets chunked transfer, and the content length it
/// sets, after every line of `lines` is read; later lines win.
pub open spec fn header_state(lines: Seq<Seq<char>>) -> (bool, Option<nat>)
    decreases lines.len(),
{
    if lines.len() == 0 {
        (false, None)
    } else {
        let (chunked, length) = header_state(lines.drop_last());
        let line = lines.last();
        match first_of(line, ':') {
            None => (chunked, length),
            Some(k) => {
                let name = lower_all(trimmed(line.take(k)));
                let value = trimmed(line.skip(k + 1));
                if name == "transfer-encoding"@ {
                    (contains_run(lower_all(value), "chunked"@), length)
                } else if name == "content-length"@ {
                    (chunked, parse_unsigned(value, usize::MAX as nat))
                } else {
                    (chunked, length)
                }
            },
        }
    }
}

pub open spec fn crlf() -> Seq<u8> {
    seq![13u8, 10u8]
}

pub open spec fn blank_line() -> Seq<u8> {
    seq![13u8, 10u8, 13u8, 10u8]
}

/// The size a chunk-size line gives: hex digits before any `;`, trimmed.
pub open spec fn chunk_size(line: Seq<u8>) -> Option<nat> {
    if valid_utf8(line) {
        let t = decode_utf8(line);
        let part = match first_of(t, ';') {
            Some(k) => t.take(k),
            None => t,
        };
        parse_unsigned_hex(trimmed(part), usize::MAX as nat)
    } else {
        None
    }
}

/// The bytes that chunked transfer coding carries in `body`.
pub open spec fn dechunk_spec(body: Seq<u8>) -> Option<Seq<u8>>
    decreases body.len(),
{
    match first_run(body, crlf()) {
        None => None,
        Some(e) => {
            proof {
                lemma_first_run(body, crlf());
            }
            match chunk_size(body.take(e)) {
                None => None,
                Some(size) => {
                    let rest = body.skip(e + 2);
                    if size == 0 {
                        Some(Seq::empty())
                    } else if rest.len() < size {
                        None
                    } else {
                        let after = rest.skip(size as int);
                        let next = if after.len() >= 2 && after.take(2) == crlf() {
                            after.skip(2)
                        } else {
                            after
                        };
                        match dechunk_spec(next) {
                            Some(more) => Some(rest.take(size as int) + more),
                            None => None,
                        }
                    }
                },
            }
        },
    }
}

/// The status and body that a raw HTTP reply carries.
pub open spec fn response_spec(raw: Seq<u8>) -> Option<(u16, Seq<u8>)> {
    match first_run(raw, blank_line()) {
        None => None,
        Some(split) => {
            let head = raw.take(split);
            if !valid_utf8(head) {
                None
            } else {
                let lines = split_on(decode_utf8(head), "\r\n"@);
                let ws = words(lines[0]);
                if ws.len() < 2 {
                    None
                } else {
                    match parse_unsigned(ws[1], 65535) {
                        None => None,
                        Some(status) => {
                            let (chunked, length) = header_state(lines.drop_first());
                            let body = raw.skip(split + 4);
                            let out = if chunked {
                                dechunk_spec(body)
                            } else {
                                let take = match length {
                                    Some(l) => if l < body.len() {
                                        l
                                    } else {
                                        body.len()
                                    },
                                    None => body.len(),
                                };
                                Some(body.take(take as int))
                            };
                            match out {
                                None => None,
                                Some(b) => if b.len() > MAX_BODY {
                                    None
                                } else {
                                    Some((status as u16, b))
                                },
                            }
                        },
                    }
                }
            }
        },
    }
}

proof fn lemma_split_on_nonempty(s: Seq<char>, t: Seq<char>)
    ensures
        split_on(s, t).len() >= 1,
{
}

/// Reads the header lines after the status line.
fn read_headers(lines: &Vec<Vec<char>>) -> (r: (bool, Option<usize>))
    requires
        lines@.len() >= 1,
    ensures
        ({
            let views = Seq::new(lines@.len(), |i: int| lines@[i]@);
            header_state(views.drop_first()) == (
                r.0,
                match r.1 {
                    Some(l) => Some(l as nat),
                    None => None,
                },
            )
        }),
{
    let ghost views = Seq::new(lines@.len(), |i: int| lines@[i]@);
    let mut chunked = false;
    let mut length: Option<usize> = None;
    let mut i: usize = 1;
    assert(views.drop_first().take(0) =~= Seq::<Seq<char>>::empty());
    while i < lines.len()
        invariant
            1 <= i <= lines.len(),
            views == Seq::new(lines@.len(), |k: int| lines@[k]@),
            header_state(views.drop_first().take(i - 1)) == (
                chunked,
                match length {
                    Some(l) => Some(l as nat),
                    None => None,
                },
            ),
        decreases lines.len() - i,
    {
        let ghost seen = views.drop_first().take(i - 1);
        assert(views.drop_first().take(i as int).drop_last() =~= seen);
        assert(views.drop_first().take(i as int).last() == lines@[i as int]@);
        let line = &lines[i];
        match find_first(line, ':') {
            None => {},
            Some(k) => {
                let name = to_lower(&trim_chars(&slice(line, 0, k)));
                assert(k < line.len());
                let value = trim_chars(&tail(line, k + 1));
                let te = chars_of("transfer-encoding");
                let cl = chars_of("content-length");
                if crate::text::same_chars(&name, &te) {
                    chunked = has_run(&to_lower(&value), &chars_of("chunked"));
                } else if crate::text::same_chars(&name, &cl) {
                    length = match parse_decimal(&value, usize::MAX as u64) {
                        Some(n) => Some(n as usize),
                        None => None,
                    };
                }
            },
        }
        i = i + 1;
    }
    assert(views.drop_first().take(i - 1) =~= views.drop_first());
    (chunked, length)
}

/// One chunk of `rest`: `None` at the last chunk, else the chunk's bytes and what follows it.
#[verifier::spinoff_prover]
#[verifier::rlimit(60)]
fn dechunk_step(rest: &Vec<u8>) -> (r: Result<Option<(Vec<u8>, Vec<u8>)>, String>)
    ensures
        match r {
            Ok(None) => dechunk_spec(rest@) == Some(Seq::<u8>::empty()),
            Ok(Some((chunk, next))) => next@.len() < rest@.len() && dechunk_spec(rest@) == match dechunk_spec(next@) {
                Some(m) => Some(chunk@ + m),
                None => None,
            },
            Err(_) => dechunk_spec(rest@) is None,
        },
{
    proof {
        lemma_first_run(rest@, crlf());
    }
    let line_end = match find_bytes(rest.as_slice(), &[13u8, 10u8]) {
        Some(e) => e,
        None => return Err("truncated chunk size".to_string()),
    };
    assert(line_end + 2 <= rest.len());
    let size_line = slice_bytes(rest, 0, line_end);
    let size = match utf8_text(size_line.as_slice()) {
        None => return Err("bad chunk size".to_string()),
        Some(text) => {
            let t = chars_of(text.as_str());
            let part = match find_first(&t, ';') {
                Some(k) => slice(&t, 0, k),
                None => t,
            };
            match parse_hex_number(&trim_chars(&part), usize::MAX as u64) {
                Some(n) => n as usize,
                None => return Err("bad chunk size".to_string()),
            }
        },
    };
    let after_line = slice_bytes(rest, line_end + 2, rest.len());
    if size == 0 {
        return Ok(None);
    }
    if after_line.len() < size {
        return Err("truncated chunk".to_string());
    }
    let chunk = slice_bytes(&after_line, 0, size);
    let after = slice_bytes(&after_line, size, after_line.len());
    if after.len() >= 2 && after[0] == 13 && after[1] == 10 {
        assert(after@.take(2) =~= crlf());
        let next = slice_bytes(&after, 2, after.len());
        Ok(Some((chunk, next)))
    } else {
        assert(after@.len() >= 2 ==> after@.take(2) != crlf()) by {
            if after@.len() >= 2 && after@.take(2) == crlf() {
                assert(after@.take(2)[0] == 13u8);
                assert(after@.take(2)[1] == 10u8);
            }
        }
        Ok(Some((chunk, after)))
    }
}

/// The bytes that chunked transfer coding carries in `body`.
pub fn dechunk(body: &[u8]) -> (r: Result<Vec<u8>, String>)
    ensures
        match r {
            Ok(b) => dechunk_spec(body@) == Some(b@),
            Err(_) => dechunk_spec(body@) is None,
        },
{
    let mut out: Vec<u8> = Vec::new();
    let mut rest: Vec<u8> = bytes_of(body);
    assert(out@ =~= Seq::<u8>::empty());
    loop
        invariant
            match dechunk_spec(rest@) {
                Some(m) => dechunk_spec(body@) == Some(out@ + m),
                None => dechunk_spec(body@) is None,
            },
        decreases rest@.len(),
    {
        match dechunk_step(&rest)? {
            None => {
                assert(out@ + Seq::<u8>::empty() =~= out@);
                return Ok(out);
            },
            Some((chunk, next)) => {
                let ghost before = out@;
                append_bytes(&mut out, &chunk);
                proof {
                    match dechunk_spec(next@) {
                        Some(m) => {
                            assert(before + (chunk@ + m) =~= out@ + m);
                        },
                        None => {},
                    }
                }
                rest = next;
            },
        }
    }
}

/// The bytes of `s` in a vector.
pub fn bytes_of(s: &[u8]) -> (v: Vec<u8>)
    ensures
        v@ == s@,
{
    let mut v: Vec<u8> = Vec::new();
    let mut i: usize = 0;
    while i < s.len()
        invariant
            i <= s.len(),
            v@ == s@.take(i as int),
        decreases s.len() - i,
    {
        v.push(s[i]);
        i = i + 1;
        assert(v@ =~= s@.take(i as int));
    }
    assert(s@.take(i as int) =~= s@);
    v
}

fn slice_bytes(s: &Vec<u8>, from: usize, to: usize) -> (t: Vec<u8>)
    requires
        from <= to <= s.len(),
    ensures
        t@ == s@.subrange(from as int, to as int),
{
    let mut t: Vec<u8> = Vec::new();
    let mut i = from;
    while i < to
        invariant
            from <= i <= to <= s.len(),
            t@ == s@.subrange(from as int, i as int),
        decreases to - i,
    {
        t.push(s[i]);
        i = i + 1;
    }
    t
}

fn append_bytes(v: &mut Vec<u8>, more: &Vec<u8>)
    ensures
        final(v)@ == old(v)@ + more@,
{
    let mut i: usize = 0;
    while i < more.len()
        invariant
            i <= more.len(),
            v@ == old(v)@ + more@.take(i as int),
        decreases more.len() - i,
    {
        v.push(more[i]);
        i = i + 1;
        assert(v@ =~= old(v)@ + more@.take(i as int));
    }
    assert(more@.take(i as int) =~= more@);
}

/// The status and body of a raw HTTP reply.
pub fn parse_response(raw: &[u8]) -> (r: Result<(u16, Vec<u8>), String>)
    ensures
        match r {
            Ok((status, body)) => response_spec(raw@) == Some((status, body@)),
            Err(_) => response_spec(raw@) is None,
        },
{
    proof {
        lemma_first_run(raw@, blank_line());
    }
    let split = match find_bytes(raw, &[13u8, 10u8, 13u8, 10u8]) {
        Some(i) => i,
        None => return Err("no header terminator in the reply".to_string()),
    };
    assert(split + 4 <= raw.len());
    let all = bytes_of(raw);
    let head_bytes = slice_bytes(&all, 0, split);
    let head = match utf8_text(head_bytes.as_slice()) {
        Some(h) => h,
        None => return Err("non-utf8 headers".to_string()),
    };
    proof {
        reveal_strlit("\r\n");
    }
    let lines = split_text(&chars_of(head.as_str()), &chars_of("\r\n"));
    proof {
        lemma_split_on_nonempty(head@, "\r\n"@);
    }
    let ws = split_words(&lines[0]);
    if ws.len() < 2 {
        return Err("bad status line".to_string());
    }
    let status = match parse_decimal(&ws[1], 65535) {
        Some(s) => s as u16,
        None => return Err("bad status line".to_string()),
    };
    let (chunked, length) = read_headers(&lines);
    proof {
        let views = Seq::new(lines@.len(), |i: int| lines@[i]@);
        assert(views =~= split_on(head@, "\r\n"@));
    }
    let body = slice_bytes(&all, split + 4, all.len());
    let out = if chunked {
        dechunk(body.as_slice())?
    } else {
        let take = match length {
            Some(l) => if l < body.len() {
                l
            } else {
                body.len()
            },
            None => body.len(),
        };
        slice_bytes(&body, 0, take)
    };
    if out.len() > MAX_BODY {
        return Err("reply body too large".to_string());
    }
    Ok((status, out))
}

} // verus!
