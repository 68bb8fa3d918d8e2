//! The gateway's HTTP framing: reading a request's head, and writing a
//! response's head.
use vstd::prelude::*;
use crate::lex::{first_of, find_first, lower_all, to_lower, words, split_words, parse_unsigned, parse_decimal,
    dec_text, decimal};
use crate::text::{chars_of, string_of, trimmed, trim_chars, starts_with, has_prefix, tail, slice, append, same_chars};

verus! {

/// The longest request line or header line read.
pub const MAX_REQUEST_LINE: u64 = 8192;

/// The most header lines read.
pub const MAX_HEADERS: usize = 64;

/// The largest request body accepted.
pub const MAX_REQUEST_BODY: usize = 268435456;

/// A header line's name and value, split at the first colon.
pub open spec fn split_colon(line: Seq<char>) -> Option<(Seq<char>, Seq<char>)> {
    match first_of(line, ':') {
        Some(i) => Some((line.take(i), line.skip(i + 1))),
        None => None,
    }
}

/// The value of the header `key` (in lower case): the last line naming it,
/// trimmed.
pub open spec fn header_value(lines: Seq<Seq<char>>, key: Seq<char>) -> Option<Seq<char>>
    decreases lines.len(),
{
    if lines.len() == 0 {
        None
    } else {
        match split_colon(lines.last()) {
            Some((name, value)) => if lower_all(trimmed(name)) == key {
                Some(trimmed(value))
            } else {
                header_value(lines.drop_last(), key)
            },
            None => header_value(lines.drop_last(), key),
        }
    }
}

pub open spec fn authorization() -> Seq<char> {
    seq!['a', 'u', 't', 'h', 'o', 'r', 'i', 'z', 'a', 't', 'i', 'o', 'n']
}

pub open spec fn content_length() -> Seq<char> {
    seq!['c', 'o', 'n', 't', 'e', 'n', 't', '-', 'l', 'e', 'n', 'g', 't', 'h']
}

pub open spec fn bearer_prefix() -> Seq<char> {
    seq!['B', 'e', 'a', 'r', 'e', 'r', ' ']
}

/// The `n`-th word of `s`, or nothing.
pub open spec fn word_at(s: Seq<char>, n: int) -> Seq<char> {
    if n < words(s).len() {
        words(s)[n]
    } else {
        Seq::empty()
    }
}

/// The head of a request, up to its body.
#[derive(Debug, Clone, PartialEq, Eq)]
pub struct RequestHead {
    pub method: String,
    pub path: String,
    pub query: String,
    pub bearer: Option<String>,
    pub length: usize,
}

/// What a request line and its header lines say: the method and target are
/// the first two words of the line, the target splits into path and query at
/// its first `?`, the bearer token is an `Authorization: Bearer` value, and
/// the body length is `Content-Length` read as a number (none if it does not
/// read). A body over the limit is refused with 413.
pub open spec fn head_spec(line: Seq<char>, headers: Seq<Seq<char>>) -> Result<
    (Seq<char>, Seq<char>, Seq<char>, Option<Seq<char>>, nat),
    u16,
> {
    let method = word_at(line, 0);
    let target = word_at(line, 1);
    let (path, query) = match first_of(target, '?') {
        Some(i) => (target.take(i), target.skip(i + 1)),
        None => (target, Seq::empty()),
    };
    let bearer = match header_value(headers, authorization()) {
        Some(v) => if starts_with(v, bearer_prefix()) {
            Some(trimmed(v.skip(7)))
        } else {
            None
        },
        None => None,
    };
    let length = match header_value(headers, content_length()) {
        Some(v) => match parse_unsigned(v, usize::MAX as nat) {
            Some(n) => n,
            None => 0,
        },
        None => 0,
    };
    if length > MAX_REQUEST_BODY {
        Err(413)
    } else {
        Ok((method, path, query, bearer, length))
    }
}

pub open spec fn views(v: Seq<String>) -> Seq<Seq<char>> {
    Seq::new(v.len(), |i: int| v[i]@)
}

fn find_header(headers: &Vec<String>, key: &Vec<char>) -> (r: Option<Vec<char>>)
    ensures
        match r {
            Some(v) => header_value(views(headers@), key@) == Some(v@),
            None => header_value(views(headers@), key@) is None,
        },
{
    let ghost hv = views(headers@);
    let mut i: usize = headers.len();
    assert(hv.take(i as int) =~= hv);
    while i > 0
        invariant
            hv == views(headers@),
            i <= headers.len(),
            header_value(hv, key@) == header_value(hv.take(i as int), key@),
        decreases i,
    {
        let ghost t = hv.take(i as int);
        assert(t.last() == headers@[i - 1]@);
        assert(t.drop_last() =~= hv.take(i - 1));
        let line = chars_of(headers[i - 1].as_str());
        match find_first(&line, ':') {
            Some(c) => {
                let name = slice(&line, 0, c);
                let value = tail(&line, c + 1);
                let lowered = to_lower(&trim_chars(&name));
                if same_chars(&lowered, key) {
                    return Some(trim_chars(&value));
                }
            },
            None => {},
        }
        i = i - 1;
    }
    None
}

fn word(ws: &Vec<Vec<char>>, n: usize) -> (r: String)
    ensures
        n < ws@.len() ==> r@ == ws@[n as int]@,
        n >= ws@.len() ==> r@ == Seq::<char>::empty(),
{
    if n < ws.len() {
        string_of(&ws[n])
    } else {
        string_of(&Vec::new())
    }
}

/// Reads a request's head from its request line and its header lines (those
/// before the blank line); `Err` is the status that refuses it.
pub fn read_head(line: &str, headers: &Vec<String>) -> (r: Result<RequestHead, u16>)
    ensures
        match r {
            Ok(h) => head_spec(line@, views(headers@)) == Ok::<
                (Seq<char>, Seq<char>, Seq<char>, Option<Seq<char>>, nat),
                u16,
            >((h.method@, h.path@, h.query@, match h.bearer {
                Some(b) => Some(b@),
                None => None,
            }, h.length as nat)),
            Err(s) => head_spec(line@, views(headers@)) == Err::<
                (Seq<char>, Seq<char>, Seq<char>, Option<Seq<char>>, nat),
                u16,
            >(s),
        },
{
    let ws = split_words(&chars_of(line));
    let method = word(&ws, 0);
    let target = chars_of(word(&ws, 1).as_str());
    let (path, query) = match find_first(&target, '?') {
        Some(i) => (string_of(&slice(&target, 0, i)), string_of(&tail(&target, i + 1))),
        None => (string_of(&target), string_of(&Vec::new())),
    };
    proof {
        if let Some(i) = first_of(target@, '?') {
            assert(target@.subrange(0, i) =~= target@.take(i));
        }
    }
    let auth = vec!['a', 'u', 't', 'h', 'o', 'r', 'i', 'z', 'a', 't', 'i', 'o', 'n'];
    assert(auth@ =~= authorization());
    let bearer = match find_header(headers, &auth) {
        Some(v) => {
            let p = vec!['B', 'e', 'a', 'r', 'e', 'r', ' '];
            assert(p@ =~= bearer_prefix());
            if has_prefix(&v, &p) {
                Some(string_of(&trim_chars(&tail(&v, 7))))
            } else {
                None
            }
        },
        None => None,
    };
    let cl = vec!['c', 'o', 'n', 't', 'e', 'n', 't', '-', 'l', 'e', 'n', 'g', 't', 'h'];
    assert(cl@ =~= content_length());
    let length: u64 = match find_header(headers, &cl) {
        Some(v) => match parse_decimal(&v, usize::MAX as u64) {
            Some(n) => n,
            None => 0,
        },
        None => 0,
    };
    if length > MAX_REQUEST_BODY as u64 {
        return Err(413);
    }
    Ok(RequestHead { method, path, query, bearer, length: length as usize })
}

/// The reason phrase sent with a status.
pub open spec fn reason_of(status: u16) -> Seq<char> {
    if status == 200 {
        "OK"@
    } else if status == 201 {
        "Created"@
    } else if status == 204 {
        "No Content"@
    } else if status == 400 {
        "Bad Request"@
    } else if status == 401 {
        "Unauthorized"@
    } else if status == 403 {
        "Forbidden"@
    } else if status == 404 {
        "Not Found"@
    } else if status == 405 {
        "Method Not Allowed"@
    } else if status == 413 {
        "Payload Too Large"@
    } else if status == 422 {
        "Unprocessable Entity"@
    } else if status == 502 {
        "Bad Gateway"@
    } else if status == 503 {
        "Service Unavailable"@
    } else {
        "Internal Server Error"@
    }
}

/// The reason phrase sent with `status`.
pub fn reason(status: u16) -> (s: &'static str)
    ensures
        s@ == reason_of(status),
{
    if status == 200 {
        "OK"
    } else if status == 201 {
        "Created"
    } else if status == 204 {
        "No Content"
    } else if status == 400 {
        "Bad Request"
    } else if status == 401 {
        "Unauthorized"
    } else if status == 403 {
        "Forbidden"
    } else if status == 404 {
        "Not Found"
    } else if status == 405 {
        "Method Not Allowed"
    } else if status == 413 {
        "Payload Too Large"
    } else if status == 422 {
        "Unprocessable Entity"
    } else if status == 502 {
        "Bad Gateway"
    } else if status == 503 {
        "Service Unavailable"
    } else {
        "Internal Server Error"
    }
}

/// The head of a response: status line, content type and length, caching
/// (forever for immutable content, never otherwise), an attachment name if
/// there is one, and open cross-origin access.
pub open spec fn response_head_spec(
    status: u16,
    content_type: Seq<char>,
    length: nat,
    immutable: bool,
    disposition: Option<Seq<char>>,
) -> Seq<char> {
    "HTTP/1.1 "@ + dec_text(status as nat) + " "@ + reason_of(status) + "\r\nContent-Type: "@ + content_type
        + "\r\nContent-Length: "@ + dec_text(length) + "\r\nCache-Control: "@ + (if immutable {
        "public, max-age=31536000, immutable"@
    } else {
        "no-store"@
    }) + "\r\n"@ + (match disposition {
        Some(name) => "Content-Disposition: attachment; filename=\""@ + name + "\"\r\n"@,
        None => Seq::empty(),
    })
        + "Access-Control-Allow-Origin: *\r\nAccess-Control-Allow-Methods: GET, POST, OPTIONS\r\nAccess-Control-Allow-Headers: *\r\nConnection: close\r\n\r\n"@
}

/// The head written before a response's body.
pub fn response_head(
    status: u16,
    content_type: &str,
    length: usize,
    immutable: bool,
    disposition: Option<&str>,
) -> (s: String)
    ensures
        s@ == response_head_spec(status, content_type@, length as nat, immutable, match disposition {
            Some(d) => Some(d@),
            None => None,
        }),
{
    let mut v = chars_of("HTTP/1.1 ");
    append(&mut v, &decimal(status as u64));
    append(&mut v, &chars_of(" "));
    append(&mut v, &chars_of(reason(status)));
    append(&mut v, &chars_of("\r\nContent-Type: "));
    append(&mut v, &chars_of(content_type));
    append(&mut v, &chars_of("\r\nContent-Length: "));
    append(&mut v, &decimal(length as u64));
    append(&mut v, &chars_of("\r\nCache-Control: "));
    if immutable {
        append(&mut v, &chars_of("public, max-age=31536000, immutable"));
    } else {
        append(&mut v, &chars_of("no-store"));
    }
    append(&mut v, &chars_of("\r\n"));
    match disposition {
        Some(name) => {
            append(&mut v, &chars_of("Content-Disposition: attachment; filename=\""));
            append(&mut v, &chars_of(name));
            append(&mut v, &chars_of("\"\r\n"));
        },
        None => {},
    }
    append(
        &mut v,
        &chars_of(
            "Access-Control-Allow-Origin: *\r\nAccess-Control-Allow-Methods: GET, POST, OPTIONS\r\nAccess-Control-Allow-Headers: *\r\nConnection: close\r\n\r\n",
        ),
    );
    proof {
        let d = match disposition {
            Some(x) => Some(x@),
            None => None,
        };
        assert(v@ =~= response_head_spec(status, content_type@, length as nat, immutable, d));
    }
    string_of(&v)
}

} // verus!
