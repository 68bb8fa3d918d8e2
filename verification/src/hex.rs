//! Lower-case hex rendering and parsing of fixed-length byte strings.
use vstd::prelude::*;
use crate::text::{trimmed, trim_str};

verus! {

/// The lower-case hex digit for `n < 16`.
pub open spec fn digit(n: u8) -> char {
    if n < 10 {
        (n + 48) as char
    } else {
        (n + 87) as char
    }
}

/// Whether `c` is a hex digit of either case.
pub open spec fn is_hex_digit(c: char) -> bool {
    let n = c as u32;
    (48 <= n <= 57) || (97 <= n <= 102) || (65 <= n <= 70)
}

/// The value of the hex digit `c`.
pub open spec fn digit_value(c: char) -> u8 {
    let n = c as u32;
    if 48 <= n <= 57 {
        (n - 48) as u8
    } else if 97 <= n <= 102 {
        (n - 87) as u8
    } else {
        (n - 55) as u8
    }
}

/// Whether two characters spell one byte: two hex digits, high digit first.
pub open spec fn pair_ok(a: char, b: char) -> bool {
    is_hex_digit(a) && is_hex_digit(b)
}

/// The byte that the hex digits `a` and `b` spell.
pub open spec fn pair_value(a: char, b: char) -> u8 {
    (digit_value(a) * 16 + digit_value(b)) as u8
}

/// `bytes` as two lower-case hex digits per byte.
pub open spec fn hex_of(bytes: Seq<u8>) -> Seq<char> {
    Seq::new(
        2 * bytes.len(),
        |i: int| if i % 2 == 0 { digit(bytes[i / 2] / 16) } else { digit(bytes[i / 2] % 16) },
    )
}

/// The `n` bytes that the characters `cs` spell in hex, if they spell exactly that.
pub open spec fn parse_hex(cs: Seq<char>, n: nat) -> Option<Seq<u8>> {
    if cs.len() == 2 * n && forall|i: int| 0 <= i < n ==> #[trigger] pair_ok(cs[2 * i], cs[2 * i + 1]) {
        Some(Seq::new(n, |i: int| pair_value(cs[2 * i], cs[2 * i + 1])))
    } else {
        None
    }
}

pub fn hex_digit(n: u8) -> (c: char)
    requires
        n < 16,
    ensures
        c == digit(n),
{
    if n < 10 {
        (n + 48) as char
    } else {
        (n + 87) as char
    }
}

fn digit_of(c: char) -> (r: Option<u8>)
    ensures
        r is Some <==> is_hex_digit(c),
        r matches Some(v) ==> v == digit_value(c) && v < 16,
{
    let n = c as u32;
    if 48 <= n && n <= 57 {
        Some((n - 48) as u8)
    } else if 97 <= n && n <= 102 {
        Some((n - 87) as u8)
    } else if 65 <= n && n <= 70 {
        Some((n - 55) as u8)
    } else {
        None
    }
}

/// One byte from two hex digits, high digit first.
pub fn pair(a: char, b: char) -> (r: Option<u8>)
    ensures
        r is Some <==> pair_ok(a, b),
        r matches Some(v) ==> v == pair_value(a, b),
{
    match (digit_of(a), digit_of(b)) {
        (Some(high), Some(low)) => Some(high * 16 + low),
        _ => None,
    }
}

/// `bytes` rendered as lower-case hex characters.
pub fn encode(bytes: &[u8]) -> (v: Vec<char>)
    ensures
        v@ == hex_of(bytes@),
{
    let mut v: Vec<char> = Vec::new();
    let mut i: usize = 0;
    while i < bytes.len()
        invariant
            i <= bytes.len(),
            v@ =~= hex_of(bytes@.take(i as int)),
        decreases bytes.len() - i,
    {
        let b = bytes[i];
        v.push(hex_digit(b / 16));
        v.push(hex_digit(b % 16));
        i = i + 1;
        assert(v@ =~= hex_of(bytes@.take(i as int)));
    }
    assert(bytes@.take(i as int) =~= bytes@);
    v
}

/// The bytes spelled by `cs` as hex, if `cs` spells exactly `n` of them.
pub fn decode(cs: &Vec<char>, n: usize) -> (r: Option<Vec<u8>>)
    ensures
        match r {
            Some(v) => parse_hex(cs@, n as nat) == Some(v@),
            None => parse_hex(cs@, n as nat) is None,
        },
{
    if n > usize::MAX / 2 {
        let len = cs.len();
        assert(cs@.len() == len);
        assert(cs@.len() < 2 * n);
        return None;
    }
    if cs.len() != 2 * n {
        return None;
    }
    let mut out: Vec<u8> = Vec::new();
    let mut i: usize = 0;
    while i < n
        invariant
            cs.len() == 2 * n,
            i <= n,
            out.len() == i,
            forall|j: int| 0 <= j < i ==> #[trigger] pair_ok(cs@[2 * j], cs@[2 * j + 1]),
            forall|j: int| 0 <= j < i ==> out@[j] == #[trigger] pair_value(cs@[2 * j], cs@[2 * j + 1]),
        decreases n - i,
    {
        match pair(cs[2 * i], cs[2 * i + 1]) {
            None => {
                return None;
            },
            Some(b) => {
                out.push(b);
            },
        }
        i = i + 1;
    }
    assert(out@ =~= Seq::new(n as nat, |j: int| pair_value(cs@[2 * j], cs@[2 * j + 1])));
    Some(out)
}

/// Hex rendering parses back to the bytes it came from.
pub proof fn lemma_parse_hex_of(bytes: Seq<u8>)
    ensures
        parse_hex(hex_of(bytes), bytes.len()) == Some(bytes),
{
    let cs = hex_of(bytes);
    assert forall|i: int| 0 <= i < bytes.len() implies #[trigger] pair_ok(cs[2 * i], cs[2 * i + 1])
        && pair_value(cs[2 * i], cs[2 * i + 1]) == bytes[i] by {
        assert((2 * i) % 2 == 0);
        assert((2 * i + 1) % 2 == 1);
        assert((2 * i) / 2 == i);
        assert((2 * i + 1) / 2 == i);
    }
    assert(Seq::new(bytes.len(), |i: int| pair_value(cs[2 * i], cs[2 * i + 1])) =~= bytes);
}

/// The bytes spelled by `text` in hex once surrounding white space is trimmed.
pub fn decode_trimmed(text: &str, n: usize) -> (r: Option<Vec<u8>>)
    ensures
        match r {
            Some(v) => parse_hex(trimmed(text@), n as nat) == Some(v@),
            None => parse_hex(trimmed(text@), n as nat) is None,
        },
{
    let cs = trim_str(text);
    decode(&cs, n)
}

} // verus!
