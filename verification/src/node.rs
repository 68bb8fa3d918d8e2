//! What a fetch reports, what a node serves, and the port it binds.
use vstd::prelude::*;
use crate::text::{trim_str, trimmed};
use crate::lex::{parse_decimal, parse_unsigned};

verus! {

/// What fetching a ref brought in.
#[derive(Debug, Clone, PartialEq, Eq)]
pub struct Fetched {
    pub name: String,
    pub kind: String,
    pub blobs: usize,
}

/// A ref a node serves, with the ticket that fetches it.
#[derive(Debug, Clone, PartialEq, Eq)]
pub struct ServedRef {
    pub name: String,
    pub ticket: String,
}

pub const QUIC_PORT_VAR: &'static str = "SPIRIT_QUIC_PORT";

/// The QUIC port a setting asks for: its trimmed text read as a `u16`, and
/// never port 0.
pub open spec fn quic_port_spec(value: Option<Seq<char>>) -> Option<u16> {
    match value {
        None => None,
        Some(v) => match parse_unsigned(trimmed(v), 65535) {
            Some(n) => if n == 0 {
                None
            } else {
                Some(n as u16)
            },
            None => None,
        },
    }
}

/// The QUIC port that the setting `value` asks for, if any.
pub fn quic_port_from(value: Option<&str>) -> (r: Option<u16>)
    ensures
        r == quic_port_spec(match value {
            Some(v) => Some(v@),
            None => None,
        }),
{
    let v = match value {
        Some(v) => v,
        None => return None,
    };
    let t = trim_str(v);
    match parse_decimal(&t, 65535) {
        Some(n) => if n == 0 {
            None
        } else {
            Some(n as u16)
        },
        None => None,
    }
}

} // verus!
