//! The store lock: one process per store, recorded by pid in a file that goes
//! stale when it is not refreshed.
use vstd::prelude::*;
use crate::path::{join, join_spec};
use crate::text::{trim_str, trimmed};
use crate::lex::{parse_decimal, parse_unsigned};

verus! {

pub const LOCK_FILE: &'static str = "lock";

/// How long a lock file counts after its last write, in nanoseconds.
pub const STALE_AFTER_NANOS: u128 = 120000000000;

/// The lock file of the store at `dir`.
pub fn path(dir: &str) -> (p: String)
    ensures
        p@ == join_spec(dir@, LOCK_FILE@),
{
    join(dir, LOCK_FILE)
}

/// The pid a lock file records: its trimmed text read as a `u32`, unless the
/// file was last written longer ago than the lock lasts.
pub open spec fn recorded_spec(age_nanos: u128, text: Seq<char>) -> Option<u32> {
    if age_nanos > STALE_AFTER_NANOS {
        None
    } else {
        match parse_unsigned(trimmed(text), u32::MAX as nat) {
            Some(n) => Some(n as u32),
            None => None,
        }
    }
}

/// The pid recorded by a lock file written `age_nanos` ago with `text` in it.
pub fn recorded(age_nanos: u128, text: &str) -> (r: Option<u32>)
    ensures
        r == recorded_spec(age_nanos, text@),
{
    if age_nanos > STALE_AFTER_NANOS {
        return None;
    }
    let t = trim_str(text);
    match parse_decimal(&t, 4294967295) {
        Some(n) => Some(n as u32),
        None => None,
    }
}

/// Whether the process `pid` counts as alive: it is this process, or the
/// system says it runs, or the system cannot tell (`liveness` is `None`).
pub open spec fn alive_spec(pid: u32, own: u32, liveness: Option<bool>) -> bool {
    pid == own || match liveness {
        Some(l) => l,
        None => true,
    }
}

/// Whether `pid` counts as alive, given this process's pid and what the
/// system reports of `pid`.
pub fn alive(pid: u32, own: u32, liveness: Option<bool>) -> (r: bool)
    ensures
        r == alive_spec(pid, own, liveness),
{
    pid == own || match liveness {
        Some(l) => l,
        None => true,
    }
}

/// The live process that holds the lock: the recorded pid while it is alive.
pub fn holder(recorded: Option<u32>, own: u32, liveness: Option<bool>) -> (r: Option<u32>)
    ensures
        r == match recorded {
            Some(pid) => if alive_spec(pid, own, liveness) {
                Some(pid)
            } else {
                None
            },
            None => None,
        },
{
    match recorded {
        Some(pid) => if alive(pid, own, liveness) {
            Some(pid)
        } else {
            None
        },
        None => None,
    }
}

/// What taking the lock comes to.
#[derive(Debug, Clone, Copy, PartialEq, Eq)]
pub enum Taking {
    /// No other process holds it: write our pid.
    Free,
    /// A dead process left it: take it over.
    TakeOver(u32),
    /// A live process holds it: refuse, one process per store.
    Held(u32),
}

/// Whether this process (`own`) may take the lock that records `recorded`;
/// `liveness` is what the system reports of the recorded pid.
pub fn taking(recorded: Option<u32>, own: u32, liveness: Option<bool>) -> (t: Taking)
    ensures
        t == match recorded {
            Some(pid) => if pid == own {
                Taking::Free
            } else if alive_spec(pid, own, liveness) {
                Taking::Held(pid)
            } else {
                Taking::TakeOver(pid)
            },
            None => Taking::Free,
        },
{
    match recorded {
        Some(pid) => if pid == own {
            Taking::Free
        } else if alive(pid, own, liveness) {
            Taking::Held(pid)
        } else {
            Taking::TakeOver(pid)
        },
        None => Taking::Free,
    }
}

/// Whether a lock being let go removes its file: only while it still records
/// this process.
pub fn releases(recorded: Option<u32>, own: u32) -> (r: bool)
    ensures
        r == (recorded == Some(own)),
{
    match recorded {
        Some(pid) => pid == own,
        None => false,
    }
}

/// A taken lock.
#[derive(Debug)]
pub struct StoreLock {
    path: String,
}

impl StoreLock {
    /// The lock held on the store at `dir`.
    pub fn at(dir: &str) -> (l: Self)
        ensures
            l.file() == join_spec(dir@, LOCK_FILE@),
    {
        StoreLock { path: path(dir) }
    }

    pub closed spec fn file(&self) -> Seq<char> {
        self.path@
    }

    /// The lock file.
    pub fn path(&self) -> (p: &str)
        ensures
            p@ == self.file(),
    {
        self.path.as_str()
    }
}

} // verus!
