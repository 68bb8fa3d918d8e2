//! The client's modes, what opening in each starts, and the values it hands
//! to its callers.
use vstd::prelude::*;
use crate::text::{chars_of, string_of, same_chars};

verus! {

/// How a client relates to the daemon for its store.
#[derive(Debug, Clone, PartialEq, Eq)]
pub enum Mode {
    /// Data operations only: no daemon is started or attached.
    Local,
    /// Start the daemon in this process, seeding these peers and serving the
    /// HTTP gateway on the port, if one is given.
    Embedded { seeds: Vec<String>, gateway: Option<u16> },
    /// Attach to a daemon already running for the store.
    Attach,
    /// Attach if a daemon answers, else start one in this process.
    AttachOrEmbed { seeds: Vec<String> },
}

impl Mode {
    /// `Embedded` with no seeds and no gateway.
    pub fn embedded() -> (m: Self)
        ensures
            m matches Mode::Embedded { seeds, gateway } && seeds@.len() == 0 && gateway is None,
    {
        Mode::Embedded { seeds: Vec::new(), gateway: None }
    }

    /// `AttachOrEmbed` with no seeds.
    pub fn attach_or_embed() -> (m: Self)
        ensures
            m matches Mode::AttachOrEmbed { seeds } && seeds@.len() == 0,
    {
        Mode::AttachOrEmbed { seeds: Vec::new() }
    }
}

/// What opening a client starts.
#[derive(Debug, Clone, PartialEq, Eq)]
pub enum Start {
    /// No network at all.
    Nothing,
    /// A daemon in this process, with these seeds and gateway port.
    Embed { seeds: Vec<String>, gateway: Option<u16> },
    /// The daemon already answering for the store.
    Attached,
    /// `Attach` found no daemon: opening fails.
    NotRunning,
}

/// What opening in `mode` starts, given whether a daemon already answers
/// for the store.
pub fn start(mode: Mode, alive: bool) -> (s: Start)
    ensures
        s == match mode {
            Mode::Local => Start::Nothing,
            Mode::Embedded { seeds, gateway } => Start::Embed { seeds, gateway },
            Mode::Attach => if alive {
                Start::Attached
            } else {
                Start::NotRunning
            },
            Mode::AttachOrEmbed { seeds } => if alive {
                Start::Attached
            } else {
                Start::Embed { seeds, gateway: None }
            },
        },
{
    match mode {
        Mode::Local => Start::Nothing,
        Mode::Embedded { seeds, gateway } => Start::Embed { seeds, gateway },
        Mode::Attach => if alive {
            Start::Attached
        } else {
            Start::NotRunning
        },
        Mode::AttachOrEmbed { seeds } => if alive {
            Start::Attached
        } else {
            Start::Embed { seeds, gateway: None }
        },
    }
}

/// A one-use pairing code, as a link, and how long it stays good.
#[derive(Debug, Clone, PartialEq, Eq)]
pub struct PairingOffer {
    pub url: String,
    pub seconds_left: u64,
}

/// A named collection of one client's store.
#[derive(Debug, Clone, PartialEq, Eq)]
pub struct Collection {
    dir: String,
    name: String,
}

impl Collection {
    pub closed spec fn spec_name(&self) -> Seq<char> {
        self.name@
    }

    pub closed spec fn spec_dir(&self) -> Seq<char> {
        self.dir@
    }

    /// The collection `name` of the store at `dir`.
    pub fn new(dir: &str, name: &str) -> (c: Self)
        ensures
            c.spec_dir() == dir@,
            c.spec_name() == name@,
    {
        Collection { dir: crate::text::owned(dir), name: crate::text::owned(name) }
    }

    pub fn name(&self) -> (n: &str)
        ensures
            n@ == self.spec_name(),
    {
        self.name.as_str()
    }

    /// The store directory the collection lives in.
    pub fn dir(&self) -> (d: &str)
        ensures
            d@ == self.spec_dir(),
    {
        self.dir.as_str()
    }
}

/// Errors as the foreign-language boundary reports them.
#[derive(Debug, Clone, PartialEq, Eq)]
pub enum FfiError {
    Store(String),
    Network(String),
    NoDaemon,
    NotRunning(String),
    Invalid(String),
    Internal(String),
}

/// One peer and its trust level, across the foreign-language boundary.
#[derive(Debug, Clone, PartialEq, Eq)]
pub struct FfiPeer {
    pub id: String,
    pub trust: String,
}

/// A pairing offer across the foreign-language boundary.
#[derive(Debug, Clone, PartialEq, Eq)]
pub struct FfiPairingOffer {
    pub url: String,
    pub seconds_left: u64,
}

/// The resolver's pick across the foreign-language boundary.
#[derive(Debug, Clone, PartialEq, Eq)]
pub struct FfiResolved {
    pub blob: String,
    pub signer: String,
    pub held: bool,
}

impl FfiPairingOffer {
    /// The offer as the foreign side sees it.
    pub fn from_offer(offer: PairingOffer) -> (f: Self)
        ensures
            f.url@ == offer.url@,
            f.seconds_left == offer.seconds_left,
    {
        FfiPairingOffer { url: offer.url, seconds_left: offer.seconds_left }
    }
}

} // verus!
