//! How the node describes its peers and the refs it fetches.
use vstd::prelude::*;
use crate::lex::{dec_text, decimal};
use crate::mesh::{insert_name, names_increasing, string_views, holds_text};
use crate::text::{chars_of, string_of, append, owned, starts_with, has_prefix, slice};

verus! {

/// How a peer's link stands.
#[derive(Clone, Copy, PartialEq, Eq, Debug, Structural)]
pub enum LinkState {
    NeverReached,
    Connected,
    Reachable,
    Disconnected,
}

pub open spec fn link_label(s: LinkState) -> Seq<char> {
    match s {
        LinkState::NeverReached => "never reached"@,
        LinkState::Connected => "connected"@,
        LinkState::Reachable => "reachable"@,
        LinkState::Disconnected => "disconnected"@,
    }
}

impl LinkState {
    pub fn label(self) -> (s: &'static str)
        ensures
            s@ == link_label(self),
    {
        match self {
            LinkState::NeverReached => "never reached",
            LinkState::Connected => "connected",
            LinkState::Reachable => "reachable",
            LinkState::Disconnected => "disconnected",
        }
    }
}

/// How long after its last activity a peer still reads as reachable, in nanoseconds.
pub const REACHABLE_WINDOW_NANOS: u128 = 60000000000;

/// How long after its last activity a peer counts as dead, in nanoseconds.
pub const DEAD_AFTER_NANOS: u128 = 3600000000000;

/// A peer's link: connected while a connection is live; otherwise never
/// reached if it never was, reachable within the window after its last
/// activity, and disconnected after.
pub open spec fn link_spec(live: bool, ever_connected: bool, since_activity: Option<u128>) -> LinkState {
    if live {
        LinkState::Connected
    } else if !ever_connected {
        LinkState::NeverReached
    } else {
        match since_activity {
            Some(age) => if age <= REACHABLE_WINDOW_NANOS {
                LinkState::Reachable
            } else {
                LinkState::Disconnected
            },
            None => LinkState::Disconnected,
        }
    }
}

/// The link state, with the time since the last activity in nanoseconds.
pub fn link_state(live: bool, ever_connected: bool, since_activity: Option<u128>) -> (s: LinkState)
    ensures
        s == link_spec(live, ever_connected, since_activity),
{
    if live {
        return LinkState::Connected;
    }
    if !ever_connected {
        return LinkState::NeverReached;
    }
    match since_activity {
        Some(age) => if age <= REACHABLE_WINDOW_NANOS {
            LinkState::Reachable
        } else {
            LinkState::Disconnected
        },
        None => LinkState::Disconnected,
    }
}

/// Which kinds of path a peer's active addresses take.
#[derive(Clone, Copy, PartialEq, Eq, Debug, Structural)]
pub enum PathKind {
    Unknown,
    Direct,
    Relay,
    Mixed,
}

pub open spec fn path_label(p: PathKind) -> Seq<char> {
    match p {
        PathKind::Unknown => "unknown"@,
        PathKind::Direct => "direct"@,
        PathKind::Relay => "relay"@,
        PathKind::Mixed => "direct+relay"@,
    }
}

impl PathKind {
    pub fn label(self) -> (s: &'static str)
        ensures
            s@ == path_label(self),
    {
        match self {
            PathKind::Unknown => "unknown",
            PathKind::Direct => "direct",
            PathKind::Relay => "relay",
            PathKind::Mixed => "direct+relay",
        }
    }
}

pub open spec fn any_starts(addrs: Seq<Seq<char>>, head: Seq<char>) -> bool {
    exists|i: int| 0 <= i < addrs.len() && starts_with(#[trigger] addrs[i], head)
}

fn any_start(addrs: &Vec<String>, head: &str) -> (r: bool)
    ensures
        r == any_starts(string_views(addrs@), head@),
{
    let h = chars_of(head);
    let mut i: usize = 0;
    while i < addrs.len()
        invariant
            i <= addrs.len(),
            h@ == head@,
            forall|j: int| 0 <= j < i ==> !starts_with(#[trigger] string_views(addrs@)[j], head@),
        decreases addrs.len() - i,
    {
        assert(string_views(addrs@)[i as int] == addrs@[i as int]@);
        if has_prefix(&chars_of(addrs[i].as_str()), &h) {
            return true;
        }
        i = i + 1;
    }
    false
}

/// The path kind of a peer from its active addresses: direct, relay, both or neither.
pub fn path_kind(active_addrs: &Vec<String>) -> (p: PathKind)
    ensures
        p == ({
            let direct = any_starts(string_views(active_addrs@), "direct"@);
            let relay = any_starts(string_views(active_addrs@), "relay"@);
            if direct && relay {
                PathKind::Mixed
            } else if direct {
                PathKind::Direct
            } else if relay {
                PathKind::Relay
            } else {
                PathKind::Unknown
            }
        }),
{
    let relay = any_start(active_addrs, "relay");
    let direct = any_start(active_addrs, "direct");
    if direct && relay {
        PathKind::Mixed
    } else if direct {
        PathKind::Direct
    } else if relay {
        PathKind::Relay
    } else {
        PathKind::Unknown
    }
}

/// The first twelve characters of a peer id.
pub fn short_id(id: &str) -> (s: String)
    ensures
        s@ == if id@.len() <= 12 {
            id@
        } else {
            id@.take(12)
        },
{
    let cs = chars_of(id);
    if cs.len() <= 12 {
        string_of(&cs)
    } else {
        string_of(&slice(&cs, 0, 12))
    }
}

/// How the node learned of a peer.
#[derive(Clone, PartialEq, Eq, Debug)]
pub enum Discovery {
    Ticket,
    Inbound,
    Gossip(String),
    Remembered,
}

impl Discovery {
    pub fn label(&self) -> (s: String)
        ensures
            s@ == match self {
                Discovery::Ticket => "scanned ticket"@,
                Discovery::Inbound => "dialed us"@,
                Discovery::Remembered => "remembered from the last run"@,
                Discovery::Gossip(from) => "introduced by "@ + (if from@.len() <= 12 {
                    from@
                } else {
                    from@.take(12)
                }),
            },
    {
        match self {
            Discovery::Ticket => owned("scanned ticket"),
            Discovery::Inbound => owned("dialed us"),
            Discovery::Remembered => owned("remembered from the last run"),
            Discovery::Gossip(from) => {
                let mut v = chars_of("introduced by ");
                append(&mut v, &chars_of(short_id(from.as_str()).as_str()));
                string_of(&v)
            },
        }
    }
}

/// How much of a ref the node holds, and who provides it.
#[derive(Clone, Debug)]
pub struct RefStatus {
    pub name: String,
    pub manifest: String,
    pub held: u32,
    pub total: u32,
    pub providers: Vec<String>,
}

impl RefStatus {
    pub fn complete(&self) -> (r: bool)
        ensures
            r == (self.total > 0 && self.held >= self.total),
    {
        self.total > 0 && self.held >= self.total
    }

    /// The status line: missing, complete with its blob count, or partial with both counts.
    pub fn label(&self) -> (s: String)
        ensures
            s@ == if self.total == 0 {
                self.name@ + " — missing"@
            } else if self.held >= self.total {
                self.name@ + " — complete ("@ + dec_text(self.total as nat) + " blobs)"@
            } else {
                self.name@ + " — partial ("@ + dec_text(self.held as nat) + "/"@ + dec_text(
                    self.total as nat,
                ) + ")"@
            },
    {
        let mut v = chars_of(self.name.as_str());
        if self.total == 0 {
            append(&mut v, &chars_of(" — missing"));
        } else if self.complete() {
            append(&mut v, &chars_of(" — complete ("));
            append(&mut v, &decimal(self.total as u64));
            append(&mut v, &chars_of(" blobs)"));
        } else {
            append(&mut v, &chars_of(" — partial ("));
            append(&mut v, &decimal(self.held as u64));
            append(&mut v, &chars_of("/"));
            append(&mut v, &decimal(self.total as u64));
            append(&mut v, &chars_of(")"));
        }
        string_of(&v)
    }
}

/// One connection to a peer, told apart from its others by a serial number.
#[derive(Clone, Debug)]
pub struct ConnectionKey {
    pub id: String,
    pub serial: u64,
}

/// The names of the complete refs among `statuses`.
pub open spec fn complete_names(statuses: Seq<RefStatus>) -> Set<Seq<char>> {
    Set::new(
        |n: Seq<char>|
            exists|i: int|
                0 <= i < statuses.len() && (#[trigger] statuses[i]).total > 0 && statuses[i].held
                    >= statuses[i].total && statuses[i].name@ == n,
    )
}

/// The refs complete now, sorted, and those among them that were not
/// complete before, sorted.
pub fn newly_complete(previous: &Vec<String>, statuses: &Vec<RefStatus>) -> (r: (Vec<String>, Vec<String>))
    ensures
        names_increasing(string_views(r.0@)),
        string_views(r.0@).to_set() == complete_names(statuses@),
        names_increasing(string_views(r.1@)),
        string_views(r.1@).to_set() == complete_names(statuses@).filter(
            |n: Seq<char>| !string_views(previous@).contains(n),
        ),
{
    let mut complete: Vec<String> = Vec::new();
    let mut i: usize = 0;
    assert(string_views(complete@) =~= Seq::<Seq<char>>::empty());
    while i < statuses.len()
        invariant
            i <= statuses.len(),
            names_increasing(string_views(complete@)),
            forall|n: Seq<char>|
                #[trigger] string_views(complete@).to_set().contains(n) <==> exists|a: int|
                    0 <= a < i && (#[trigger] statuses@[a]).total > 0 && statuses@[a].held
                        >= statuses@[a].total && statuses@[a].name@ == n,
        decreases statuses.len() - i,
    {
        let ghost before = string_views(complete@).to_set();
        if statuses[i].complete() {
            insert_name(&mut complete, statuses[i].name.clone());
        }
        assert forall|n: Seq<char>|
            #[trigger] string_views(complete@).to_set().contains(n) <==> exists|a: int|
                0 <= a < i + 1 && (#[trigger] statuses@[a]).total > 0 && statuses@[a].held
                    >= statuses@[a].total && statuses@[a].name@ == n by {
            if exists|a: int|
                0 <= a < i + 1 && (#[trigger] statuses@[a]).total > 0 && statuses@[a].held
                    >= statuses@[a].total && statuses@[a].name@ == n {
                let a = choose|a: int|
                    0 <= a < i + 1 && (#[trigger] statuses@[a]).total > 0 && statuses@[a].held
                        >= statuses@[a].total && statuses@[a].name@ == n;
                if a < i {
                    assert(before.contains(n));
                }
            }
        }
        i = i + 1;
    }
    assert(string_views(complete@).to_set() =~= complete_names(statuses@));
    let ghost prev = string_views(previous@);
    let mut fresh: Vec<String> = Vec::new();
    let mut k: usize = 0;
    assert(string_views(fresh@) =~= Seq::<Seq<char>>::empty());
    while k < complete.len()
        invariant
            k <= complete.len(),
            prev == string_views(previous@),
            names_increasing(string_views(complete@)),
            names_increasing(string_views(fresh@)),
            forall|n: Seq<char>|
                #[trigger] string_views(fresh@).to_set().contains(n) <==> exists|a: int|
                    0 <= a < k && (#[trigger] string_views(complete@)[a]) == n && !prev.contains(n),
        decreases complete.len() - k,
    {
        let ghost before = string_views(fresh@).to_set();
        let ghost cur = complete@[k as int]@;
        assert(string_views(complete@)[k as int] == cur);
        let seen = holds_text(previous, complete[k].as_str());
        proof {
            if seen {
                let w = choose|w: int| 0 <= w < previous@.len() && (#[trigger] previous@[w])@ == cur;
                assert(prev[w] == cur);
            }
            if prev.contains(cur) {
                let w = choose|w: int| 0 <= w < prev.len() && prev[w] == cur;
                assert(previous@[w]@ == cur);
            }
        }
        if !seen {
            insert_name(&mut fresh, complete[k].clone());
        }
        assert forall|n: Seq<char>|
            #[trigger] string_views(fresh@).to_set().contains(n) <==> exists|a: int|
                0 <= a < k + 1 && (#[trigger] string_views(complete@)[a]) == n && !prev.contains(n) by {
            if exists|a: int|
                0 <= a < k + 1 && (#[trigger] string_views(complete@)[a]) == n && !prev.contains(n) {
                let a = choose|a: int|
                    0 <= a < k + 1 && (#[trigger] string_views(complete@)[a]) == n && !prev.contains(n);
                if a < k {
                    assert(before.contains(n));
                }
            }
        }
        k = k + 1;
    }
    assert forall|n: Seq<char>| #[trigger] string_views(fresh@).to_set().contains(n) <==> complete_names(
        statuses@,
    ).filter(|m: Seq<char>| !prev.contains(m)).contains(n) by {
        if complete_names(statuses@).contains(n) {
            assert(string_views(complete@).to_set().contains(n));
            let a = choose|a: int| 0 <= a < string_views(complete@).len() && string_views(complete@)[a] == n;
        }
        if string_views(fresh@).to_set().contains(n) {
            let a = choose|a: int|
                0 <= a < complete.len() && (#[trigger] string_views(complete@)[a]) == n && !prev.contains(n);
            assert(string_views(complete@).to_set().contains(n));
        }
    }
    assert(string_views(fresh@).to_set() =~= complete_names(statuses@).filter(
        |m: Seq<char>| !prev.contains(m),
    ));
    (complete, fresh)
}

/// How long ago `then` was at `now`, in the largest whole unit: "just now"
/// under two seconds or when `then` lies ahead, else seconds, minutes,
/// hours or days.
pub open spec fn age_text(then: u128, now: u128) -> Seq<char> {
    if now < then {
        "just now"@
    } else {
        let seconds = (now - then) / 1_000_000_000;
        if seconds < 2 {
            "just now"@
        } else if seconds < 60 {
            dec_text(seconds as nat) + "s ago"@
        } else if seconds < 3600 {
            dec_text((seconds / 60) as nat) + "m ago"@
        } else if seconds < 86_400 {
            dec_text((seconds / 3600) as nat) + "h ago"@
        } else {
            dec_text((seconds / 86_400) as nat) + "d ago"@
        }
    }
}

/// How long ago `then` was at `now`; times in nanoseconds.
pub fn format_age(then: u128, now: u128) -> (s: String)
    ensures
        s@ == age_text(then, now),
{
    if now < then {
        return owned("just now");
    }
    let seconds = (now - then) / 1_000_000_000;
    if seconds < 2 {
        owned("just now")
    } else {
        let (n, unit) = if seconds < 60 {
            (seconds, "s ago")
        } else if seconds < 3600 {
            (seconds / 60, "m ago")
        } else if seconds < 86_400 {
            (seconds / 3600, "h ago")
        } else {
            (seconds / 86_400, "d ago")
        };
        let mut v = crate::lex::decimal_wide(n);
        append(&mut v, &chars_of(unit));
        string_of(&v)
    }
}

/// The step between neighbouring doubles around `n`: one below 2^53, and
/// doubling with each further bit.
pub open spec fn float_unit(n: nat) -> nat
    decreases n,
{
    if n < 0x20_0000_0000_0000 {
        1
    } else {
        2 * float_unit(n / 2)
    }
}

/// `a / b` rounded to the nearest integer, a tie going to the even one.
pub open spec fn round_even(a: nat, b: nat) -> nat
    recommends
        b > 0,
{
    let q = a / b;
    let r = a % b;
    if 2 * r > b || (2 * r == b && q % 2 == 1) {
        q + 1
    } else {
        q
    }
}

/// The double nearest to `n`, a tie going to the even significand: the
/// value `n as f64` holds.
pub open spec fn as_double(n: nat) -> nat {
    round_even(n, float_unit(n)) * float_unit(n)
}

/// `n` hundredths written with two decimals.
pub open spec fn hundredths(n: nat) -> Seq<char> {
    dec_text(n / 100) + "."@ + (if n % 100 < 10 {
        "0"@ + dec_text(n % 100)
    } else {
        dec_text(n % 100)
    })
}

/// `n` tenths written with one decimal.
pub open spec fn tenths(n: nat) -> Seq<char> {
    dec_text(n / 10) + "."@ + dec_text(n % 10)
}

/// A byte count for people: bytes below a KiB; KiB with one decimal below
/// a MiB; MiB with two decimals below a GiB; GiB with two decimals. The
/// decimals are those of the count as a double, rounded to nearest with
/// ties to even.
pub open spec fn bytes_text(bytes: u64) -> Seq<char> {
    if bytes >= 0x4000_0000 {
        hundredths(round_even(as_double(bytes as nat) * 100, 0x4000_0000)) + " GiB"@
    } else if bytes >= 0x10_0000 {
        hundredths(round_even(bytes as nat * 100, 0x10_0000)) + " MiB"@
    } else if bytes >= 1024 {
        tenths(round_even(bytes as nat * 10, 1024)) + " KiB"@
    } else {
        dec_text(bytes as nat) + " B"@
    }
}

fn rounded(a: u128, b: u128) -> (r: u128)
    requires
        0 < b < 0x1_0000_0000_0000_0000,
        a < 0x1_0000_0000_0000_0000_0000_0000,
    ensures
        r == round_even(a as nat, b as nat),
        r <= a / b + 1,
{
    let q = a / b;
    let m = a % b;
    if 2 * m > b || (2 * m == b && q % 2 == 1) {
        q + 1
    } else {
        q
    }
}

/// `n` as the double nearest to it.
fn double_of(n: u64) -> (v: u128)
    ensures
        v == as_double(n as nat),
        v <= 0x2_0000_0000_0000_0000,
{
    let mut u: u64 = 1;
    let mut m: u64 = n;
    while m >= 0x20_0000_0000_0000
        invariant
            0 < u < 0x1000,
            m as nat == (n as nat) / (u as nat),
            float_unit(n as nat) == u * float_unit(m as nat),
        decreases m,
    {
        let ghost f = float_unit((m / 2) as nat);
        proof {
            assert(float_unit(m as nat) == 2 * f);
            vstd::arithmetic::div_mod::lemma_div_denominator(n as int, u as int, 2);
            vstd::arithmetic::div_mod::lemma_fundamental_div_mod(n as int, u as int);
            assert(u < 0x800) by (nonlinear_arith)
                requires
                    (u as int) * (m as int) <= n as int,
                    m >= 0x20_0000_0000_0000,
                    n < 0x1_0000_0000_0000_0000,
                    u > 0,
            {
            }
            assert(u * (2 * f) == (2 * u) * f) by (nonlinear_arith);
        }
        m = m / 2;
        u = u * 2;
    }
    proof {
        let fm = float_unit(m as nat);
        assert(fm == 1);
        assert(u * fm == u) by (nonlinear_arith)
            requires
                fm == 1,
        {
        }
    }
    assert(float_unit(n as nat) == u as nat);
    let r = rounded(n as u128, u as u128);
    proof {
        assert(r <= 0x1_0000_0000_0000_0001);
        assert(r * (u as nat) <= 0x2_0000_0000_0000_0000) by (nonlinear_arith)
            requires
                r as nat <= (n as nat) / (u as nat) + 1,
                0 < u < 0x1000,
                n < 0x1_0000_0000_0000_0000,
        {
            vstd::arithmetic::div_mod::lemma_fundamental_div_mod(n as int, u as int);
        }
    }
    r * (u as u128)
}

/// A byte count for people.
pub fn format_bytes(bytes: u64) -> (s: String)
    ensures
        s@ == bytes_text(bytes),
{
    proof {
        reveal_strlit(" GiB");
        reveal_strlit(" MiB");
        reveal_strlit(" KiB");
        reveal_strlit(" B");
        reveal_strlit(".");
    }
    if bytes >= 0x4000_0000 {
        let n = rounded(double_of(bytes) * 100, 0x4000_0000);
        let mut t = hundredths_of(n);
        append(&mut t, &chars_of(" GiB"));
        string_of(&t)
    } else if bytes >= 0x10_0000 {
        let n = rounded((bytes as u128) * 100, 0x10_0000);
        let mut t = hundredths_of(n);
        append(&mut t, &chars_of(" MiB"));
        string_of(&t)
    } else if bytes >= 1024 {
        let n = rounded((bytes as u128) * 10, 1024);
        let mut t = crate::lex::decimal_wide(n / 10);
        t.push('.');
        append(&mut t, &crate::lex::decimal_wide(n % 10));
        append(&mut t, &chars_of(" KiB"));
        string_of(&t)
    } else {
        let mut t = decimal(bytes);
        append(&mut t, &chars_of(" B"));
        string_of(&t)
    }
}

fn hundredths_of(n: u128) -> (t: Vec<char>)
    ensures
        t@ == hundredths(n as nat),
{
    let mut t = crate::lex::decimal_wide(n / 100);
    t.push('.');
    if n % 100 < 10 {
        t.push('0');
    }
    append(&mut t, &crate::lex::decimal_wide(n % 100));
    proof {
        reveal_strlit(".");
        reveal_strlit("0");
    }
    t
}

} // verus!
