//! The text a node shows of its peers and refs.
use vstd::prelude::*;
use crate::lex::{dec_text, decimal, decimal_wide};
use crate::mesh::string_views;
use crate::peers::{
    LinkState, PathKind, RefStatus, link_label, path_label, any_starts, bytes_text, age_text, format_bytes,
    format_age,
};
use crate::registry::{PeerSnapshot, SnapshotV, DiscoveryV, opt_text};
use crate::text::{chars_of, string_of, append, owned};

verus! {

/// The texts `parts` with `sep` between each two.
pub open spec fn joined(parts: Seq<Seq<char>>, sep: Seq<char>) -> Seq<char>
    decreases parts.len(),
{
    if parts.len() == 0 {
        Seq::empty()
    } else if parts.len() == 1 {
        parts[0]
    } else {
        joined(parts.drop_last(), sep) + sep + parts.last()
    }
}

/// The strings `parts` with `sep` between each two.
pub fn join(parts: &Vec<String>, sep: &str) -> (s: String)
    ensures
        s@ == joined(string_views(parts@), sep@),
{
    let ghost ps = string_views(parts@);
    let mut v: Vec<char> = Vec::new();
    let mut i: usize = 0;
    assert(ps.take(0) =~= Seq::<Seq<char>>::empty());
    while i < parts.len()
        invariant
            i <= parts.len(),
            ps == string_views(parts@),
            v@ == joined(ps.take(i as int), sep@),
        decreases parts.len() - i,
    {
        assert(ps.take(i + 1).drop_last() =~= ps.take(i as int));
        assert(ps.take(i + 1).last() == parts@[i as int]@);
        if i > 0 {
            append(&mut v, &chars_of(sep));
        } else {
            assert(ps.take(1) =~= seq![parts@[0]@]);
        }
        append(&mut v, &chars_of(parts[i].as_str()));
        i = i + 1;
    }
    assert(ps.take(i as int) =~= ps);
    string_of(&v)
}

/// How the node learned of a peer, in words.
pub open spec fn discovery_label(d: DiscoveryV) -> Seq<char> {
    match d {
        DiscoveryV::Ticket => "scanned ticket"@,
        DiscoveryV::Inbound => "dialed us"@,
        DiscoveryV::Remembered => "remembered from the last run"@,
        DiscoveryV::Gossip(from) => "introduced by "@ + short(from),
    }
}

/// The first twelve characters of an id.
pub open spec fn short(id: Seq<char>) -> Seq<char> {
    if id.len() <= 12 {
        id
    } else {
        id.take(12)
    }
}

/// The kind of path the active addresses take.
pub open spec fn path_of(addrs: Seq<Seq<char>>) -> PathKind {
    let direct = any_starts(addrs, "direct"@);
    let relay = any_starts(addrs, "relay"@);
    if direct && relay {
        PathKind::Mixed
    } else if direct {
        PathKind::Direct
    } else if relay {
        PathKind::Relay
    } else {
        PathKind::Unknown
    }
}

/// What passed between us and a peer: served, fetched from, both or neither.
pub open spec fn roles_text(p: SnapshotV) -> Seq<char> {
    if p.we_served_them && p.we_fetched_from_them {
        "served+fetched from"@
    } else if p.we_served_them {
        "served"@
    } else if p.we_fetched_from_them {
        "fetched from"@
    } else {
        Seq::empty()
    }
}

/// `line` alone when `present`, else nothing.
pub open spec fn line_if(present: bool, line: Seq<char>) -> Seq<Seq<char>> {
    if present {
        seq![line]
    } else {
        Seq::empty()
    }
}

/// One line per text, each behind `head`.
pub open spec fn lines_behind(head: Seq<char>, texts: Seq<Seq<char>>) -> Seq<Seq<char>> {
    Seq::new(texts.len(), |i: int| head + texts[i])
}

/// The first line that shows a peer: its short id, roles, link, path and how it was found.
pub open spec fn head_line(p: SnapshotV) -> Seq<char> {
    "  "@ + short(p.id) + " ["@ + roles_text(p) + "] "@ + link_label(p.state) + " via "@ + path_label(
        path_of(p.active_addrs),
    ) + " — "@ + discovery_label(p.discovery)
}

pub open spec fn failure_lines(p: SnapshotV) -> Seq<Seq<char>> {
    line_if(
        p.dial_failures > 0,
        "    dial failures: "@ + dec_text(p.dial_failures as nat) + " ("@ + (match p.last_dial_error {
            Some(e) => e,
            None => "unknown"@,
        }) + ")"@,
    )
}

pub open spec fn advert_lines(p: SnapshotV) -> Seq<Seq<char>> {
    line_if(p.refs_advertised.len() > 0, "    advertises: "@ + joined(p.refs_advertised, ", "@))
}

pub open spec fn wire_lines(p: SnapshotV) -> Seq<Seq<char>> {
    line_if(
        p.wire_bytes_known,
        "    wire: sent "@ + bytes_text(p.wire_bytes_sent) + " / recv "@ + bytes_text(p.wire_bytes_received)
            + " over "@ + dec_text(p.total_connections as nat) + " connection(s)"@,
    )
}

pub open spec fn payload_lines(p: SnapshotV) -> Seq<Seq<char>> {
    line_if(p.payload_bytes_received > 0, "    payload received: "@ + bytes_text(p.payload_bytes_received))
}

pub open spec fn rtt_lines(rtt_ms: Option<Seq<char>>) -> Seq<Seq<char>> {
    line_if(rtt_ms is Some, "    rtt: "@ + rtt_ms->0 + "ms"@)
}

pub open spec fn origin_lines(p: SnapshotV) -> Seq<Seq<char>> {
    line_if(p.introduced_by_ref is Some, "    ref: "@ + p.introduced_by_ref->0) + line_if(
        p.outcome is Some,
        "    outcome: "@ + p.outcome->0,
    )
}

/// The lines that show a peer at `now`; the round trip time, when one was
/// measured, comes as its text in milliseconds.
pub open spec fn peer_text(p: SnapshotV, rtt_ms: Option<Seq<char>>, now: u128) -> Seq<Seq<char>> {
    seq![head_line(p)] + failure_lines(p) + advert_lines(p) + wire_lines(p) + payload_lines(p) + rtt_lines(rtt_ms)
        + lines_behind("    active: "@, p.active_addrs) + lines_behind("    inactive: "@, p.inactive_addrs)
        + origin_lines(p) + seq!["    last activity: "@ + age_text(p.last_activity, now)]
}

fn push_line(lines: &mut Vec<String>, v: Vec<char>)
    ensures
        string_views(final(lines)@) == string_views(old(lines)@).push(v@),
{
    let ghost before = string_views(lines@);
    lines.push(string_of(&v));
    assert(string_views(lines@) =~= before.push(v@));
}

fn push_behind(lines: &mut Vec<String>, head: &str, texts: &Vec<String>)
    ensures
        string_views(final(lines)@) == string_views(old(lines)@) + lines_behind(head@, string_views(texts@)),
{
    let ghost before = string_views(lines@);
    let mut i: usize = 0;
    while i < texts.len()
        invariant
            i <= texts.len(),
            string_views(lines@) == before + lines_behind(head@, string_views(texts@)).take(i as int),
        decreases texts.len() - i,
    {
        let mut v = chars_of(head);
        append(&mut v, &chars_of(texts[i].as_str()));
        push_line(lines, v);
        assert(lines_behind(head@, string_views(texts@)).take(i + 1) =~= lines_behind(
            head@,
            string_views(texts@),
        ).take(i as int).push(head@ + texts@[i as int]@));
        i = i + 1;
    }
    assert(lines_behind(head@, string_views(texts@)).take(i as int) =~= lines_behind(head@, string_views(texts@)));
}

/// The lines that show a peer at `now`, given the text of its round trip
/// time in milliseconds when one was measured.
#[verifier::spinoff_prover]
#[verifier::rlimit(40)]
pub fn peer_lines(p: &PeerSnapshot, rtt_ms: Option<&str>, now: u128) -> (r: Vec<String>)
    ensures
        string_views(r@) == peer_text(
            p@,
            match rtt_ms {
                Some(t) => Some(t@),
                None => None,
            },
            now,
        ),
{
    proof {
        reveal_strlit("");
    }
    let ghost pv = p@;
    let ghost rv = match rtt_ms {
        Some(t) => Some(t@),
        None => None,
    };
    let mut lines: Vec<String> = Vec::new();
    assert(string_views(lines@) =~= Seq::<Seq<char>>::empty());
    let roles = if p.we_served_them && p.we_fetched_from_them {
        owned("served+fetched from")
    } else if p.we_served_them {
        owned("served")
    } else if p.we_fetched_from_them {
        owned("fetched from")
    } else {
        owned("")
    };
    let mut head = chars_of("  ");
    append(&mut head, &chars_of(p.short_id().as_str()));
    append(&mut head, &chars_of(" ["));
    append(&mut head, &chars_of(roles.as_str()));
    append(&mut head, &chars_of("] "));
    append(&mut head, &chars_of(p.state.label()));
    append(&mut head, &chars_of(" via "));
    append(&mut head, &chars_of(p.path_kind().label()));
    append(&mut head, &chars_of(" — "));
    append(&mut head, &chars_of(p.discovery.label().as_str()));
    assert(head@ == head_line(pv));
    push_line(&mut lines, head);
    let ghost acc = seq![head_line(pv)];
    assert(string_views(lines@) =~= acc);
    if p.dial_failures > 0 {
        let mut v = chars_of("    dial failures: ");
        append(&mut v, &decimal(p.dial_failures as u64));
        append(&mut v, &chars_of(" ("));
        match &p.last_dial_error {
            Some(e) => append(&mut v, &chars_of(e.as_str())),
            None => append(&mut v, &chars_of("unknown")),
        }
        append(&mut v, &chars_of(")"));
        push_line(&mut lines, v);
    }
    let ghost acc = acc + failure_lines(pv);
    assert(string_views(lines@) =~= acc);
    if p.refs_advertised.len() > 0 {
        let mut v = chars_of("    advertises: ");
        append(&mut v, &chars_of(join(&p.refs_advertised, ", ").as_str()));
        push_line(&mut lines, v);
    }
    let ghost acc = acc + advert_lines(pv);
    assert(string_views(lines@) =~= acc);
    if p.wire_bytes_known {
        let mut v = chars_of("    wire: sent ");
        append(&mut v, &chars_of(format_bytes(p.wire_bytes_sent).as_str()));
        append(&mut v, &chars_of(" / recv "));
        append(&mut v, &chars_of(format_bytes(p.wire_bytes_received).as_str()));
        append(&mut v, &chars_of(" over "));
        append(&mut v, &decimal(p.total_connections));
        append(&mut v, &chars_of(" connection(s)"));
        push_line(&mut lines, v);
    }
    let ghost acc = acc + wire_lines(pv);
    assert(string_views(lines@) =~= acc);
    if p.payload_bytes_received > 0 {
        let mut v = chars_of("    payload received: ");
        append(&mut v, &chars_of(format_bytes(p.payload_bytes_received).as_str()));
        push_line(&mut lines, v);
    }
    let ghost acc = acc + payload_lines(pv);
    assert(string_views(lines@) =~= acc);
    match rtt_ms {
        Some(t) => {
            let mut v = chars_of("    rtt: ");
            append(&mut v, &chars_of(t));
            append(&mut v, &chars_of("ms"));
            push_line(&mut lines, v);
        },
        None => {},
    }
    let ghost acc = acc + rtt_lines(rv);
    assert(string_views(lines@) =~= acc);
    push_behind(&mut lines, "    active: ", &p.active_addrs);
    push_behind(&mut lines, "    inactive: ", &p.inactive_addrs);
    let ghost acc = acc + lines_behind("    active: "@, pv.active_addrs) + lines_behind("    inactive: "@, pv.inactive_addrs);
    assert(string_views(lines@) =~= acc);
    match &p.introduced_by_ref {
        Some(name) => {
            let mut v = chars_of("    ref: ");
            append(&mut v, &chars_of(name.as_str()));
            push_line(&mut lines, v);
        },
        None => {},
    }
    match &p.outcome {
        Some(o) => {
            let mut v = chars_of("    outcome: ");
            append(&mut v, &chars_of(o.as_str()));
            push_line(&mut lines, v);
        },
        None => {},
    }
    let ghost acc = acc + origin_lines(pv);
    assert(string_views(lines@) =~= acc);
    let mut v = chars_of("    last activity: ");
    append(&mut v, &chars_of(format_age(p.last_activity, now).as_str()));
    push_line(&mut lines, v);
    assert(string_views(lines@) =~= peer_text(pv, rv, now));
    lines
}

/// The status line of a ref: missing, complete with its blob count, or
/// partial with both counts.
pub open spec fn status_label(s: RefStatus) -> Seq<char> {
    if s.total == 0 {
        s.name@ + " — missing"@
    } else if s.held >= s.total {
        s.name@ + " — complete ("@ + dec_text(s.total as nat) + " blobs)"@
    } else {
        s.name@ + " — partial ("@ + dec_text(s.held as nat) + "/"@ + dec_text(s.total as nat) + ")"@
    }
}

/// The short ids of the providers of a ref.
pub open spec fn short_ids(ids: Seq<Seq<char>>) -> Seq<Seq<char>> {
    Seq::new(ids.len(), |i: int| short(ids[i]))
}

/// The lines that show a ref: its status, then who holds it complete.
pub open spec fn ref_text(s: RefStatus) -> Seq<Seq<char>> {
    seq!["  "@ + status_label(s)] + line_if(
        s.providers@.len() > 0,
        "    complete on: "@ + joined(short_ids(string_views(s.providers@)), ", "@),
    )
}

/// The lines that show a ref.
pub fn ref_lines(s: &RefStatus) -> (r: Vec<String>)
    ensures
        string_views(r@) == ref_text(*s),
{
    let mut lines: Vec<String> = Vec::new();
    assert(string_views(lines@) =~= Seq::<Seq<char>>::empty());
    let mut v = chars_of("  ");
    append(&mut v, &chars_of(s.label().as_str()));
    push_line(&mut lines, v);
    if s.providers.len() > 0 {
        let mut names: Vec<String> = Vec::new();
        let mut i: usize = 0;
        while i < s.providers.len()
            invariant
                i <= s.providers.len(),
                names.len() == i,
                forall|j: int| 0 <= j < i ==> #[trigger] names@[j]@ == short(s.providers@[j]@),
            decreases s.providers.len() - i,
        {
            names.push(crate::peers::short_id(s.providers[i].as_str()));
            i = i + 1;
        }
        assert(string_views(names@) =~= short_ids(string_views(s.providers@)));
        let mut w = chars_of("    complete on: ");
        append(&mut w, &chars_of(join(&names, ", ").as_str()));
        push_line(&mut lines, w);
    }
    assert(string_views(lines@) =~= ref_text(*s));
    lines
}

/// What changes in how a peer shows: its id, byte counts, link and active addresses.
pub open spec fn peer_print(p: SnapshotV) -> Seq<char> {
    p.id + ":"@ + dec_text(p.wire_bytes_sent as nat) + ":"@ + dec_text(p.wire_bytes_received as nat) + ":"@
        + dec_text(p.payload_bytes_received as nat) + ":"@ + link_label(p.state) + ":"@ + joined(
        p.active_addrs,
        ","@,
    )
}

pub open spec fn snapshot_views(s: Seq<PeerSnapshot>) -> Seq<SnapshotV> {
    Seq::new(s.len(), |i: int| s[i]@)
}

/// A text that changes when how the peers show changes.
pub fn fingerprint(snapshot: &Vec<PeerSnapshot>) -> (s: String)
    ensures
        s@ == joined(Seq::new(snapshot@.len(), |i: int| peer_print(snapshot@[i]@)), "|"@),
{
    let mut parts: Vec<String> = Vec::new();
    let mut i: usize = 0;
    while i < snapshot.len()
        invariant
            i <= snapshot.len(),
            parts.len() == i,
            forall|j: int| 0 <= j < i ==> #[trigger] parts@[j]@ == peer_print(snapshot@[j]@),
        decreases snapshot.len() - i,
    {
        let p = &snapshot[i];
        let mut v = chars_of(p.id.as_str());
        v.push(':');
        append(&mut v, &decimal(p.wire_bytes_sent));
        v.push(':');
        append(&mut v, &decimal(p.wire_bytes_received));
        v.push(':');
        append(&mut v, &decimal(p.payload_bytes_received));
        v.push(':');
        append(&mut v, &chars_of(p.state.label()));
        v.push(':');
        append(&mut v, &chars_of(join(&p.active_addrs, ",").as_str()));
        proof {
            reveal_strlit(":");
        }
        assert(v@ =~= peer_print(p@));
        parts.push(string_of(&v));
        i = i + 1;
    }
    assert(string_views(parts@) =~= Seq::new(snapshot@.len(), |i: int| peer_print(snapshot@[i]@)));
    join(&parts, "|")
}

/// What changes in how a ref shows: its name, counts and providers.
pub open spec fn ref_print(s: RefStatus) -> Seq<char> {
    s.name@ + ":"@ + dec_text(s.held as nat) + ":"@ + dec_text(s.total as nat) + ":"@ + joined(
        string_views(s.providers@),
        ","@,
    )
}

/// A text that changes when how the refs show changes.
pub fn ref_fingerprint(refs: &Vec<RefStatus>) -> (s: String)
    ensures
        s@ == joined(Seq::new(refs@.len(), |i: int| ref_print(refs@[i])), "|"@),
{
    let mut parts: Vec<String> = Vec::new();
    let mut i: usize = 0;
    while i < refs.len()
        invariant
            i <= refs.len(),
            parts.len() == i,
            forall|j: int| 0 <= j < i ==> #[trigger] parts@[j]@ == ref_print(refs@[j]),
        decreases refs.len() - i,
    {
        let r = &refs[i];
        let mut v = chars_of(r.name.as_str());
        v.push(':');
        append(&mut v, &decimal(r.held as u64));
        v.push(':');
        append(&mut v, &decimal(r.total as u64));
        v.push(':');
        append(&mut v, &chars_of(join(&r.providers, ",").as_str()));
        proof {
            reveal_strlit(":");
        }
        assert(v@ =~= ref_print(*r));
        parts.push(string_of(&v));
        i = i + 1;
    }
    assert(string_views(parts@) =~= Seq::new(refs@.len(), |i: int| ref_print(refs@[i])));
    join(&parts, "|")
}

/// The lines of a report: the peers, each shown at `now` with the text of
/// its round trip time, then the refs.
pub open spec fn report_text(
    snapshot: Seq<SnapshotV>,
    rtts: Seq<Option<Seq<char>>>,
    refs: Seq<RefStatus>,
    now: u128,
) -> Seq<Seq<char>> {
    seq!["-- peers --"@] + peers_text(snapshot, rtts, now) + seq!["-- refs --"@] + refs_text(refs)
}

pub open spec fn peers_text(snapshot: Seq<SnapshotV>, rtts: Seq<Option<Seq<char>>>, now: u128) -> Seq<Seq<char>>
    decreases snapshot.len(),
{
    if snapshot.len() == 0 {
        Seq::empty()
    } else {
        peers_text(snapshot.drop_last(), rtts.drop_last(), now) + peer_text(snapshot.last(), rtts.last(), now)
    }
}

pub open spec fn refs_text(refs: Seq<RefStatus>) -> Seq<Seq<char>>
    decreases refs.len(),
{
    if refs.len() == 0 {
        Seq::empty()
    } else {
        refs_text(refs.drop_last()) + ref_text(refs.last())
    }
}

pub open spec fn opt_views(v: Seq<Option<String>>) -> Seq<Option<Seq<char>>> {
    Seq::new(v.len(), |i: int| opt_text(v[i]))
}

/// The lines of a report on the peers and refs; `rtts` holds, for each peer,
/// the text of its round trip time in milliseconds when one was measured.
#[verifier::spinoff_prover]
#[verifier::rlimit(40)]
pub fn report_lines(snapshot: &Vec<PeerSnapshot>, rtts: &Vec<Option<String>>, refs: &Vec<RefStatus>, now: u128) -> (r: Vec<String>)
    requires
        rtts.len() == snapshot.len(),
    ensures
        string_views(r@) == report_text(snapshot_views(snapshot@), opt_views(rtts@), refs@, now),
{
    let ghost sv = snapshot_views(snapshot@);
    let ghost ov = opt_views(rtts@);
    let mut lines: Vec<String> = Vec::new();
    lines.push(owned("-- peers --"));
    assert(string_views(lines@) =~= seq!["-- peers --"@]);
    let ghost base = string_views(lines@);
    let mut i: usize = 0;
    assert(sv.take(0) =~= Seq::<SnapshotV>::empty());
    assert(base + peers_text(sv.take(0), ov.take(0), now) =~= base);
    while i < snapshot.len()
        invariant
            i <= snapshot.len(),
            rtts.len() == snapshot.len(),
            sv == snapshot_views(snapshot@),
            ov == opt_views(rtts@),
            string_views(lines@) == base + peers_text(sv.take(i as int), ov.take(i as int), now),
        decreases snapshot.len() - i,
    {
        assert(sv.take(i + 1).drop_last() =~= sv.take(i as int));
        assert(ov.take(i + 1).drop_last() =~= ov.take(i as int));
        assert(sv.take(i + 1).last() == snapshot@[i as int]@);
        assert(ov.take(i + 1).last() == opt_text(rtts@[i as int]));
        let rtt: Option<&str> = match &rtts[i] {
            Some(t) => Some(t.as_str()),
            None => None,
        };
        let more = peer_lines(&snapshot[i], rtt, now);
        let ghost before = string_views(lines@);
        let mut k: usize = 0;
        while k < more.len()
            invariant
                k <= more.len(),
                string_views(lines@) == before + string_views(more@).take(k as int),
            decreases more.len() - k,
        {
            let ghost mid = string_views(lines@);
            lines.push(more[k].clone());
            assert(string_views(lines@) =~= mid.push(more@[k as int]@));
            assert(string_views(more@).take(k + 1) =~= string_views(more@).take(k as int).push(more@[k as int]@));
            k = k + 1;
        }
        assert(string_views(more@).take(k as int) =~= string_views(more@));
        assert(string_views(lines@) =~= base + peers_text(sv.take(i + 1), ov.take(i + 1), now));
        i = i + 1;
    }
    assert(sv.take(i as int) =~= sv);
    assert(ov.take(i as int) =~= ov);
    let ghost mid = string_views(lines@);
    lines.push(owned("-- refs --"));
    assert(string_views(lines@) =~= mid.push("-- refs --"@));
    let ghost base2 = string_views(lines@);
    let mut j: usize = 0;
    assert(refs@.take(0) =~= Seq::<RefStatus>::empty());
    assert(base2 + refs_text(refs@.take(0)) =~= base2);
    while j < refs.len()
        invariant
            j <= refs.len(),
            string_views(lines@) == base2 + refs_text(refs@.take(j as int)),
        decreases refs.len() - j,
    {
        assert(refs@.take(j + 1).drop_last() =~= refs@.take(j as int));
        let more = ref_lines(&refs[j]);
        let ghost before = string_views(lines@);
        let mut k: usize = 0;
        while k < more.len()
            invariant
                k <= more.len(),
                string_views(lines@) == before + string_views(more@).take(k as int),
            decreases more.len() - k,
        {
            let ghost m2 = string_views(lines@);
            lines.push(more[k].clone());
            assert(string_views(lines@) =~= m2.push(more@[k as int]@));
            assert(string_views(more@).take(k + 1) =~= string_views(more@).take(k as int).push(more@[k as int]@));
            k = k + 1;
        }
        assert(string_views(more@).take(k as int) =~= string_views(more@));
        assert(string_views(lines@) =~= base2 + refs_text(refs@.take(j + 1)));
        j = j + 1;
    }
    assert(refs@.take(j as int) =~= refs@);
    assert(string_views(lines@) =~= report_text(sv, ov, refs@, now));
    lines
}

} // verus!
