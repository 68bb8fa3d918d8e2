//! Device records: a device's signed consent to serve a group, and the group
//! collection that lists the devices a group admitted.
use vstd::prelude::*;
use crate::cbor::{Value, Data, data_list, data_pairs, lemma_data_list, lemma_data_list_push};
use crate::canonical::{self, CanonError, canon, canonical_bytes};
use crate::record::{
    Cir, RecordV, canon_ok, record_data, opt_text_data, text_opt, CIR_KIND, text_fits, text_fits_str, entry_ok, lemma_table_ok,
    lemma_ascii_fits, lemma_hex_text_fits, lemma_opt_push_ok,
};
use crate::address::CiHash;
use crate::identity::{
    self, Dgid, Identity, Signature, parse_dgid, dgid_prefix, ed25519_public, ed25519_signature,
    ed25519_accepts,
};
use crate::hex::{self, hex_of, parse_hex, is_hex_digit, lemma_parse_hex_of};
use crate::text::{chars_of, string_of, starts_with, has_prefix, tail, trimmed, owned, append};
use crate::fields::{get, get_field, put, put_opt, text_of, opt_text_at, opt_push, opt_text_field, text_field};
use crate::collection::{dgid_text, dgid_at, dgid_field};
use crate::cli::texts;
use crate::store::blake3_digest;
use crate::record::read_record;
use crate::collection::{Item, ItemV, without_ci};
use crate::builder::{Builder, BuilderV, kind_set, item_added, item_removed, record_added, put_item};

verus! {

pub const DEVICE_KIND: &'static str = "device";

pub const GROUP_COLLECTION: &'static str = "device-group";

pub const NODE_PREFIX: &'static str = "nodeid:";

/// What a device offers to serve: the group, and optionally until when, in
/// which role and with which tags.
#[derive(Debug, Clone, PartialEq, Eq)]
pub struct Settings {
    pub dgid: Dgid,
    pub expires: Option<String>,
    pub role: Option<String>,
    pub tags: Vec<String>,
}

pub struct SettingsV {
    pub dgid: Seq<u8>,
    pub expires: Option<Seq<char>>,
    pub role: Option<Seq<char>>,
    pub tags: Seq<Seq<char>>,
}

impl View for Settings {
    type V = SettingsV;

    open spec fn view(&self) -> SettingsV {
        SettingsV {
            dgid: self.dgid@,
            expires: text_opt(self.expires),
            role: text_opt(self.role),
            tags: texts(self.tags@),
        }
    }
}

/// The tags as an array of texts; absent when there are none.
pub open spec fn tags_data(tags: Seq<Seq<char>>) -> Option<Data> {
    if tags.len() == 0 {
        None
    } else {
        Some(Data::Array(Seq::new(tags.len(), |i: int| Data::Text(tags[i]))))
    }
}

/// The settings as a map: the group, then the expiry and role when present,
/// then the tags when there are any.
pub open spec fn settings_data(s: SettingsV) -> Data {
    Data::Table(
        opt_push(
            opt_push(
                opt_push(
                    seq![(Data::Text("dgid"@), Data::Text(dgid_text(s.dgid)))],
                    "expires"@,
                    opt_text_data(s.expires),
                ),
                "role"@,
                opt_text_data(s.role),
            ),
            "tags"@,
            tags_data(s.tags),
        ),
    )
}

/// Settings encode without floats when their texts fit and their tags are
/// countable.
proof fn lemma_settings_ok(s: SettingsV)
    requires
        s.dgid.len() == 32,
        s.expires matches Some(t) ==> text_fits(t),
        s.role matches Some(t) ==> text_fits(t),
        s.tags.len() < crate::cbor::u64_lim(),
        forall|i: int| 0 <= i < s.tags.len() ==> text_fits(#[trigger] s.tags[i]),
    ensures
        canon_ok(settings_data(s)),
{
    reveal_strlit("dgid");
    reveal_strlit("expires");
    reveal_strlit("role");
    reveal_strlit("tags");
    lemma_ascii_fits("dgid"@);
    lemma_ascii_fits("expires"@);
    lemma_ascii_fits("role"@);
    lemma_ascii_fits("tags"@);
    lemma_hex_text_fits(crate::identity::dgid_prefix(), s.dgid);
    let e0 = seq![(Data::Text("dgid"@), Data::Text(dgid_text(s.dgid)))];
    assert(entry_ok(e0[0]));
    let e1 = opt_push(e0, "expires"@, opt_text_data(s.expires));
    lemma_opt_push_ok(e0, "expires"@, opt_text_data(s.expires));
    let e2 = opt_push(e1, "role"@, opt_text_data(s.role));
    lemma_opt_push_ok(e1, "role"@, opt_text_data(s.role));
    if s.tags.len() > 0 {
        let items = Seq::new(s.tags.len(), |i: int| Data::Text(s.tags[i]));
        crate::cbor::lemma_encodable_list(items);
        crate::canonical::lemma_has_float_list(items);
        assert forall|i: int| 0 <= i < items.len() implies crate::cbor::encodable(#[trigger] items[i]) by {
            assert(text_fits(s.tags[i]));
        }
    }
    lemma_opt_push_ok(e2, "tags"@, tags_data(s.tags));
    lemma_table_ok(settings_data(s)->Table_0);
}

/// The tags in the field `f`: none when absent, the texts of an array of texts.
pub open spec fn tags_at(f: Option<Data>) -> Option<Seq<Seq<char>>> {
    match f {
        None => Some(Seq::empty()),
        Some(Data::Array(items)) => if forall|i: int| 0 <= i < items.len() ==> #[trigger] items[i] is Text {
            Some(Seq::new(items.len(), |i: int| items[i]->Text_0))
        } else {
            None
        },
        _ => None,
    }
}

pub open spec fn decode_settings(d: Data) -> Option<SettingsV> {
    let dgid = dgid_at(get(d, "dgid"@));
    let expires = opt_text_at(get(d, "expires"@));
    let role = opt_text_at(get(d, "role"@));
    let tags = tags_at(get(d, "tags"@));
    if dgid is Some && expires is Some && role is Some && tags is Some {
        Some(SettingsV { dgid: dgid->0, expires: expires->0, role: role->0, tags: tags->0 })
    } else {
        None
    }
}

/// The bytes a device signs: the hash of the settings' canonical bytes.
pub open spec fn settings_scope(s: SettingsV) -> Seq<u8> {
    blake3_digest(canonical_bytes(settings_data(s)))
}

fn copy_strings(v: &Vec<String>) -> (c: Vec<String>)
    ensures
        texts(c@) == texts(v@),
{
    let mut c: Vec<String> = Vec::new();
    let mut i: usize = 0;
    while i < v.len()
        invariant
            i <= v.len(),
            c.len() == i,
            forall|j: int| 0 <= j < i ==> #[trigger] c@[j]@ == v@[j]@,
        decreases v.len() - i,
    {
        c.push(v[i].clone());
        i = i + 1;
    }
    assert(texts(c@) =~= texts(v@));
    c
}

impl Settings {
    /// Settings that offer the device to `dgid` with nothing more.
    pub fn for_group(dgid: Dgid) -> (s: Self)
        ensures
            s@ == (SettingsV { dgid: dgid@, expires: None, role: None, tags: Seq::empty() }),
    {
        let s = Settings { dgid, expires: None, role: None, tags: Vec::new() };
        assert(s@.tags =~= Seq::<Seq<char>>::empty());
        s
    }

    /// A copy of these settings.
    pub fn copy(&self) -> (c: Self)
        ensures
            c@ == self@,
    {
        let expires = match &self.expires {
            Some(e) => Some(e.clone()),
            None => None,
        };
        let role = match &self.role {
            Some(r) => Some(r.clone()),
            None => None,
        };
        Settings { dgid: self.dgid, expires, role, tags: copy_strings(&self.tags) }
    }

    /// The settings as a record map.
    pub fn to_value(&self) -> (v: Value)
        ensures
            v@ == settings_data(self@),
    {
        let mut e: Vec<(Value, Value)> = Vec::new();
        proof {
            assert(data_pairs(e@) =~= Seq::<(Data, Data)>::empty());
        }
        put(&mut e, "dgid", Value::Text(self.dgid.to_string()));
        let expires = match &self.expires {
            Some(x) => Some(Value::Text(x.clone())),
            None => None,
        };
        put_opt(&mut e, "expires", expires);
        let role = match &self.role {
            Some(x) => Some(Value::Text(x.clone())),
            None => None,
        };
        put_opt(&mut e, "role", role);
        let tags = if self.tags.len() == 0 {
            None
        } else {
            let mut items: Vec<Value> = Vec::new();
            let mut i: usize = 0;
            proof {
                assert(data_list(items@) =~= Seq::<Data>::empty());
            }
            while i < self.tags.len()
                invariant
                    i <= self.tags.len(),
                    data_list(items@) == Seq::new(i as nat, |j: int| Data::Text(self.tags@[j]@)),
                decreases self.tags.len() - i,
            {
                let t = Value::Text(self.tags[i].clone());
                proof {
                    lemma_data_list_push(items@, t);
                }
                items.push(t);
                i = i + 1;
                assert(data_list(items@) =~= Seq::new(i as nat, |j: int| Data::Text(self.tags@[j]@)));
            }
            assert(Seq::new(self.tags@.len(), |j: int| Data::Text(self.tags@[j]@)) =~= Seq::new(
                self@.tags.len(),
                |j: int| Data::Text(self@.tags[j]),
            ));
            Some(Value::Array(items))
        };
        put_opt(&mut e, "tags", tags);
        let ghost d = settings_data(self@);
        assert(data_pairs(e@) =~= d->Table_0);
        Value::Table(e)
    }

    /// The settings that the map `v` holds.
    pub fn from_value(v: &Value) -> (r: Option<Self>)
        ensures
            match r {
                Some(s) => decode_settings(v@) == Some(s@),
                None => decode_settings(v@) is None,
            },
    {
        let dgid = dgid_field(v, "dgid");
        let expires = opt_text_field(v, "expires");
        let role = opt_text_field(v, "role");
        let tags = read_tags(get_field(v, "tags"));
        match (dgid, expires, role, tags) {
            (Some(dgid), Some(expires), Some(role), Some(tags)) => Some(
                Settings { dgid, expires, role, tags },
            ),
            _ => None,
        }
    }

    /// Every text the settings hold fits, so their map encodes.
    fn fits(&self)
        ensures
            canon_ok(settings_data(self@)),
    {
        match &self.expires {
            Some(e) => text_fits_str(e.as_str()),
            None => {},
        }
        match &self.role {
            Some(e) => text_fits_str(e.as_str()),
            None => {},
        }
        let mut i: usize = 0;
        while i < self.tags.len()
            invariant
                i <= self.tags.len(),
                forall|j: int| 0 <= j < i ==> text_fits((#[trigger] self.tags@[j])@),
            decreases self.tags.len() - i,
        {
            text_fits_str(self.tags[i].as_str());
            i = i + 1;
        }
        let n = self.tags.len();
        proof {
            crate::identity::lemma_dgid_len(self.dgid);
            lemma_settings_ok(self@);
        }
    }

    /// The bytes a device signs for these settings.
    pub fn scope(&self) -> (r: Result<Vec<u8>, CanonError>)
        ensures
            match r {
                Ok(b) => canon_ok(settings_data(self@)) && b@ == settings_scope(self@),
                Err(_) => !canon_ok(settings_data(self@)),
            },
            r is Ok,
    {
        self.fits();
        let h = canonical::hash(&self.to_value())?;
        Ok(h.to_vec())
    }
}

/// The tags that the field `f` holds.
fn read_tags(f: Option<&Value>) -> (r: Option<Vec<String>>)
    ensures
        ({
            let d = match f {
                Some(x) => Some(x@),
                None => None,
            };
            match r {
                Some(t) => tags_at(d) == Some(texts(t@)),
                None => tags_at(d) is None,
            }
        }),
{
    let items = match f {
        None => {
            let t: Vec<String> = Vec::new();
            assert(texts(t@) =~= Seq::<Seq<char>>::empty());
            return Some(t);
        },
        Some(Value::Array(items)) => items,
        Some(_) => return None,
    };
    let ghost ds = data_list(items@);
    proof {
        lemma_data_list(items@);
    }
    assert(f matches Some(x) && x@ == Data::Array(ds));
    let mut out: Vec<String> = Vec::new();
    let mut i: usize = 0;
    while i < items.len()
        invariant
            i <= items.len(),
            ds == data_list(items@),
            ds.len() == items.len(),
            forall|j: int| 0 <= j < items.len() ==> #[trigger] ds[j] == items@[j]@,
            out.len() == i,
            forall|j: int| 0 <= j < i ==> (#[trigger] ds[j]) == Data::Text(out@[j]@),
            f matches Some(x) && x@ == Data::Array(ds),
        decreases items.len() - i,
    {
        match &items[i] {
            Value::Text(t) => {
                out.push(t.clone());
            },
            _ => {
                assert(!(ds[i as int] is Text));
                assert(!(forall|j: int| 0 <= j < ds.len() ==> #[trigger] ds[j] is Text));
                return None;
            },
        }
        i = i + 1;
    }
    assert(texts(out@) =~= Seq::new(ds.len(), |j: int| ds[j]->Text_0));
    Some(out)
}

/// A device's record: its signature over the settings, its node key, and the settings.
#[derive(Debug, Clone, PartialEq, Eq)]
pub struct Device {
    pub device_sig: Signature,
    pub pubkey: String,
    pub settings: Settings,
}

pub struct DeviceV {
    pub sig: Seq<u8>,
    pub pubkey: Seq<char>,
    pub settings: SettingsV,
}

impl View for Device {
    type V = DeviceV;

    open spec fn view(&self) -> DeviceV {
        DeviceV { sig: self.device_sig@, pubkey: self.pubkey@, settings: self.settings@ }
    }
}

pub open spec fn device_data(d: DeviceV) -> Data {
    Data::Table(
        seq![
            (Data::Text("device_sig"@), Data::Text(hex_of(d.sig))),
            (Data::Text("pubkey"@), Data::Text(d.pubkey)),
            (Data::Text("settings"@), settings_data(d.settings)),
        ],
    )
}

pub open spec fn decode_device(d: Data) -> Option<DeviceV> {
    let sig = match get(d, "device_sig"@) {
        Some(Data::Text(t)) => parse_hex(trimmed(t), 64),
        _ => None,
    };
    let pubkey = text_of(get(d, "pubkey"@));
    let settings = match get(d, "settings"@) {
        Some(x) => decode_settings(x),
        None => None,
    };
    if sig is Some && pubkey is Some && settings is Some {
        Some(DeviceV { sig: sig->0, pubkey: pubkey->0, settings: settings->0 })
    } else {
        None
    }
}

/// The node key text of a `pubkey`: what follows `nodeid:`, or all of it.
pub open spec fn node_text(pubkey: Seq<char>) -> Seq<char> {
    if starts_with(pubkey, NODE_PREFIX@) {
        pubkey.skip(NODE_PREFIX@.len() as int)
    } else {
        pubkey
    }
}

/// The node key a `pubkey` names.
pub open spec fn node_of(pubkey: Seq<char>) -> Option<Seq<u8>> {
    parse_dgid(node_text(pubkey))
}

/// Whether the record's node key signed its settings.
pub open spec fn device_verifies(d: DeviceV) -> bool {
    match node_of(d.pubkey) {
        Some(n) => canon_ok(settings_data(d.settings)) && ed25519_accepts(
            n,
            settings_scope(d.settings),
            d.sig,
        ),
        None => false,
    }
}

/// The record a device with the secret `secret` makes for `s`.
pub open spec fn signed_device(secret: Seq<u8>, s: SettingsV) -> DeviceV {
    DeviceV {
        sig: ed25519_signature(secret, settings_scope(s)),
        pubkey: NODE_PREFIX@ + hex_of(ed25519_public(secret)),
        settings: s,
    }
}

/// The identity record of the device record `d`.
pub open spec fn device_record(d: DeviceV) -> RecordV {
    RecordV { record: CIR_KIND@, kind: DEVICE_KIND@, body: canon(device_data(d)) }
}

/// A node key written behind `nodeid:` reads back as the key.
pub proof fn lemma_node_round_trip(key: Seq<u8>)
    requires
        key.len() == 32,
    ensures
        node_of(NODE_PREFIX@ + hex_of(key)) == Some(key),
        node_text(NODE_PREFIX@ + hex_of(key)) == hex_of(key),
{
    reveal_strlit("nodeid:");
    let h = hex_of(key);
    let t = NODE_PREFIX@ + h;
    assert(t.take(7) =~= NODE_PREFIX@);
    assert(t.skip(7) =~= h);
    crate::address::lemma_hex_chars(key);
    assert(is_hex_digit(h[0]));
    assert(is_hex_digit(h[63]));
    crate::text::lemma_trimmed_plain(h);
    assert(h[1] != 'g') by {
        assert(is_hex_digit(h[1]));
    }
    assert(!starts_with(h, dgid_prefix())) by {
        if starts_with(h, dgid_prefix()) {
            assert(h.take(5)[1] == dgid_prefix()[1]);
        }
    }
    lemma_parse_hex_of(key);
}

impl Device {
    /// The record in which `device` consents to `settings`.
    pub fn sign(device: &Identity, settings: Settings) -> (r: Result<Self, CanonError>)
        ensures
            match r {
                Ok(d) => d@ == signed_device(device.secret(), settings@) && device_verifies(d@),
                Err(_) => !canon_ok(settings_data(settings@)),
            },
            r is Ok,
    {
        let scope = settings.scope()?;
        let device_sig = device.sign(scope.as_slice());
        let key = device.dgid();
        let mut p = chars_of(NODE_PREFIX);
        append(&mut p, &hex::encode(key.as_bytes()));
        let pubkey = string_of(&p);
        proof {
            identity::lemma_dgid_len(key);
            lemma_node_round_trip(key@);
        }
        Ok(Device { device_sig, pubkey, settings })
    }

    /// A copy of this record.
    pub fn copy(&self) -> (c: Self)
        ensures
            c@ == self@,
    {
        Device { device_sig: self.device_sig, pubkey: self.pubkey.clone(), settings: self.settings.copy() }
    }

    /// The node key text: the `pubkey` without its `nodeid:` prefix.
    pub fn node_hex(&self) -> (s: String)
        ensures
            s@ == node_text(self.pubkey@),
    {
        let c = chars_of(self.pubkey.as_str());
        let p = chars_of(NODE_PREFIX);
        if has_prefix(&c, &p) {
            string_of(&tail(&c, p.len()))
        } else {
            owned(self.pubkey.as_str())
        }
    }

    /// The node key the record names.
    pub fn node_id(&self) -> (r: Option<[u8; 32]>)
        ensures
            match r {
                Some(k) => node_of(self.pubkey@) == Some(k@),
                None => node_of(self.pubkey@) is None,
            },
    {
        let t = self.node_hex();
        match Dgid::parse(t.as_str()) {
            Some(d) => Some(*d.as_bytes()),
            None => None,
        }
    }

    /// Whether the node key named by the record signed its settings.
    pub fn verify(&self) -> (ok: bool)
        ensures
            ok == device_verifies(self@),
    {
        let node_id = match self.node_id() {
            Some(n) => n,
            None => return false,
        };
        let scope = match self.settings.scope() {
            Ok(s) => s,
            Err(_) => return false,
        };
        identity::verify(Dgid::from_bytes(node_id), scope.as_slice(), self.device_sig)
    }

    /// The record as a map.
    pub fn to_value(&self) -> (v: Value)
        ensures
            v@ == device_data(self@),
    {
        let mut e: Vec<(Value, Value)> = Vec::new();
        proof {
            assert(data_pairs(e@) =~= Seq::<(Data, Data)>::empty());
        }
        put(&mut e, "device_sig", Value::Text(self.device_sig.to_string()));
        put(&mut e, "pubkey", Value::Text(self.pubkey.clone()));
        put(&mut e, "settings", self.settings.to_value());
        let ghost d = device_data(self@);
        assert(data_pairs(e@) =~= d->Table_0);
        Value::Table(e)
    }

    /// The record that the map `v` holds.
    pub fn from_value(v: &Value) -> (r: Option<Self>)
        ensures
            match r {
                Some(d) => decode_device(v@) == Some(d@),
                None => decode_device(v@) is None,
            },
    {
        let sig = match get_field(v, "device_sig") {
            Some(Value::Text(t)) => Signature::parse(t.as_str()),
            _ => None,
        };
        let pubkey = text_field(v, "pubkey");
        let settings = match get_field(v, "settings") {
            Some(s) => Settings::from_value(s),
            None => None,
        };
        match (sig, pubkey, settings) {
            (Some(device_sig), Some(pubkey), Some(settings)) => Some(
                Device { device_sig, pubkey, settings },
            ),
            _ => None,
        }
    }

    /// The record's identity record.
    pub fn cir(&self) -> (r: Result<Cir, CanonError>)
        ensures
            match r {
                Ok(c) => canon_ok(device_data(self@)) && c@ == device_record(self@),
                Err(_) => !canon_ok(device_data(self@)),
            },
            r is Ok,
    {
        text_fits_str(self.pubkey.as_str());
        self.settings.fits();
        proof {
            crate::identity::lemma_sig_len(self.device_sig);
            reveal_strlit("device_sig");
            reveal_strlit("pubkey");
            reveal_strlit("settings");
            lemma_ascii_fits("device_sig"@);
            lemma_ascii_fits("pubkey"@);
            lemma_ascii_fits("settings"@);
            assert(Seq::<char>::empty() + hex_of(self.device_sig@) =~= hex_of(self.device_sig@));
            lemma_hex_text_fits(Seq::empty(), self.device_sig@);
            let e = device_data(self@)->Table_0;
            assert forall|i: int| 0 <= i < e.len() implies entry_ok(#[trigger] e[i]) by {}
            lemma_table_ok(e);
        }
        Cir::new(DEVICE_KIND, &self.to_value())
    }

    /// The record's content identity.
    pub fn ci(&self) -> (r: Result<CiHash, CanonError>)
        ensures
            match r {
                Ok(a) => canon_ok(device_data(self@)) && canon_ok(record_data(device_record(self@)))
                    && a.0@ == blake3_digest(
                    canonical_bytes(record_data(device_record(self@))),
                ),
                Err(_) => !canon_ok(device_data(self@)) || !canon_ok(
                    record_data(device_record(self@)),
                ),
            },
            r is Ok,
    {
        let c = self.cir();
        proof {
            crate::record::lemma_canon_ok(device_data(self@));
            reveal_strlit("cir");
            reveal_strlit("device");
            lemma_ascii_fits(CIR_KIND@);
            lemma_ascii_fits(DEVICE_KIND@);
            crate::record::lemma_record_ok(device_record(self@));
        }
        match c {
            Ok(c) => c.address(),
            Err(e) => Err(e),
        }
    }
}

/// Whether a device record holds keys of the right lengths.
pub open spec fn device_wf(d: DeviceV) -> bool {
    d.sig.len() == 64 && d.settings.dgid.len() == 32
}

proof fn lemma_tags_round_trip(tags: Seq<Seq<char>>)
    ensures
        tags_at(
            match tags_data(tags) {
                Some(x) => Some(canon(x)),
                None => None,
            },
        ) == Some(tags),
{
    match tags_data(tags) {
        Some(x) => {
            let items = Seq::new(tags.len(), |i: int| Data::Text(tags[i]));
            crate::canonical::lemma_canon_list(items);
            assert(crate::canonical::canon_list(items) =~= items);
            assert(Seq::new(items.len(), |i: int| items[i]->Text_0) =~= tags);
        },
        None => {
            assert(tags =~= Seq::<Seq<char>>::empty());
        },
    }
}

/// Settings read back from their canonical map are the settings.
#[verifier::spinoff_prover]
#[verifier::rlimit(40)]
pub proof fn law_settings_round_trip(s: SettingsV)
    requires
        s.dgid.len() == 32,
    ensures
        decode_settings(canon(settings_data(s))) == Some(s),
{
    reveal_strlit("dgid");
    reveal_strlit("expires");
    reveal_strlit("role");
    reveal_strlit("tags");
    let a = (Data::Text("dgid"@), Data::Text(dgid_text(s.dgid)));
    let base = seq![a];
    assert(base =~= Seq::<(Data, Data)>::empty().push(a));
    crate::fields::lemma_field_push(Seq::<(Data, Data)>::empty(), a.0, a.1);
    let s1 = opt_push(base, "expires"@, opt_text_data(s.expires));
    let s2 = opt_push(s1, "role"@, opt_text_data(s.role));
    let s3 = opt_push(s2, "tags"@, tags_data(s.tags));
    assert("expires"@[0] != "dgid"@[0]);
    crate::fields::lemma_opt_push(base, "expires"@, opt_text_data(s.expires));
    assert("role"@[0] != "dgid"@[0] && "role"@[0] != "expires"@[0]);
    crate::fields::lemma_opt_push(s1, "role"@, opt_text_data(s.role));
    assert("tags"@[0] != "dgid"@[0] && "tags"@[0] != "expires"@[0] && "tags"@[0] != "role"@[0]);
    crate::fields::lemma_opt_push(s2, "tags"@, tags_data(s.tags));
    assert(settings_data(s) == Data::Table(s3));
    crate::fields::lemma_get_canon(s3, "dgid"@);
    crate::fields::lemma_get_canon(s3, "expires"@);
    crate::fields::lemma_get_canon(s3, "role"@);
    crate::fields::lemma_get_canon(s3, "tags"@);
    identity::lemma_dgid_round_trip(s.dgid);
    lemma_tags_round_trip(s.tags);
}

/// A device record read back from its canonical map is the record.
#[verifier::spinoff_prover]
#[verifier::rlimit(40)]
pub proof fn law_device_round_trip(d: DeviceV)
    requires
        device_wf(d),
    ensures
        decode_device(canon(device_data(d))) == Some(d),
{
    reveal_strlit("device_sig");
    reveal_strlit("pubkey");
    reveal_strlit("settings");
    let a = (Data::Text("device_sig"@), Data::Text(hex_of(d.sig)));
    let b = (Data::Text("pubkey"@), Data::Text(d.pubkey));
    let c = (Data::Text("settings"@), settings_data(d.settings));
    let e = seq![a, b, c];
    assert(e =~= Seq::<(Data, Data)>::empty().push(a).push(b).push(c));
    crate::fields::lemma_field_push(Seq::<(Data, Data)>::empty(), a.0, a.1);
    crate::fields::lemma_field_push(Seq::<(Data, Data)>::empty().push(a), b.0, b.1);
    crate::fields::lemma_field_push(Seq::<(Data, Data)>::empty().push(a).push(b), c.0, c.1);
    assert(crate::fields::text_keys(e)) by {
        assert("device_sig"@[0] != "pubkey"@[0]);
        assert("device_sig"@[0] != "settings"@[0]);
        assert("pubkey"@[0] != "settings"@[0]);
    }
    crate::fields::lemma_get_canon(e, "device_sig"@);
    crate::fields::lemma_get_canon(e, "pubkey"@);
    crate::fields::lemma_get_canon(e, "settings"@);
    let h = hex_of(d.sig);
    crate::address::lemma_hex_chars(d.sig);
    assert(is_hex_digit(h[0]));
    assert(is_hex_digit(h[127]));
    crate::text::lemma_trimmed_plain(h);
    lemma_parse_hex_of(d.sig);
    law_settings_round_trip(d.settings);
}

/// A device record listed in a group collection, with what the group made of it.
#[derive(Debug, Clone, PartialEq, Eq)]
pub struct Member {
    pub ci: CiHash,
    pub device: Device,
    pub verified: bool,
    pub expired: bool,
}

pub struct MemberV {
    pub ci: Seq<u8>,
    pub device: DeviceV,
    pub verified: bool,
    pub expired: bool,
}

impl View for Member {
    type V = MemberV;

    open spec fn view(&self) -> MemberV {
        MemberV { ci: self.ci.0@, device: self.device@, verified: self.verified, expired: self.expired }
    }
}

pub open spec fn member_views(ms: Seq<Member>) -> Seq<MemberV> {
    Seq::new(ms.len(), |i: int| ms[i]@)
}

/// Whether a member counts now: its record is verified and not expired.
pub open spec fn member_current(m: MemberV) -> bool {
    m.verified && !m.expired
}

/// Whether the group `group` counts the record `d` found in a collection
/// that is (`owned`) or is not the group's own: the node key signed it and it
/// offers itself to `group`.
pub open spec fn counted(owned: bool, group: Seq<u8>, d: DeviceV) -> bool {
    owned && device_verifies(d) && d.settings.dgid == group
}

impl Member {
    /// The member that the record `device`, kept under `ci`, is for `group`.
    pub fn of(ci: CiHash, device: Device, owned: bool, group: Dgid, expired: bool) -> (m: Self)
        ensures
            m@ == (MemberV {
                ci: ci.0@,
                device: device@,
                verified: counted(owned, group@, device@),
                expired,
            }),
    {
        let verified = owned && device.verify() && device.settings.dgid == group;
        Member { ci, device, verified, expired }
    }

    /// Whether the member counts now.
    pub fn current(&self) -> (r: bool)
        ensures
            r == member_current(self@),
    {
        self.verified && !self.expired
    }
}

/// The device record that the stored bytes hold: an identity record of kind
/// `device` whose body reads as a device record.
pub open spec fn stored_device(bytes: Seq<u8>) -> Option<DeviceV> {
    match read_record(bytes, CIR_KIND@) {
        Some(r) => if r.kind == DEVICE_KIND@ && canon_ok(r.body) {
            decode_device(canon(r.body))
        } else {
            None
        },
        None => None,
    }
}

/// The device record that the stored bytes hold, if they hold one.
pub fn read_device(bytes: &[u8]) -> (r: Option<Device>)
    ensures
        match r {
            Some(d) => stored_device(bytes@) == Some(d@),
            None => stored_device(bytes@) is None,
        },
{
    let cir = match Cir::decode(bytes) {
        Ok(c) => c,
        Err(_) => return None,
    };
    if !crate::record::same_text(cir.kind.as_str(), DEVICE_KIND) {
        return None;
    }
    match cir.body() {
        Ok(body) => Device::from_value(&body),
        Err(_) => None,
    }
}

/// The node keys of the members that count now, in order.
pub open spec fn current_ids(ms: Seq<MemberV>) -> Seq<Seq<char>>
    decreases ms.len(),
{
    if ms.len() == 0 {
        Seq::empty()
    } else {
        let r = current_ids(ms.drop_last());
        if member_current(ms.last()) {
            r.push(node_text(ms.last().device.pubkey))
        } else {
            r
        }
    }
}

/// The node keys of the members that count now, in order.
pub fn member_ids(members: &Vec<Member>) -> (r: Vec<String>)
    ensures
        texts(r@) == current_ids(member_views(members@)),
{
    let ghost ms = member_views(members@);
    let mut r: Vec<String> = Vec::new();
    let mut i: usize = 0;
    assert(texts(r@) =~= current_ids(ms.take(0)));
    while i < members.len()
        invariant
            i <= members.len(),
            ms == member_views(members@),
            texts(r@) == current_ids(ms.take(i as int)),
        decreases members.len() - i,
    {
        assert(ms.take(i + 1).drop_last() =~= ms.take(i as int));
        if members[i].current() {
            let ghost before = texts(r@);
            r.push(members[i].device.node_hex());
            assert(texts(r@) =~= before.push(node_text(ms[i as int].device.pubkey)));
        }
        i = i + 1;
    }
    assert(ms.take(i as int) =~= ms);
    r
}

pub const UNVERIFIED: &'static str = "the device record's signature does not verify";

/// Why a group refuses the record `d`, if it does: its signature does not
/// verify, or it offers itself to another group.
pub open spec fn offer_error(group: Seq<u8>, d: DeviceV) -> Option<Seq<char>> {
    if !device_verifies(d) {
        Some(UNVERIFIED@)
    } else if d.settings.dgid != group {
        Some("the device offers itself to "@ + dgid_text(d.settings.dgid) + " not to this group"@)
    } else {
        None
    }
}

/// The content identity of the record `d`.
pub open spec fn device_ci(d: DeviceV) -> Seq<u8> {
    blake3_digest(canonical_bytes(record_data(device_record(d))))
}

/// Whether a member that counts now is kept under `ci`.
pub open spec fn admitted_already(ms: Seq<MemberV>, ci: Seq<u8>) -> bool {
    exists|i: int| 0 <= i < ms.len() && (#[trigger] ms[i]).ci == ci && member_current(ms[i])
}

/// The identities of the members whose records name the node key `pubkey`, in order.
pub open spec fn stale_cis(ms: Seq<MemberV>, pubkey: Seq<char>) -> Seq<Seq<u8>>
    decreases ms.len(),
{
    if ms.len() == 0 {
        Seq::empty()
    } else {
        let r = stale_cis(ms.drop_last(), pubkey);
        if ms.last().device.pubkey == pubkey {
            r.push(ms.last().ci)
        } else {
            r
        }
    }
}

/// The identities of the members whose node key text is `node`, in order.
pub open spec fn node_cis(ms: Seq<MemberV>, node: Seq<char>) -> Seq<Seq<u8>>
    decreases ms.len(),
{
    if ms.len() == 0 {
        Seq::empty()
    } else {
        let r = node_cis(ms.drop_last(), node);
        if node_text(ms.last().device.pubkey) == node {
            r.push(ms.last().ci)
        } else {
            r
        }
    }
}

/// The builder with the identities `cs` removed in turn.
pub open spec fn removed_all(b: BuilderV, cs: Seq<Seq<u8>>) -> BuilderV
    decreases cs.len(),
{
    if cs.len() == 0 {
        b
    } else {
        item_removed(removed_all(b, cs.drop_last()), cs.last())
    }
}

/// The item that lists the record `d` kept under `ci`.
pub open spec fn listing(d: DeviceV, ci: Seq<u8>) -> ItemV {
    ItemV { ci, label: Some(node_text(d.pubkey)), default_td: None }
}

/// The edits that admit the record `d`, kept under `ci`: the collection is a
/// device group, the other records of the same node key leave it, the
/// record is listed under its node key, and carried in the head's records.
pub open spec fn admission(b: BuilderV, ms: Seq<MemberV>, d: DeviceV, ci: Seq<u8>) -> BuilderV {
    record_added(
        item_added(removed_all(kind_set(b, GROUP_COLLECTION@), stale_cis(ms, d.pubkey)), listing(d, ci)),
        ci,
    )
}

/// What admitting a record came to: its identity, and whether it was
/// already a current member.
#[derive(Debug)]
pub struct Admission {
    pub ci: CiHash,
    pub already: bool,
}

/// Admits the record `device` to the group `group`, whose collection lists
/// `members` and is open in `builder`. A record already current is left as
/// it is; otherwise the builder takes the edits that admit it.
pub fn admit_device(group: Dgid, device: &Device, members: &Vec<Member>, builder: &mut Builder) -> (r: Result<
    Admission,
    String,
>)
    ensures
        match r {
            Ok(a) => {
                &&& offer_error(group@, device@) is None
                &&& canon_ok(device_data(device@))
                &&& canon_ok(record_data(device_record(device@)))
                &&& a.ci.0@ == device_ci(device@)
                &&& a.already == admitted_already(member_views(members@), a.ci.0@)
                &&& final(builder)@ == if a.already {
                    old(builder)@
                } else {
                    admission(old(builder)@, member_views(members@), device@, a.ci.0@)
                }
            },
            Err(e) => {
                &&& final(builder)@ == old(builder)@
                &&& match offer_error(group@, device@) {
                    Some(m) => e@ == m,
                    None => !canon_ok(device_data(device@)) || !canon_ok(
                        record_data(device_record(device@)),
                    ),
                }
            },
        },
        r is Err <==> offer_error(group@, device@) is Some,
{
    if !device.verify() {
        let e = owned(UNVERIFIED);
        return Err(e);
    }
    if !(device.settings.dgid == group) {
        let mut m = chars_of("the device offers itself to ");
        append(&mut m, &chars_of(device.settings.dgid.to_string().as_str()));
        append(&mut m, &chars_of(" not to this group"));
        return Err(string_of(&m));
    }
    let ci = match device.ci() {
        Ok(c) => c,
        Err(e) => return Err(e.to_string()),
    };
    let ghost ms = member_views(members@);
    let mut already = false;
    let mut i: usize = 0;
    while i < members.len()
        invariant
            i <= members.len(),
            ms == member_views(members@),
            already == exists|j: int| 0 <= j < i && (#[trigger] ms[j]).ci == ci.0@ && member_current(ms[j]),
        decreases members.len() - i,
    {
        assert(ms[i as int] == members@[i as int]@);
        let hit = members[i].ci.0 == ci.0 && members[i].current();
        if hit {
            already = true;
        }
        proof {
            if hit {
                assert(ms[i as int].ci == ci.0@ && member_current(ms[i as int]));
            }
            assert((exists|j: int| 0 <= j < i + 1 && (#[trigger] ms[j]).ci == ci.0@ && member_current(ms[j]))
                == (already)) by {
                if exists|j: int| 0 <= j < i + 1 && (#[trigger] ms[j]).ci == ci.0@ && member_current(ms[j]) {
                    let j = choose|j: int| 0 <= j < i + 1 && (#[trigger] ms[j]).ci == ci.0@ && member_current(ms[j]);
                    if j < i {
                        assert(exists|j: int| 0 <= j < i && (#[trigger] ms[j]).ci == ci.0@ && member_current(ms[j]));
                    }
                }
            }
        }
        i = i + 1;
    }
    if already {
        return Ok(Admission { ci, already: true });
    }
    let ghost b0 = kind_set(builder@, GROUP_COLLECTION@);
    builder.kind(GROUP_COLLECTION);
    let mut i: usize = 0;
    assert(stale_cis(ms.take(0), device@.pubkey) =~= Seq::<Seq<u8>>::empty());
    while i < members.len()
        invariant
            i <= members.len(),
            ms == member_views(members@),
            builder@ == removed_all(b0, stale_cis(ms.take(i as int), device@.pubkey)),
        decreases members.len() - i,
    {
        assert(ms.take(i + 1).drop_last() =~= ms.take(i as int));
        let ghost before = stale_cis(ms.take(i as int), device@.pubkey);
        if crate::record::same_text(members[i].device.pubkey.as_str(), device.pubkey.as_str()) {
            builder.remove(members[i].ci);
            assert(before.push(ms[i as int].ci).drop_last() =~= before);
        }
        i = i + 1;
    }
    assert(ms.take(i as int) =~= ms);
    let node = device.node_hex();
    builder.add(Item::labelled(ci, node.as_str()));
    builder.record(ci.hash());
    Ok(Admission { ci, already: false })
}

/// The settings that offer a device to `group` with nothing more.
pub open spec fn group_settings(group: Seq<u8>) -> SettingsV {
    SettingsV { dgid: group, expires: None, role: None, tags: Seq::empty() }
}

/// Signs the record in which `device` offers itself to the group `group`,
/// and admits it to the group's collection, listing `members` and open in
/// `builder`.
pub fn ensure_self(group: Dgid, device: &Identity, members: &Vec<Member>, builder: &mut Builder) -> (r:
    Result<(Device, Admission), String>)
    ensures
        match r {
            Ok((rec, a)) => {
                &&& rec@ == signed_device(device.secret(), group_settings(group@))
                &&& device_verifies(rec@)
                &&& a.ci.0@ == device_ci(rec@)
                &&& a.already == admitted_already(member_views(members@), a.ci.0@)
                &&& final(builder)@ == if a.already {
                    old(builder)@
                } else {
                    admission(old(builder)@, member_views(members@), rec@, a.ci.0@)
                }
            },
            Err(_) => {
                &&& final(builder)@ == old(builder)@
                &&& (!canon_ok(settings_data(group_settings(group@))) || !canon_ok(
                    device_data(signed_device(device.secret(), group_settings(group@))),
                ) || !canon_ok(
                    record_data(device_record(signed_device(device.secret(), group_settings(group@)))),
                ))
            },
        },
        r is Ok,
{
    let rec = match Device::sign(device, Settings::for_group(group)) {
        Ok(d) => d,
        Err(e) => return Err(e.to_string()),
    };
    match admit_device(group, &rec, members, builder) {
        Ok(a) => Ok((rec, a)),
        Err(e) => Err(e),
    }
}

/// Takes the device with node key text `node_hex` out of the group whose
/// collection lists `members` and is open in `builder`: every record of that
/// node leaves it. Whether there was any.
pub fn revoke(members: &Vec<Member>, node_hex: &str, builder: &mut Builder) -> (r: bool)
    ensures
        r == (node_cis(member_views(members@), node_hex@).len() > 0),
        final(builder)@ == if r {
            removed_all(kind_set(old(builder)@, GROUP_COLLECTION@), node_cis(member_views(members@), node_hex@))
        } else {
            old(builder)@
        },
{
    let ghost ms = member_views(members@);
    let mut targets: Vec<CiHash> = Vec::new();
    let mut i: usize = 0;
    assert(node_cis(ms.take(0), node_hex@) =~= Seq::<Seq<u8>>::empty());
    while i < members.len()
        invariant
            i <= members.len(),
            ms == member_views(members@),
            Seq::new(targets@.len(), |j: int| targets@[j].0@) == node_cis(ms.take(i as int), node_hex@),
        decreases members.len() - i,
    {
        assert(ms.take(i + 1).drop_last() =~= ms.take(i as int));
        let ghost before = node_cis(ms.take(i as int), node_hex@);
        let node = members[i].device.node_hex();
        if crate::record::same_text(node.as_str(), node_hex) {
            targets.push(members[i].ci);
            assert(Seq::new(targets@.len(), |j: int| targets@[j].0@) =~= before.push(ms[i as int].ci));
        }
        i = i + 1;
    }
    assert(ms.take(i as int) =~= ms);
    let ghost cs = node_cis(ms, node_hex@);
    if targets.len() == 0 {
        return false;
    }
    let ghost b0 = kind_set(builder@, GROUP_COLLECTION@);
    builder.kind(GROUP_COLLECTION);
    let mut k: usize = 0;
    while k < targets.len()
        invariant
            k <= targets.len(),
            Seq::new(targets@.len(), |j: int| targets@[j].0@) == cs,
            builder@ == removed_all(b0, cs.take(k as int)),
        decreases targets.len() - k,
    {
        assert(cs.take(k + 1).drop_last() =~= cs.take(k as int));
        assert(cs.take(k + 1).last() == targets@[k as int].0@);
        builder.remove(targets[k]);
        k = k + 1;
    }
    assert(cs.take(k as int) =~= cs);
    true
}

/// The body of a record that encodes is encodable and holds no float.
proof fn lemma_record_body_ok(r: RecordV)
    requires
        canon_ok(record_data(r)),
    ensures
        canon_ok(r.body),
{
    let e = seq![
        (Data::Text("record"@), Data::Text(r.record)),
        (Data::Text("kind"@), Data::Text(r.kind)),
        (Data::Text("body"@), r.body),
    ];
    assert(record_data(r) == Data::Table(e));
    crate::canonical::lemma_has_float_pairs(e);
    assert(crate::canonical::float_free_pair(e[2]));
    let e1 = e.drop_first();
    let e2 = e1.drop_first();
    assert(e2[0] == e[2]);
    assert(crate::cbor::encodable_pairs(e));
    assert(crate::cbor::encodable_pairs(e1));
    assert(crate::cbor::encodable_pairs(e2));
    assert(crate::cbor::encodable(e2[0].1));
}

/// A device record minted into an identity record and stored reads back
/// from the stored bytes as the record.
pub proof fn law_stored_device_round_trip(d: DeviceV)
    requires
        device_wf(d),
        canon_ok(record_data(device_record(d))),
    ensures
        stored_device(canonical_bytes(record_data(device_record(d)))) == Some(d),
{
    let r = device_record(d);
    crate::canonical::law_canon_idempotent(device_data(d));
    crate::record::law_minted_record_round_trip(r);
    lemma_record_body_ok(r);
    law_device_round_trip(d);
}

/// Every item of `without_ci(items, c)` is an item of `items`.
proof fn lemma_without_ci_within(items: Seq<ItemV>, c: Seq<u8>)
    ensures
        forall|j: int| 0 <= j < without_ci(items, c).len() ==> items.contains(
            #[trigger] without_ci(items, c)[j],
        ),
    decreases items.len(),
{
    if items.len() > 0 {
        lemma_without_ci_within(items.drop_last(), c);
        let r = without_ci(items.drop_last(), c);
        assert forall|j: int| 0 <= j < without_ci(items, c).len() implies items.contains(
            #[trigger] without_ci(items, c)[j],
        ) by {
            let x = without_ci(items, c)[j];
            if j < r.len() {
                assert(x == r[j]);
                assert(items.drop_last().contains(x));
                let k = choose|k: int| 0 <= k < items.drop_last().len() && items.drop_last()[k] == x;
                assert(items[k] == x);
            } else {
                assert(x == items.last());
                assert(items[items.len() - 1] == x);
            }
        }
    }
}

/// After the identities `cs` are removed in turn, no item has one of them.
pub proof fn law_removed_all_are_gone(b: BuilderV, cs: Seq<Seq<u8>>)
    ensures
        forall|j: int|
            0 <= j < removed_all(b, cs).items.len() ==> !cs.contains(
                (#[trigger] removed_all(b, cs).items[j]).ci,
            ),
    decreases cs.len(),
{
    if cs.len() > 0 {
        law_removed_all_are_gone(b, cs.drop_last());
        let prev = removed_all(b, cs.drop_last()).items;
        let c = cs.last();
        crate::builder::law_removed_item_is_gone(prev, c);
        lemma_without_ci_within(prev, c);
        assert forall|j: int| 0 <= j < removed_all(b, cs).items.len() implies !cs.contains(
            (#[trigger] removed_all(b, cs).items[j]).ci,
        ) by {
            let x = removed_all(b, cs).items[j];
            assert(x == without_ci(prev, c)[j]);
            assert(prev.contains(x));
            let k = choose|k: int| 0 <= k < prev.len() && prev[k] == x;
            assert(!cs.drop_last().contains(prev[k].ci));
            if cs.contains(x.ci) {
                let m = choose|m: int| 0 <= m < cs.len() && cs[m] == x.ci;
                if m < cs.len() - 1 {
                    assert(cs.drop_last()[m] == x.ci);
                }
            }
        }
    }
}

/// Admitting a record lists it under its node key, and no other record of
/// the same node key stays listed.
pub proof fn law_admission_sheds_older_records(b: BuilderV, ms: Seq<MemberV>, d: DeviceV, ci: Seq<u8>)
    ensures
        admission(b, ms, d, ci).items.contains(listing(d, ci)),
        forall|j: int|
            0 <= j < admission(b, ms, d, ci).items.len() && stale_cis(ms, d.pubkey).contains(
                (#[trigger] admission(b, ms, d, ci).items[j]).ci,
            ) ==> admission(b, ms, d, ci).items[j] == listing(d, ci),
{
    let cs = stale_cis(ms, d.pubkey);
    let before = removed_all(kind_set(b, GROUP_COLLECTION@), cs).items;
    let it = listing(d, ci);
    law_removed_all_are_gone(kind_set(b, GROUP_COLLECTION@), cs);
    crate::collection::lemma_first_ci(before, it.ci);
    let after = put_item(before, it);
    assert(admission(b, ms, d, ci).items == after);
    match crate::collection::first_ci(before, it.ci) {
        Some(p) => {
            assert(after[p] == it);
            assert forall|j: int| 0 <= j < after.len() && cs.contains((#[trigger] after[j]).ci) implies after[j] == it by {
                if j != p {
                    assert(after[j] == before[j]);
                }
            }
        },
        None => {
            assert(after[before.len() as int] == it);
            assert forall|j: int| 0 <= j < after.len() && cs.contains((#[trigger] after[j]).ci) implies after[j] == it by {
                if j < before.len() {
                    assert(after[j] == before[j]);
                }
            }
        },
    }
}

/// Every member whose node key text is `node` has its identity among the
/// ones a revocation of `node` removes.
pub proof fn law_revocation_reaches_every_record(ms: Seq<MemberV>, node: Seq<char>)
    ensures
        forall|i: int|
            0 <= i < ms.len() && node_text((#[trigger] ms[i]).device.pubkey) == node ==> node_cis(
                ms,
                node,
            ).contains(ms[i].ci),
    decreases ms.len(),
{
    if ms.len() > 0 {
        law_revocation_reaches_every_record(ms.drop_last(), node);
        let r = node_cis(ms.drop_last(), node);
        assert forall|i: int|
            0 <= i < ms.len() && node_text((#[trigger] ms[i]).device.pubkey) == node implies node_cis(
                ms,
                node,
            ).contains(ms[i].ci) by {
            if i < ms.len() - 1 {
                assert(ms.drop_last()[i] == ms[i]);
                assert(r.contains(ms[i].ci));
                let k = choose|k: int| 0 <= k < r.len() && r[k] == ms[i].ci;
                if node_text(ms.last().device.pubkey) == node {
                    assert(r.push(ms.last().ci)[k] == ms[i].ci);
                }
            } else {
                assert(r.push(ms.last().ci)[r.len() as int] == ms[i].ci);
            }
        }
    }
}

} // verus!
