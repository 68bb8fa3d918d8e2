//! Modules: engines and plugins stored as blobs and named by manifests under
//! `refs/modules/`.
use vstd::prelude::*;
use crate::cbor::{self, Value, Data, dec, enc, encodable, data_pairs};
use crate::fields::{get, put, text, text_of, get_field, text_field, bare_hash};
use crate::hex::{hex_of, is_hex_digit};
use crate::record::same_text;
use crate::refs::{segment_ok, valid_segment};
use crate::store::{BlobHash, MemBlobs, blake3_digest};
use crate::collection::{ref_map, read_ref, write_ref, unusable_ref};
use crate::assoc::unique_keys;
use crate::refs::{listed_views, name_ok};
use crate::text::{chars_of, string_of, concat, starts_with, has_prefix, tail, append};
use crate::ops::{quoted, debug_quoted};

verus! {

pub const MODULE_REF_DIR: &'static str = "modules";

/// Whether a module runs as the engine or as a plugin.
#[derive(Clone, Copy, Debug, PartialEq, Eq, Structural)]
pub enum ModuleKind {
    Engine,
    Plugin,
}

pub open spec fn module_kind_label(k: ModuleKind) -> Seq<char> {
    match k {
        ModuleKind::Engine => "engine"@,
        ModuleKind::Plugin => "plugin"@,
    }
}

pub open spec fn module_kind_named(t: Seq<char>) -> Option<ModuleKind> {
    if t == "engine"@ {
        Some(ModuleKind::Engine)
    } else if t == "plugin"@ {
        Some(ModuleKind::Plugin)
    } else {
        None
    }
}

impl ModuleKind {
    pub fn label(&self) -> (s: &'static str)
        ensures
            s@ == module_kind_label(*self),
    {
        match self {
            ModuleKind::Engine => "engine",
            ModuleKind::Plugin => "plugin",
        }
    }

    pub fn parse(t: &str) -> (r: Option<Self>)
        ensures
            r == module_kind_named(t@),
    {
        if same_text(t, "engine") {
            Some(ModuleKind::Engine)
        } else if same_text(t, "plugin") {
            Some(ModuleKind::Plugin)
        } else {
            None
        }
    }
}

/// What a module is: its name, kind, ABI version, display name, version, and
/// the hash of its bytes.
#[derive(Clone, Debug, PartialEq, Eq)]
pub struct ModuleManifest {
    pub name: String,
    pub kind: ModuleKind,
    pub abi_version: u32,
    pub display: String,
    pub version: String,
    pub module: String,
}

pub struct ManifestV {
    pub name: Seq<char>,
    pub kind: ModuleKind,
    pub abi_version: u32,
    pub display: Seq<char>,
    pub version: Seq<char>,
    pub module: Seq<char>,
}

impl View for ModuleManifest {
    type V = ManifestV;

    open spec fn view(&self) -> ManifestV {
        ManifestV {
            name: self.name@,
            kind: self.kind,
            abi_version: self.abi_version,
            display: self.display@,
            version: self.version@,
            module: self.module@,
        }
    }
}

/// The map a manifest is written as, its fields in declaration order.
pub open spec fn manifest_data(m: ManifestV) -> Data {
    Data::Table(
        seq![
            (Data::Text("name"@), Data::Text(m.name)),
            (Data::Text("kind"@), Data::Text(module_kind_label(m.kind))),
            (Data::Text("abi_version"@), Data::Integer(m.abi_version as int)),
            (Data::Text("display"@), Data::Text(m.display)),
            (Data::Text("version"@), Data::Text(m.version)),
            (Data::Text("module"@), Data::Text(m.module)),
        ],
    )
}

pub open spec fn u32_at(f: Option<Data>) -> Option<u32> {
    match f {
        Some(Data::Integer(n)) => if 0 <= n < 0x1_0000_0000 {
            Some(n as u32)
        } else {
            None
        },
        _ => None,
    }
}

pub open spec fn decode_manifest(d: Data) -> Option<ManifestV> {
    let name = text_of(get(d, "name"@));
    let kind = match get(d, "kind"@) {
        Some(Data::Text(t)) => module_kind_named(t),
        _ => None,
    };
    let abi = u32_at(get(d, "abi_version"@));
    let display = text_of(get(d, "display"@));
    let version = text_of(get(d, "version"@));
    let module = text_of(get(d, "module"@));
    if name is Some && kind is Some && abi is Some && display is Some && version is Some
        && module is Some {
        Some(
            ManifestV {
                name: name->0,
                kind: kind->0,
                abi_version: abi->0,
                display: display->0,
                version: version->0,
                module: module->0,
            },
        )
    } else {
        None
    }
}

/// The manifest that `bytes` encode.
pub open spec fn read_manifest(bytes: Seq<u8>) -> Option<ManifestV> {
    match dec(bytes) {
        Some((d, _)) => decode_manifest(d),
        None => None,
    }
}

impl ModuleManifest {
    /// The hash of the module's bytes, if the manifest names one.
    pub fn module_hash(&self) -> (r: Option<BlobHash>)
        ensures
            match r {
                Some(h) => bare_hash(self.module@) == Some(h@),
                None => bare_hash(self.module@) is None,
            },
    {
        BlobHash::parse(self.module.as_str())
    }

    pub fn to_value(&self) -> (v: Value)
        ensures
            v@ == manifest_data(self@),
    {
        let mut e: Vec<(Value, Value)> = Vec::new();
        proof {
            assert(data_pairs(e@) =~= Seq::<(Data, Data)>::empty());
        }
        put(&mut e, "name", text(self.name.as_str()));
        put(&mut e, "kind", text(self.kind.label()));
        put(&mut e, "abi_version", Value::Integer(self.abi_version as i128));
        put(&mut e, "display", text(self.display.as_str()));
        put(&mut e, "version", text(self.version.as_str()));
        put(&mut e, "module", text(self.module.as_str()));
        let ghost d = manifest_data(self@);
        assert(data_pairs(e@) =~= d->Table_0);
        Value::Table(e)
    }

    pub fn from_value(v: &Value) -> (r: Option<Self>)
        ensures
            match r {
                Some(m) => decode_manifest(v@) == Some(m@),
                None => decode_manifest(v@) is None,
            },
    {
        let name = text_field(v, "name");
        let kind = match get_field(v, "kind") {
            Some(Value::Text(t)) => ModuleKind::parse(t.as_str()),
            _ => None,
        };
        let abi = match get_field(v, "abi_version") {
            Some(Value::Integer(n)) => if 0 <= *n && *n < 0x1_0000_0000i128 {
                Some(*n as u32)
            } else {
                None
            },
            _ => None,
        };
        let display = text_field(v, "display");
        let version = text_field(v, "version");
        let module = text_field(v, "module");
        match (name, kind, abi, display, version, module) {
            (Some(name), Some(kind), Some(abi_version), Some(display), Some(version), Some(module)) => {
                Some(ModuleManifest { name, kind, abi_version, display, version, module })
            },
            _ => None,
        }
    }

    /// The manifest's CBOR bytes, its fields in declaration order; `None` only
    /// when a field is too long to encode.
    pub fn encode(&self) -> (r: Option<Vec<u8>>)
        ensures
            match r {
                Some(b) => encodable(manifest_data(self@)) && b@ == enc(manifest_data(self@)),
                None => !encodable(manifest_data(self@)),
            },
    {
        cbor::encode(&self.to_value())
    }

    /// The manifest that `bytes` encode.
    pub fn decode(bytes: &[u8]) -> (r: Option<Self>)
        ensures
            match r {
                Some(m) => read_manifest(bytes@) == Some(m@),
                None => read_manifest(bytes@) is None,
            },
    {
        match cbor::decode(bytes) {
            Some(v) => ModuleManifest::from_value(&v),
            None => None,
        }
    }
}

/// A module name that can stand as a single ref segment.
pub fn valid_module_name(name: &str) -> (r: bool)
    ensures
        r == segment_ok(name@),
{
    valid_segment(name)
}

/// The ref name of the module `name`.
pub fn module_ref_name(name: &str) -> (r: String)
    ensures
        r@ == "modules/"@ + name@,
{
    concat("modules/", name)
}

/// The module name that a ref name under `modules/` carries.
pub fn strip_module_ref(ref_name: &str) -> (r: Option<String>)
    ensures
        match r {
            Some(n) => starts_with(ref_name@, "modules/"@) && n@ == ref_name@.skip(8),
            None => !starts_with(ref_name@, "modules/"@),
        },
{
    let cs = chars_of(ref_name);
    let head = chars_of("modules/");
    proof {
        reveal_strlit("modules/");
    }
    if has_prefix(&cs, &head) {
        Some(string_of(&tail(&cs, 8)))
    } else {
        None
    }
}

/// Why a manifest cannot be published with the given bytes, if it cannot.
pub open spec fn publish_error(name: Seq<char>, module: Seq<char>, bytes: Seq<u8>) -> Option<Seq<char>> {
    if !segment_ok(name) {
        Some("module name "@ + debug_quoted(name) + " is not publishable"@)
    } else if module != hex_of(blake3_digest(bytes)) {
        Some("manifest names module "@ + module + " but the bytes hash to "@ + hex_of(blake3_digest(bytes)))
    } else {
        None
    }
}

/// The hash of the module's bytes, when the manifest may be published with
/// them: its name must be a single usable segment and its module field the
/// hex hash of the bytes.
pub fn check_publish(manifest: &ModuleManifest, module: &[u8]) -> (r: Result<BlobHash, String>)
    ensures
        match r {
            Ok(h) => publish_error(manifest.name@, manifest.module@, module@) is None && h@ == blake3_digest(module@),
            Err(e) => publish_error(manifest.name@, manifest.module@, module@) == Some(e@),
        },
{
    if !valid_module_name(manifest.name.as_str()) {
        let mut m = chars_of("module name ");
        append(&mut m, &chars_of(quoted(manifest.name.as_str()).as_str()));
        append(&mut m, &chars_of(" is not publishable"));
        return Err(string_of(&m));
    }
    let hash = BlobHash::of(module);
    let hex = hash.to_hex();
    if !same_text(manifest.module.as_str(), hex.as_str()) {
        let mut m = chars_of("manifest names module ");
        append(&mut m, &chars_of(manifest.module.as_str()));
        append(&mut m, &chars_of(" but the bytes hash to "));
        append(&mut m, &chars_of(hex.as_str()));
        return Err(string_of(&m));
    }
    Ok(hash)
}

/// Whether a bundled module must be seeded: unless an installed manifest
/// names a module whose bytes the store holds. `installed` is the hash the
/// installed manifest names, if one is installed and names a parsable hash,
/// with whether the store holds those bytes.
pub fn seed_module_if_absent(installed: Option<(BlobHash, bool)>) -> (r: bool)
    ensures
        r == !(installed matches Some((_, held)) && held),
{
    match installed {
        Some((_, held)) => !held,
        None => true,
    }
}

/// Why the module `name` cannot be read, given its installed manifest, if
/// it cannot.
pub open spec fn module_bytes_error(name: Seq<char>, manifest: Option<ManifestV>) -> Option<Seq<char>> {
    match manifest {
        None => Some("no module ref "@ + name + " in the store"@),
        Some(m) => if bare_hash(m.module) is None {
            Some("module ref "@ + name + " names an unparsable hash"@)
        } else {
            None
        },
    }
}

/// The hash of the bytes to read for the module `name`, from its installed
/// manifest.
pub fn module_bytes(name: &str, manifest: Option<ModuleManifest>) -> (r: Result<(ModuleManifest, BlobHash), String>)
    ensures
        match r {
            Ok((m, h)) => manifest == Some(m) && bare_hash(m.module@) == Some(h@),
            Err(e) => module_bytes_error(
                name@,
                match manifest {
                    Some(m) => Some(m@),
                    None => None,
                },
            ) == Some(e@),
        },
{
    match manifest {
        None => Err(concat(concat("no module ref ", name).as_str(), " in the store")),
        Some(m) => match m.module_hash() {
            Some(h) => Ok((m, h)),
            None => Err(concat(concat("module ref ", name).as_str(), " names an unparsable hash")),
        },
    }
}

/// The ref name of the module `name`.
pub open spec fn module_ref(name: Seq<char>) -> Seq<char> {
    "modules/"@ + name
}

/// The manifest installed for the module `name`: the one its ref in `refs`
/// names, as the store holds it.
pub open spec fn installed_manifest(store: MemBlobs, refs: Seq<(String, BlobHash)>, name: Seq<char>) -> Option<ManifestV> {
    if ref_map(refs).contains_key(module_ref(name)) {
        match store.held(ref_map(refs)[module_ref(name)]) {
            Some(b) => read_manifest(b),
            None => None,
        }
    } else {
        None
    }
}

/// Whether nothing but the manifest's bytes `manifest` is, or comes to be,
/// held under their address when `module` is stored first: no other bytes
/// held there before, and `module` hashing elsewhere unless it is those
/// bytes.
pub open spec fn no_other_bytes(store: MemBlobs, manifest: Seq<u8>, module: Seq<u8>) -> bool {
    &&& store.held(blake3_digest(manifest)) is None || store.held(blake3_digest(manifest)) == Some(manifest)
    &&& blake3_digest(module) != blake3_digest(manifest) || module == manifest
}

/// What the store holds under `k` once `bytes` are put under it.
pub open spec fn put_held(before: Option<Seq<u8>>, bytes: Seq<u8>) -> Option<Seq<u8>> {
    match before {
        Some(b) => Some(b),
        None => Some(bytes),
    }
}

/// The manifest installed for the module `name`.
pub fn installed(store: &MemBlobs, refs: &Vec<(String, BlobHash)>, name: &str) -> (r: Option<ModuleManifest>)
    requires
        unique_keys(listed_views(refs@)),
    ensures
        match r {
            Some(m) => installed_manifest(*store, refs@, name@) == Some(m@),
            None => installed_manifest(*store, refs@, name@) is None,
        },
{
    let ref_name = module_ref_name(name);
    match read_ref(refs, ref_name.as_str()) {
        Some(h) => match store.get(h) {
            Ok(b) => ModuleManifest::decode(b.as_slice()),
            Err(_) => None,
        },
        None => None,
    }
}

/// The installed manifest of the module `name` and the module's bytes, as
/// the store holds them.
pub fn module_bytes_in(store: &MemBlobs, refs: &Vec<(String, BlobHash)>, name: &str) -> (r: Result<
    (ModuleManifest, Vec<u8>),
    String,
>)
    requires
        unique_keys(listed_views(refs@)),
    ensures
        match r {
            Ok((m, b)) => installed_manifest(*store, refs@, name@) == Some(m@) && (bare_hash(m.module@) matches Some(h)
                && store.held(h) == Some(b@)),
            Err(e) => match installed_manifest(*store, refs@, name@) {
                Some(m) => match bare_hash(m.module) {
                    Some(h) => store.held(h) is None && e@ == "blob "@ + hex_of(h) + " not in store"@,
                    None => Some(e@) == module_bytes_error(name@, Some(m)),
                },
                None => Some(e@) == module_bytes_error(name@, None),
            },
        },
{
    let manifest = installed(store, refs, name);
    let (m, h) = module_bytes(name, manifest)?;
    match store.get(h) {
        Ok(b) => Ok((m, b)),
        Err(_) => {
            let head = concat("blob ", h.to_hex().as_str());
            Err(concat(head.as_str(), " not in store"))
        },
    }
}

proof fn lemma_bare_hash_of(h: Seq<u8>)
    requires
        h.len() == 32,
    ensures
        bare_hash(hex_of(h)) == Some(h),
{
    let t = hex_of(h);
    crate::address::lemma_hex_chars(h);
    assert(is_hex_digit(t[0]));
    assert(is_hex_digit(t[t.len() - 1]));
    assert(t.last() == t[t.len() - 1]);
    crate::text::lemma_trimmed_plain(t);
    crate::hex::lemma_parse_hex_of(h);
}

proof fn lemma_field_at(entries: Seq<(Data, Data)>, name: Seq<char>, i: int)
    requires
        0 <= i < entries.len(),
        entries[i].0 == Data::Text(name),
        forall|j: int| 0 <= j < i ==> (#[trigger] entries[j]).0 != Data::Text(name),
    ensures
        crate::fields::field(entries, name) == Some(entries[i].1),
    decreases i,
{
    if i > 0 {
        assert(entries[0].0 != Data::Text(name));
        assert forall|j: int| 0 <= j < i - 1 implies (#[trigger] entries.drop_first()[j]).0 != Data::Text(name) by {
            assert(entries.drop_first()[j] == entries[j + 1]);
        }
        lemma_field_at(entries.drop_first(), name, i - 1);
    }
}

proof fn lemma_manifest_round_trip(m: ManifestV)
    requires
        encodable(manifest_data(m)),
    ensures
        read_manifest(enc(manifest_data(m))) == Some(m),
{
    let d = manifest_data(m);
    cbor::lemma_dec_enc(d, Seq::empty());
    assert(enc(d) + Seq::<u8>::empty() =~= enc(d));
    reveal_strlit("name");
    reveal_strlit("kind");
    reveal_strlit("abi_version");
    reveal_strlit("display");
    reveal_strlit("version");
    reveal_strlit("module");
    reveal_strlit("engine");
    reveal_strlit("plugin");
    let e = d->Table_0;
    let keys = seq!["name"@, "kind"@, "abi_version"@, "display"@, "version"@, "module"@];
    assert forall|i: int, j: int| 0 <= j < i < 6 implies (#[trigger] e[j]).0 != Data::Text(#[trigger] keys[i]) by {
        assert(e[j].0 == Data::Text(keys[j]));
        assert(keys[j][0] != keys[i][0]);
    }
    assert forall|i: int| 0 <= i < 6 implies #[trigger] e[i].0 == Data::Text(keys[i]) by {}
    lemma_field_at(e, keys[0], 0);
    lemma_field_at(e, keys[1], 1);
    lemma_field_at(e, keys[2], 2);
    lemma_field_at(e, keys[3], 3);
    lemma_field_at(e, keys[4], 4);
    lemma_field_at(e, keys[5], 5);
    assert("engine"@[0] != "plugin"@[0]);
    assert(module_kind_named(module_kind_label(m.kind)) == Some(m.kind));
}

/// Publishes a module: checks that its manifest may be published with its
/// bytes, stores the bytes and the manifest, and points the module's ref at
/// the manifest. What the store held under either address stays.
pub fn publish_module(
    store: &mut MemBlobs,
    refs: &mut Vec<(String, BlobHash)>,
    manifest: &ModuleManifest,
    module: &[u8],
) -> (r: Result<BlobHash, String>)
    requires
        unique_keys(listed_views(old(refs)@)),
    ensures
        unique_keys(listed_views(final(refs)@)),
        publish_error(manifest.name@, manifest.module@, module@) matches Some(e) ==> (r matches Err(x) && x@ == e
            && *final(store) == *old(store) && final(refs)@ == old(refs)@),
        publish_error(manifest.name@, manifest.module@, module@) is None && !encodable(manifest_data(manifest@)) ==> (r
            is Err && *final(store) == *old(store) && final(refs)@ == old(refs)@),
        publish_error(manifest.name@, manifest.module@, module@) is None && encodable(manifest_data(manifest@)) ==> ({
            let mh = blake3_digest(module@);
            let bytes = enc(manifest_data(manifest@));
            let dh = blake3_digest(bytes);
            let mid = |k: Seq<u8>| if k == mh { put_held(old(store).held(mh), module@) } else { old(store).held(k) };
            &&& final(store).held(dh) == put_held(mid(dh), bytes)
            &&& forall|k: Seq<u8>| k != dh ==> #[trigger] final(store).held(k) == mid(k)
            &&& match r {
                Ok(h) => h@ == dh && name_ok(module_ref(manifest.name@)) && ref_map(final(refs)@) == ref_map(
                    old(refs)@,
                ).insert(module_ref(manifest.name@), dh),
                Err(e) => !name_ok(module_ref(manifest.name@)) && e@ == unusable_ref(module_ref(manifest.name@))
                    && final(refs)@ == old(refs)@,
            }
        }),
        r is Ok ==> bare_hash(manifest.module@) == Some(blake3_digest(module@)),
        r is Ok && no_other_bytes(*old(store), enc(manifest_data(manifest@)), module@) ==> installed_manifest(
            *final(store),
            final(refs)@,
            manifest.name@,
        ) == Some(manifest@),
{
    let mh = check_publish(manifest, module)?;
    let bytes = match manifest.encode() {
        Some(b) => b,
        None => return Err(concat(concat("manifest of module ", manifest.name.as_str()).as_str(), " does not encode")),
    };
    let ghost before = *store;
    let _ = store.put(module);
    let ghost between = *store;
    let dh = match store.put(bytes.as_slice()) {
        Ok(h) => h,
        Err(_) => BlobHash::of(bytes.as_slice()),
    };
    let ref_name = module_ref_name(manifest.name.as_str());
    write_ref(refs, ref_name.as_str(), dh)?;
    proof {
        crate::store::lemma_hash_len(mh);
        lemma_bare_hash_of(mh@);
        let d = enc(manifest_data(manifest@));
        if no_other_bytes(before, d, module@) {
            assert(between.held(blake3_digest(d)) is None || between.held(blake3_digest(d)) == Some(d));
            lemma_manifest_round_trip(manifest@);
        }
    }
    Ok(dh)
}

} // verus!
