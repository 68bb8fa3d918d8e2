use spirit::modules::{
    check_publish, installed, module_bytes, module_bytes_in, module_ref_name, publish_module, seed_module_if_absent,
    strip_module_ref, ModuleKind, ModuleManifest,
};
use spirit::store::{BlobHash, MemBlobs};

struct Store {
    blobs: MemBlobs,
    refs: Vec<(String, BlobHash)>,
}

impl Store {
    fn new() -> Self {
        Store { blobs: MemBlobs::new(), refs: Vec::new() }
    }

    fn publish(&mut self, manifest: &ModuleManifest, module: &[u8]) -> Result<BlobHash, String> {
        publish_module(&mut self.blobs, &mut self.refs, manifest, module)
    }

    fn manifest(&self, name: &str) -> Option<ModuleManifest> {
        installed(&self.blobs, &self.refs, name)
    }

    fn module_bytes(&self, name: &str) -> Result<(ModuleManifest, Vec<u8>), String> {
        module_bytes_in(&self.blobs, &self.refs, name)
    }

    fn list(&self) -> Vec<ModuleManifest> {
        let mut names: Vec<&String> = self.refs.iter().map(|(name, _)| name).collect();
        names.sort();
        names
            .into_iter()
            .filter_map(|name| strip_module_ref(name))
            .filter_map(|name| self.manifest(&name))
            .collect()
    }

    fn seed(&mut self, manifest: &ModuleManifest, module: &[u8]) -> Result<bool, String> {
        let installed = self
            .manifest(&manifest.name)
            .and_then(|existing| existing.module_hash())
            .map(|hash| (hash, self.blobs.has(hash)));
        if !seed_module_if_absent(installed) {
            return Ok(false);
        }
        self.publish(manifest, module)?;
        Ok(true)
    }
}

fn manifest_for(name: &str, kind: ModuleKind, module: &[u8]) -> ModuleManifest {
    ModuleManifest {
        name: name.into(),
        kind,
        abi_version: 0,
        display: format!("{name} module"),
        version: "0.1.0".into(),
        module: BlobHash::of(module).to_hex(),
    }
}

#[test]
fn a_manifest_survives_a_cbor_round_trip() {
    let manifest = manifest_for("riftbound", ModuleKind::Plugin, b"wasm bytes");
    let decoded = ModuleManifest::decode(&manifest.encode().unwrap()).unwrap();
    assert_eq!(decoded, manifest);
    assert_eq!(decoded.kind.label(), "plugin");
    assert_eq!(decoded.module_hash(), Some(BlobHash::of(b"wasm bytes")));
}

#[test]
fn garbage_bytes_do_not_decode_as_a_manifest() {
    assert!(ModuleManifest::decode(b"not cbor at all").is_none());
}

#[test]
fn publish_stores_blob_manifest_and_ref() {
    let mut store = Store::new();
    let manifest = manifest_for("engine", ModuleKind::Engine, b"engine wasm");
    store.publish(&manifest, b"engine wasm").unwrap();
    let (loaded, bytes) = store.module_bytes("engine").unwrap();
    assert_eq!(loaded, manifest);
    assert_eq!(bytes, b"engine wasm");
    let listed = store.list();
    assert_eq!(listed.len(), 1);
    assert_eq!(listed[0].name, "engine");
    assert!(store.module_bytes("absent").is_err());
}

#[test]
fn publish_refuses_a_manifest_that_lies_about_its_module() {
    let mut store = Store::new();
    let mut manifest = manifest_for("engine", ModuleKind::Engine, b"real bytes");
    manifest.module = BlobHash::of(b"other bytes").to_hex();
    assert!(store.publish(&manifest, b"real bytes").is_err());
    assert!(store.manifest("engine").is_none());
}

#[test]
fn publish_refuses_a_name_that_could_escape_the_refs_dir() {
    let mut store = Store::new();
    for name in ["../evil", "a/b", "", ".hidden"] {
        let manifest = manifest_for(name, ModuleKind::Plugin, b"bytes");
        assert!(store.publish(&manifest, b"bytes").is_err());
    }
}

#[test]
fn seeding_never_clobbers_an_installed_module() {
    let mut store = Store::new();
    let installed = manifest_for("engine", ModuleKind::Engine, b"mesh engine");
    store.publish(&installed, b"mesh engine").unwrap();
    let bundled = manifest_for("engine", ModuleKind::Engine, b"bundled engine");
    assert!(!store.seed(&bundled, b"bundled engine").unwrap());
    assert_eq!(store.module_bytes("engine").unwrap().1, b"mesh engine");
}

#[test]
fn seeding_an_empty_store_publishes_once() {
    let mut store = Store::new();
    let manifest = manifest_for("engine", ModuleKind::Engine, b"engine wasm");
    assert!(store.seed(&manifest, b"engine wasm").unwrap());
    assert!(!store.seed(&manifest, b"engine wasm").unwrap());
}

#[test]
fn ref_names_round_trip_through_the_modules_prefix() {
    assert_eq!(module_ref_name("engine"), "modules/engine");
    assert_eq!(strip_module_ref("modules/engine").as_deref(), Some("engine"));
    assert_eq!(strip_module_ref("hob"), None);
    assert_eq!(strip_module_ref("modulesengine"), None);
}

#[test]
fn refusals_name_the_module_and_the_hashes() {
    let lying = ModuleManifest {
        module: "ab".repeat(32),
        ..manifest_for("engine", ModuleKind::Engine, b"x")
    };
    assert_eq!(
        check_publish(&lying, b"real").unwrap_err(),
        format!("manifest names module {} but the bytes hash to {}", "ab".repeat(32), BlobHash::of(b"real").to_hex())
    );
    let hidden = manifest_for(".hidden", ModuleKind::Plugin, b"x");
    assert_eq!(check_publish(&hidden, b"x").unwrap_err(), "module name \".hidden\" is not publishable");
    assert_eq!(module_bytes("engine", None).unwrap_err(), "no module ref engine in the store");
    let broken = ModuleManifest { module: "zz".into(), ..manifest_for("engine", ModuleKind::Engine, b"x") };
    assert_eq!(
        module_bytes("engine", Some(broken)).unwrap_err(),
        "module ref engine names an unparsable hash"
    );
    assert_eq!(check_publish(&manifest_for("engine", ModuleKind::Engine, b"x"), b"x").unwrap(), BlobHash::of(b"x"));
}

#[test]
fn a_published_module_reads_back_with_its_bytes() {
    let mut store = Store::new();
    let manifest = manifest_for("riftbound", ModuleKind::Plugin, b"plugin wasm");
    let hash = store.publish(&manifest, b"plugin wasm").unwrap();
    assert_eq!(hash, BlobHash::of(&manifest.encode().unwrap()));
    assert_eq!(store.refs, vec![("modules/riftbound".to_string(), hash)]);
    assert_eq!(store.manifest("riftbound"), Some(manifest.clone()));
    assert_eq!(store.module_bytes("riftbound").unwrap(), (manifest, b"plugin wasm".to_vec()));
    assert_eq!(store.module_bytes("other").unwrap_err(), "no module ref other in the store");
}

#[test]
fn a_manifest_whose_bytes_are_missing_reads_as_missing() {
    let mut store = Store::new();
    let manifest = manifest_for("engine", ModuleKind::Engine, b"engine wasm");
    let bytes = manifest.encode().unwrap();
    let hash = store.blobs.put(&bytes).unwrap();
    store.refs.push(("modules/engine".to_string(), hash));
    assert_eq!(
        store.module_bytes("engine").unwrap_err(),
        format!("blob {} not in store", BlobHash::of(b"engine wasm").to_hex())
    );
}
