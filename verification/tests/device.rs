use spirit::address::CiHash;
use spirit::builder::Builder;
use spirit::collection::{fold, Collection, Op};
use spirit::device::{
    admit_device, ensure_self, member_ids, read_device, revoke, Device, Member, Settings,
    DEVICE_KIND, GROUP_COLLECTION, UNVERIFIED,
};
use spirit::identity::{Dgid, Identity};
use spirit::record::Cir;
use spirit::store::{BlobHash, MemBlobs};
use std::collections::HashMap;

const NOW: &str = "2030-01-01T00:00:00Z";

struct Store {
    blobs: MemBlobs,
    refs: HashMap<String, BlobHash>,
}

impl Store {
    fn new() -> Self {
        Store { blobs: MemBlobs::new(), refs: HashMap::new() }
    }

    fn load(&self, name: &str) -> Option<(Collection, Vec<Op>)> {
        let head = Collection::decode(&self.blobs.get(*self.refs.get(name)?).ok()?).ok()?;
        let ops = head
            .ops
            .iter()
            .filter_map(|hash| Op::decode(&self.blobs.get(*hash).ok()?).ok())
            .collect();
        Some((head, ops))
    }

    fn members(&self, group: Dgid) -> Vec<Member> {
        let Some((head, ops)) = self.load(GROUP_COLLECTION) else {
            return Vec::new();
        };
        let owned = head.owner == group;
        fold(head.owner, &ops)
            .into_iter()
            .filter_map(|item| {
                let device = read_device(&self.blobs.get(item.ci.hash()).ok()?)?;
                let expired = device.settings.expires.as_deref().map_or(false, |at| at < NOW);
                Some(Member::of(item.ci, device, owned, group, expired))
            })
            .collect()
    }

    fn publish(&mut self, builder: &mut Builder, identity: &Identity) -> BlobHash {
        let (ops, head) = builder.prepare(identity).unwrap();
        for op in &ops {
            self.blobs.put(&op.encode().unwrap()).unwrap();
        }
        let hash = self.blobs.put(&head.encode().unwrap()).unwrap();
        self.refs.insert(head.name.clone(), hash);
        hash
    }

    fn offer(&mut self, group: &Identity, device: &Device) -> Result<(CiHash, BlobHash, bool), String> {
        let members = self.members(group.dgid());
        let mut builder = Builder::open(self.load(GROUP_COLLECTION), GROUP_COLLECTION, group.dgid());
        let admission = admit_device(group.dgid(), device, &members, &mut builder)?;
        self.blobs.put(&device.cir().unwrap().encode().unwrap()).unwrap();
        if admission.already {
            return Ok((admission.ci, self.refs[GROUP_COLLECTION], true));
        }
        let head = self.publish(&mut builder, group);
        Ok((admission.ci, head, false))
    }

    fn ensure_self(&mut self, group: &Identity, device: &Identity) -> (CiHash, BlobHash, bool) {
        let members = self.members(group.dgid());
        let mut builder = Builder::open(self.load(GROUP_COLLECTION), GROUP_COLLECTION, group.dgid());
        let (record, admission) = ensure_self(group.dgid(), device, &members, &mut builder).unwrap();
        self.blobs.put(&record.cir().unwrap().encode().unwrap()).unwrap();
        if admission.already {
            return (admission.ci, self.refs[GROUP_COLLECTION], true);
        }
        let head = self.publish(&mut builder, group);
        (admission.ci, head, false)
    }

    fn revoke(&mut self, group: &Identity, node_hex: &str) -> Option<BlobHash> {
        let members = self.members(group.dgid());
        let mut builder = Builder::open(self.load(GROUP_COLLECTION), GROUP_COLLECTION, group.dgid());
        if revoke(&members, node_hex, &mut builder) {
            Some(self.publish(&mut builder, group))
        } else {
            None
        }
    }
}

#[test]
fn a_device_record_carries_the_devices_own_consent() {
    let group = Identity::from_secret([1; 32]);
    let device = Identity::from_secret([2; 32]);
    let record = Device::sign(&device, Settings::for_group(group.dgid())).unwrap();
    assert!(record.verify());
    assert_eq!(record.node_id(), Some(*device.dgid().as_bytes()));
    assert!(record.pubkey.starts_with("nodeid:"));
    let mut tampered = record.clone();
    tampered.settings.tags.push("cdn".into());
    assert!(!tampered.verify());
    let cir = record.cir().unwrap();
    assert_eq!(cir.kind, DEVICE_KIND);
    let back = Device::from_value(&Cir::decode(&cir.encode().unwrap()).unwrap().body().unwrap()).unwrap();
    assert_eq!(back, record);
}

#[test]
fn a_group_of_one_admits_itself_then_a_second_device() {
    let mut store = Store::new();
    let group = Identity::from_secret([1; 32]);
    let me = Identity::from_secret([2; 32]);
    let other = Identity::from_secret([3; 32]);
    let first = store.ensure_self(&group, &me);
    assert!(!first.2);
    let again = store.ensure_self(&group, &me);
    assert!(again.2);
    assert_eq!(again.1, first.1);
    let record = Device::sign(&other, Settings::for_group(group.dgid())).unwrap();
    let admitted = store.offer(&group, &record).unwrap();
    assert!(!admitted.2);
    let ids = member_ids(&store.members(group.dgid()));
    assert_eq!(ids.len(), 2);
    assert!(ids.contains(&record.node_hex()));
    let (head, _) = store.load(GROUP_COLLECTION).unwrap();
    assert_eq!(head.kind, GROUP_COLLECTION);
    assert_eq!(head.owner, group.dgid());
}

#[test]
fn a_device_offered_to_another_group_or_expired_is_not_a_member() {
    let mut store = Store::new();
    let group = Identity::from_secret([1; 32]);
    let stranger_group = Identity::from_secret([9; 32]);
    let device = Identity::from_secret([2; 32]);
    let foreign = Device::sign(&device, Settings::for_group(stranger_group.dgid())).unwrap();
    assert_eq!(
        store.offer(&group, &foreign).unwrap_err(),
        format!("the device offers itself to {} not to this group", stranger_group.dgid().to_string())
    );
    let mut settings = Settings::for_group(group.dgid());
    settings.expires = Some("2000-01-01T00:00:00Z".into());
    let stale = Device::sign(&device, settings).unwrap();
    store.offer(&group, &stale).unwrap();
    let listed = store.members(group.dgid());
    assert_eq!(listed.len(), 1);
    assert!(listed[0].expired);
    assert!(member_ids(&listed).is_empty());
}

#[test]
fn joining_a_new_group_sheds_the_record_from_the_old_one() {
    let mut store = Store::new();
    let old_group = Identity::from_secret([1; 32]);
    let new_group = Identity::from_secret([4; 32]);
    let me = Identity::from_secret([2; 32]);
    store.ensure_self(&old_group, &me);
    assert!(store.members(new_group.dgid()).iter().all(|m| !m.verified));
    store.ensure_self(&new_group, &me);
    let listed = store.members(new_group.dgid());
    assert_eq!(listed.len(), 1);
    assert!(listed[0].verified);
    assert_eq!(listed[0].device.settings.dgid, new_group.dgid());
}

#[test]
fn revoking_drops_the_device_and_re_admitting_restores_it() {
    let mut store = Store::new();
    let group = Identity::from_secret([1; 32]);
    let device = Identity::from_secret([2; 32]);
    let record = Device::sign(&device, Settings::for_group(group.dgid())).unwrap();
    store.offer(&group, &record).unwrap();
    assert!(store.revoke(&group, &record.node_hex()).is_some());
    assert!(member_ids(&store.members(group.dgid())).is_empty());
    assert!(store.revoke(&group, &record.node_hex()).is_none());
    store.offer(&group, &record).unwrap();
    assert_eq!(member_ids(&store.members(group.dgid())).len(), 1);
}

#[test]
fn a_record_that_does_not_verify_is_refused_and_leaves_the_builder_alone() {
    let group = Identity::from_secret([1; 32]);
    let device = Identity::from_secret([2; 32]);
    let mut record = Device::sign(&device, Settings::for_group(group.dgid())).unwrap();
    record.settings.role = Some("cdn".into());
    let mut builder = Builder::open(None, GROUP_COLLECTION, group.dgid());
    assert_eq!(admit_device(group.dgid(), &record, &Vec::new(), &mut builder).unwrap_err(), UNVERIFIED);
    assert_eq!(builder.items().len(), 0);
    assert_eq!(builder.pending(), 0);
}

#[test]
fn admitting_a_new_record_of_a_node_sheds_its_older_one() {
    let group = Identity::from_secret([1; 32]);
    let device = Identity::from_secret([2; 32]);
    let older = Device::sign(&device, Settings::for_group(group.dgid())).unwrap();
    let mut settings = Settings::for_group(group.dgid());
    settings.tags = vec!["cdn".into(), "edge".into()];
    let newer = Device::sign(&device, settings).unwrap();
    let older_ci = older.ci().unwrap();
    let members = vec![Member::of(older_ci, older, true, group.dgid(), false)];
    let mut builder = Builder::open(None, GROUP_COLLECTION, group.dgid());
    let admission = admit_device(group.dgid(), &newer, &members, &mut builder).unwrap();
    assert!(!admission.already);
    assert_ne!(admission.ci, older_ci);
    assert_eq!(builder.items().len(), 1);
    assert_eq!(builder.items()[0].ci, admission.ci);
    assert_eq!(builder.items()[0].label.as_deref(), Some(newer.node_hex().as_str()));
}

#[test]
fn a_node_key_reads_with_or_without_its_prefix() {
    let device = Identity::from_secret([5; 32]);
    let group = Identity::from_secret([6; 32]);
    let mut record = Device::sign(&device, Settings::for_group(group.dgid())).unwrap();
    let hex = record.node_hex();
    assert_eq!(hex.len(), 64);
    assert_eq!(record.pubkey, format!("nodeid:{hex}"));
    record.pubkey = hex.clone();
    assert_eq!(record.node_hex(), hex);
    assert_eq!(record.node_id(), Some(*device.dgid().as_bytes()));
    assert!(record.verify());
    record.pubkey = "nodeid:not-a-key".into();
    assert_eq!(record.node_id(), None);
    assert!(!record.verify());
}

#[test]
fn settings_written_as_a_map_read_back() {
    let group = Identity::from_secret([7; 32]);
    let mut settings = Settings::for_group(group.dgid());
    settings.expires = Some("2031-02-03T04:05:06Z".into());
    settings.role = Some("relay".into());
    settings.tags = vec!["a".into(), "b".into()];
    let back = Settings::from_value(&settings.to_value()).unwrap();
    assert_eq!(back, settings);
    let bare = Settings::for_group(group.dgid());
    let value = bare.to_value();
    assert!(spirit::fields::get_field(&value, "tags").is_none());
    assert!(spirit::fields::get_field(&value, "expires").is_none());
    assert_eq!(Settings::from_value(&value).unwrap(), bare);
}

#[test]
fn stored_bytes_of_another_kind_hold_no_device() {
    let body = spirit::fields::text("x");
    let cir = Cir::new("wasm-module", &body).unwrap();
    assert!(read_device(&cir.encode().unwrap()).is_none());
    assert!(read_device(b"not cbor").is_none());
}
