use sha2::{Digest, Sha256};
use supervisor_schema::binary_set::BinarySet;
use supervisor_schema::confirmation_index::ConfirmationIndex;
use supervisor_schema::schema::{
    pending_artifacts_address, pending_instances_address, IndexStore, PublicKey, Schema,
};

fn key(byte: u8) -> PublicKey {
    PublicKey::new([byte; 32])
}

fn frame(item: &[u8]) -> Vec<u8> {
    let mut out = (item.len() as u64).to_le_bytes().to_vec();
    out.extend_from_slice(item);
    out
}

#[test]
fn test_bad_instance_name() {}

#[test]
fn confirmations_count_distinct_authors() {
    let mut schema = Schema::new("supervisor", IndexStore::new());
    assert_eq!(schema.confirm_pending_artifact(b"artifact", key(1)), 1);
    assert_eq!(schema.confirm_pending_artifact(b"artifact", key(1)), 1);
    assert_eq!(schema.confirm_pending_artifact(b"artifact", key(2)), 2);
    assert_eq!(schema.confirm_pending_artifact(b"other", key(2)), 1);
    assert_eq!(schema.confirm_pending_artifact(b"artifact", key(3)), 3);
    let artifacts = schema.pending_artifacts();
    let confirmations = artifacts.get(b"artifact").unwrap();
    assert_eq!(
        confirmations.elements(),
        &vec![vec![1u8; 32], vec![2u8; 32], vec![3u8; 32]]
    );
    assert_eq!(schema.pending_artifacts().len(), 2);
    assert_eq!(schema.pending_instances().len(), 0);
}

#[test]
fn instance_confirmations_are_kept_apart() {
    let mut schema = Schema::new("supervisor", IndexStore::new());
    assert_eq!(schema.confirm_pending_instance(b"start", key(5)), 1);
    assert_eq!(schema.confirm_pending_instance(b"start", key(6)), 2);
    assert_eq!(schema.confirm_pending_artifact(b"start", key(5)), 1);
    let instances = schema.pending_instances();
    let artifacts = schema.pending_artifacts();
    assert_eq!(instances.get(b"start").unwrap().len(), 2);
    assert_eq!(artifacts.get(b"start").unwrap().len(), 1);
    assert!(instances.get(b"absent").is_none());
}

#[test]
fn schema_keeps_name_and_gives_indexes_back() {
    let mut store = IndexStore::new();
    let mut set = BinarySet::new();
    set.insert(vec![4u8; 32]);
    let mut index = ConfirmationIndex::new();
    index.put(b"known", set);
    store.put(&pending_artifacts_address("my-supervisor"), index);
    let mut schema = Schema::new("my-supervisor", store);
    assert_eq!(schema.instance_name(), "my-supervisor");
    assert_eq!(schema.confirm_pending_artifact(b"known", key(9)), 2);
    let store = schema.into_access();
    let stored = store.index(&pending_artifacts_address("my-supervisor"));
    assert_eq!(stored.get(b"known").unwrap().len(), 2);
    assert_eq!(store.index(&pending_instances_address("my-supervisor")).len(), 0);
}

#[test]
fn public_key_bytes() {
    let k = PublicKey::new([0xab; 32]);
    assert_eq!(k.as_bytes(), [0xab; 32]);
    assert_eq!(k.to_bytes(), vec![0xab; 32]);
}

#[test]
fn index_put_replaces_and_get_reads() {
    let mut index = ConfirmationIndex::new();
    assert!(index.get(b"k").is_none());
    let mut a = BinarySet::new();
    a.insert(b"x".to_vec());
    index.put(b"k", a.clone());
    assert_eq!(index.get(b"k"), Some(&a));
    let mut b = BinarySet::new();
    b.insert(b"y".to_vec());
    b.insert(b"z".to_vec());
    index.put(b"k", b.clone());
    assert_eq!(index.get(b"k"), Some(&b));
    assert_eq!(index.len(), 1);
    index.put(b"a", BinarySet::new());
    assert_eq!(index.len(), 2);
    assert_eq!(ConfirmationIndex::default().len(), 0);
}

#[test]
fn index_hash_covers_entries_in_key_order() {
    let mut index = ConfirmationIndex::new();
    let mut zed = BinarySet::new();
    zed.insert(b"v2".to_vec());
    let mut ay = BinarySet::new();
    ay.insert(b"v1".to_vec());
    index.put(b"zed", zed.clone());
    index.put(b"ay", ay.clone());
    let mut expected = Vec::new();
    expected.extend(frame(b"ay"));
    expected.extend(frame(&ay.to_bytes()));
    expected.extend(frame(b"zed"));
    expected.extend(frame(&zed.to_bytes()));
    let digest: [u8; 32] = Sha256::digest(&expected).into();
    assert_eq!(index.object_hash().as_bytes(), digest);
}

#[test]
fn state_hash_lists_both_index_hashes() {
    let mut schema = Schema::new("supervisor", IndexStore::new());
    let empty: [u8; 32] = Sha256::digest(b"").into();
    let hashes = schema.state_hash();
    assert_eq!(hashes.len(), 2);
    assert_eq!(hashes[0].as_bytes(), empty);
    assert_eq!(hashes[1].as_bytes(), empty);

    schema.confirm_pending_artifact(b"art", key(1));
    let hashes = schema.state_hash();
    assert_eq!(hashes[0], schema.pending_artifacts().object_hash());
    assert_ne!(hashes[0].as_bytes(), empty);
    assert_eq!(hashes[1].as_bytes(), empty);

    let mut expected = Vec::new();
    expected.extend(frame(b"art"));
    expected.extend(frame(&frame(&[1u8; 32])));
    let digest: [u8; 32] = Sha256::digest(&expected).into();
    assert_eq!(hashes[0].as_bytes(), digest);
}

#[test]
fn confirmation_order_does_not_change_state_hash() {
    let mut a = Schema::new("s", IndexStore::new());
    let mut b = Schema::new("s", IndexStore::new());
    a.confirm_pending_artifact(b"x", key(1));
    a.confirm_pending_instance(b"y", key(2));
    a.confirm_pending_artifact(b"x", key(3));
    b.confirm_pending_artifact(b"x", key(3));
    b.confirm_pending_artifact(b"x", key(1));
    b.confirm_pending_instance(b"y", key(2));
    b.confirm_pending_instance(b"y", key(2));
    assert_eq!(a.state_hash(), b.state_hash());
}

#[test]
fn index_addresses_are_name_then_suffix() {
    assert_eq!(pending_artifacts_address("sup"), b"sup.pending_artifacts".to_vec());
    assert_eq!(pending_instances_address("sup"), b"sup.pending_instances".to_vec());
    assert_eq!(pending_artifacts_address("é"), "é.pending_artifacts".as_bytes().to_vec());
}

#[test]
fn instances_with_other_names_use_other_indexes() {
    let mut first = Schema::new("first", IndexStore::new());
    assert_eq!(first.confirm_pending_artifact(b"req", key(1)), 1);
    let store = first.into_access();
    let mut second = Schema::new("second", store);
    assert_eq!(second.pending_artifacts().len(), 0);
    assert_eq!(second.confirm_pending_artifact(b"req", key(2)), 1);
    let store = second.into_access();
    let mut again = Schema::new("first", store);
    assert_eq!(again.confirm_pending_artifact(b"req", key(2)), 2);
    let store = again.into_access();
    assert_eq!(store.index(&pending_artifacts_address("second")).len(), 1);
}

#[test]
fn take_removes_the_index() {
    let mut store = IndexStore::new();
    let mut index = ConfirmationIndex::new();
    index.put(b"k", BinarySet::new());
    store.put(b"addr", index);
    let taken = store.take(b"addr");
    assert_eq!(taken.len(), 1);
    assert_eq!(store.index(b"addr").len(), 0);
    assert_eq!(store.take(b"addr").len(), 0);
}

#[test]
fn run_of_confirmations_counts_distinct_authors() {
    let mut schema = Schema::new("s", IndexStore::new());
    let a = key(10);
    let b = key(11);
    assert_eq!(schema.confirm_pending_instance(b"spec", a), 1);
    assert_eq!(schema.confirm_pending_instance(b"spec", b), 2);
    assert_eq!(schema.confirm_pending_instance(b"other", b), 1);
    assert_eq!(schema.confirm_pending_instance(b"spec", a), 2);
}

#[test]
fn new_author_changes_state_hash() {
    let mut schema = Schema::new("s", IndexStore::new());
    schema.confirm_pending_artifact(b"x", key(1));
    let before = schema.state_hash();
    schema.confirm_pending_artifact(b"x", key(1));
    assert_eq!(schema.state_hash(), before);
    schema.confirm_pending_artifact(b"x", key(2));
    let after = schema.state_hash();
    assert_ne!(after[0], before[0]);
    assert_eq!(after[1], before[1]);
}

#[test]
fn pending_indexes_are_snapshots_stored_back_by_put() {
    let mut schema = Schema::new("s", IndexStore::new());
    let mut index = schema.pending_artifacts();
    let mut set = BinarySet::new();
    set.insert(vec![7u8; 32]);
    index.put(b"req", set);
    assert_eq!(schema.pending_artifacts().len(), 0);
    schema.put_pending_artifacts(index);
    assert_eq!(schema.pending_artifacts().len(), 1);
    assert_eq!(schema.confirm_pending_artifact(b"req", key(8)), 2);
    assert_eq!(schema.pending_instances().len(), 0);

    let mut instances = schema.pending_instances();
    instances.put(b"start", BinarySet::new());
    schema.put_pending_instances(instances);
    assert_eq!(schema.pending_instances().len(), 1);
    assert_eq!(schema.pending_artifacts().len(), 1);
}
