use chorus_store::event::Event;
use chorus_store::ops::StoreError;
use chorus_store::store::{open_store, Store};
use chorus_store::CURRENT_MIGRATION_LEVEL;

fn open_fresh() -> (tempfile::TempDir, Store) {
    let dir = tempfile::tempdir().expect("tempdir");
    let store = open_store(dir.path().to_str().expect("utf8 path")).expect("open");
    (dir, store)
}

fn mk_event(id_byte: u8, pk_byte: u8, created_at: u64, tags: Vec<Vec<Vec<u8>>>) -> Event {
    Event {
        id: vec![id_byte; 32],
        pubkey: vec![pk_byte; 32],
        created_at,
        kind: 1,
        tags,
        content: b"hello".to_vec(),
    }
}

#[test]
fn empty_open_reaches_current_level() {
    let (_dir, mut store) = open_fresh();
    store.migrate().expect("migrate");
    assert_eq!(store.get_migration_level().expect("level"), CURRENT_MIGRATION_LEVEL);
    assert_eq!(CURRENT_MIGRATION_LEVEL, 5);
    // all indexes exist and are empty
    assert!(store.scan_by_time(0, u64::MAX).expect("scan").is_empty());
    assert!(store.scan_by_author(&vec![7u8; 32], 0, u64::MAX).expect("scan").is_empty());
    assert!(store.scan_by_tag(b'e', &b"x".to_vec(), 0, u64::MAX).expect("scan").is_empty());
    assert!(store.get_by_id(&vec![1u8; 32]).expect("get").is_none());
    assert!(!store.is_deleted(&vec![1u8; 32]).expect("deleted"));
    assert_eq!(store.legacy_deleted_offsets_count().expect("count"), 0);
}

#[test]
fn migrate_twice_is_noop() {
    let (_dir, mut store) = open_fresh();
    store.migrate().expect("first migrate");
    let e = mk_event(1, 2, 100, vec![]);
    store.append(&e).expect("append");
    store.migrate().expect("second migrate");
    assert_eq!(store.get_migration_level().expect("level"), 5);
    let found = store.scan_by_time(0, u64::MAX).expect("scan");
    assert_eq!(found.len(), 1);
    assert_eq!(found[0].id, e.id);
}

#[test]
fn legacy_v0_open_rebuilds_indexes() {
    let (_dir, mut store) = open_fresh();
    let e = mk_event(3, 4, 777, vec![vec![b"e".to_vec(), b"abcd".to_vec()]]);
    // an old generation left only the id index and the log behind
    store.log_store_at(5, &e).expect("log");
    store.i_index_put(&e.id, 5).expect("i_index");
    store.migrate().expect("migrate");
    assert_eq!(store.get_migration_level().expect("level"), 5);
    let by_time = store.scan_by_time(0, u64::MAX).expect("scan");
    assert_eq!(by_time.len(), 1);
    assert_eq!(by_time[0].id, e.id);
    assert_eq!(by_time[0].created_at, 777);
    let by_author = store.scan_by_author(&e.pubkey, 0, u64::MAX).expect("scan");
    assert_eq!(by_author.len(), 1);
    assert_eq!(by_author[0].id, e.id);
    let by_tag = store.scan_by_tag(b'e', &b"abcd".to_vec(), 0, u64::MAX).expect("scan");
    assert_eq!(by_tag.len(), 1);
    assert_eq!(by_tag[0].id, e.id);
}

#[test]
fn v3_to_v5_converts_deleted() {
    let (_dir, mut store) = open_fresh();
    store.set_migration_level(3).expect("seed level");
    store.legacy_record_deleted_offset(7).expect("seed offset");
    let id_a = vec![0xAAu8; 32];
    let id_b = vec![0xBBu8; 32];
    let mut key_a = id_a.clone();
    key_a.extend_from_slice(&[1, 2, 3, 4, 5, 6, 7, 8]);
    let key_b = id_b.clone();
    store.legacy_record_deleted_event(&key_a).expect("seed a");
    store.legacy_record_deleted_event(&key_b).expect("seed b");
    assert_eq!(store.legacy_deleted_offsets_count().expect("count"), 1);

    store.migrate().expect("migrate");

    assert_eq!(store.get_migration_level().expect("level"), 5);
    assert_eq!(store.legacy_deleted_offsets_count().expect("count"), 0);
    assert!(store.legacy_deleted_event_keys().expect("keys").is_empty());
    assert!(store.is_deleted(&id_a).expect("a"));
    assert!(store.is_deleted(&id_b).expect("b"));
    assert!(!store.is_deleted(&vec![0xCCu8; 32]).expect("c"));
}

#[test]
fn tag_indexing_selectivity() {
    let (_dir, mut store) = open_fresh();
    store.migrate().expect("migrate");
    let e = mk_event(9, 10, 50, vec![
        vec![b"e".to_vec(), b"abcd".to_vec()],
        vec![b"expiration".to_vec(), b"123".to_vec()],
    ]);
    store.append(&e).expect("append");
    let hit = store.scan_by_tag(b'e', &b"abcd".to_vec(), 0, u64::MAX).expect("scan");
    assert_eq!(hit.len(), 1);
    assert_eq!(hit[0].id, e.id);
    // the multi-byte-name tag is not indexed, under any value one could ask
    assert!(store.scan_by_tag(b'e', &b"123".to_vec(), 0, u64::MAX).expect("scan").is_empty());
    assert!(store
        .scan_by_tag(b'e', &b"xpiration".to_vec(), 0, u64::MAX)
        .expect("scan")
        .is_empty());
}

#[test]
fn tag_scan_is_time_ordered() {
    let (_dir, mut store) = open_fresh();
    store.migrate().expect("migrate");
    let tag = vec![vec![b"e".to_vec(), b"abcd".to_vec()]];
    store.append(&mk_event(5, 6, 30, tag.clone())).expect("append");
    store.append(&mk_event(6, 6, 10, tag.clone())).expect("append");
    store.append(&mk_event(7, 6, 20, tag.clone())).expect("append");
    let hits = store.scan_by_tag(b'e', &b"abcd".to_vec(), 0, u64::MAX).expect("scan");
    assert_eq!(hits.len(), 3);
    assert_eq!(hits[0].created_at, 10);
    assert_eq!(hits[1].created_at, 20);
    assert_eq!(hits[2].created_at, 30);
}

#[test]
fn time_range_scan() {
    let (_dir, mut store) = open_fresh();
    store.migrate().expect("migrate");
    let e1 = mk_event(1, 7, 100, vec![]);
    let e2 = mk_event(2, 7, 200, vec![]);
    let e3 = mk_event(3, 7, 300, vec![]);
    store.append(&e1).expect("append");
    store.append(&e3).expect("append");
    store.append(&e2).expect("append");
    let window = store.scan_by_time(150, 250).expect("scan");
    assert_eq!(window.len(), 1);
    assert_eq!(window[0].id, e2.id);
    assert_eq!(window[0].created_at, 200);
    let all = store.scan_by_time(0, u64::MAX).expect("scan");
    assert_eq!(all.len(), 3);
    assert_eq!(all[0].created_at, 100);
    assert_eq!(all[1].created_at, 200);
    assert_eq!(all[2].created_at, 300);
    let by_author = store.scan_by_author(&vec![7u8; 32], 150, 250).expect("scan");
    assert_eq!(by_author.len(), 1);
    assert_eq!(by_author[0].id, e2.id);
}

#[test]
fn deletion_suppression() {
    let (_dir, mut store) = open_fresh();
    store.migrate().expect("migrate");
    let e = mk_event(4, 5, 123, vec![]);
    store.append(&e).expect("append");
    assert_eq!(store.scan_by_time(0, u64::MAX).expect("scan").len(), 1);
    store.mark_deleted(&e.id).expect("mark");
    assert!(store.scan_by_time(0, u64::MAX).expect("scan").is_empty());
    // the tombstone is a read-side filter, not a log mutation
    let still = store.get_by_id(&e.id).expect("get").expect("present");
    assert_eq!(still.created_at, 123);
    assert!(store.is_deleted(&e.id).expect("deleted"));
}

#[test]
fn append_fills_every_index() {
    let (_dir, mut store) = open_fresh();
    store.migrate().expect("migrate");
    let e = mk_event(11, 12, 42, vec![vec![b"p".to_vec(), b"peer".to_vec()]]);
    let off = store.append(&e).expect("append");
    let got = store.get_by_id(&e.id).expect("get").expect("present");
    assert_eq!(got.id, e.id);
    assert_eq!(got.pubkey, e.pubkey);
    assert_eq!(got.created_at, 42);
    assert_eq!(got.kind, e.kind);
    assert_eq!(got.tags, e.tags);
    assert_eq!(got.content, e.content);
    let direct = store.get_event_by_offset(off).expect("by offset");
    assert_eq!(direct.id, e.id);
    assert_eq!(store.scan_by_time(42, 42).expect("scan").len(), 1);
    assert_eq!(store.scan_by_author(&e.pubkey, 0, u64::MAX).expect("scan").len(), 1);
    assert_eq!(store.scan_by_tag(b'p', &b"peer".to_vec(), 0, u64::MAX).expect("scan").len(), 1);
    assert!(!store.is_deleted(&e.id).expect("deleted"));
}

#[test]
fn offsets_strictly_increase() {
    let (_dir, mut store) = open_fresh();
    store.migrate().expect("migrate");
    let o1 = store.append(&mk_event(1, 1, 1, vec![])).expect("append");
    let o2 = store.append(&mk_event(2, 1, 2, vec![])).expect("append");
    let o3 = store.append(&mk_event(3, 1, 3, vec![])).expect("append");
    assert!(o1 < o2 && o2 < o3);
}

#[test]
fn schema_ahead_is_fatal() {
    let (_dir, mut store) = open_fresh();
    store.set_migration_level(9).expect("seed level");
    match store.migrate() {
        Err(StoreError::SchemaAhead(l)) => assert_eq!(l, 9),
        other => panic!("expected SchemaAhead, got {:?}", other.map(|_| ())),
    }
}

#[test]
fn short_level_value_is_an_error() {
    let (_dir, mut store) = open_fresh();
    let key = b"migration_level".to_vec();
    store.general_set(&key, &vec![0, 3]).expect("seed");
    match store.get_migration_level() {
        Err(StoreError::BadLevelValue) => {}
        other => panic!("expected BadLevelValue, got {:?}", other.map(|_| ())),
    }
}

#[test]
fn dangling_index_entry_is_corrupt() {
    let (_dir, mut store) = open_fresh();
    store.migrate().expect("migrate");
    let id = vec![0x55u8; 32];
    store.i_index_put(&id, 9999).expect("seed");
    match store.get_by_id(&id) {
        Err(StoreError::Corrupt(off)) => assert_eq!(off, 9999),
        other => panic!("expected Corrupt, got {:?}", other.map(|_| ())),
    }
}

#[test]
fn general_singletons_round_trip() {
    let (_dir, mut store) = open_fresh();
    let key = b"flavour".to_vec();
    assert!(store.general_lookup(&key).expect("lookup").is_none());
    store.general_set(&key, &b"salt".to_vec()).expect("set");
    assert_eq!(store.general_lookup(&key).expect("lookup").expect("present"), b"salt".to_vec());
}
