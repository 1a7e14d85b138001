use s3sync::codec::decode_archive;
use s3sync::store::{MemoryStore, ObjectStore};
use s3sync::sync::{archive_path, dump, populate, FatalError, Outcome};

fn seeded(pairs: &[(&[u8], &[u8])]) -> MemoryStore {
    let mut store = MemoryStore::new();
    for (key, data) in pairs {
        store.put(&key.to_vec(), &data.to_vec()).unwrap();
    }
    store
}

fn contents_of(store: &MemoryStore) -> Vec<(Vec<u8>, Vec<u8>)> {
    let mut out = Vec::new();
    for key in store.list().unwrap() {
        let data = store.get(&key).unwrap();
        out.push((key, data));
    }
    out
}

#[test]
fn round_trip_reproduces_all_pairs() {
    let pairs: &[(&[u8], &[u8])] = &[
        (b"alpha.txt", b"first payload"),
        (b"beta/nested.bin", &[0u8, 9, 8, 7]),
        (b"gamma", b""),
    ];
    let source = seeded(pairs);
    let result = dump(&source).unwrap();
    assert!(result.outcomes.iter().all(|o| o.succeeded()));

    let mut fresh = MemoryStore::new();
    let outcomes = populate(&result.archive, &mut fresh).unwrap();
    assert_eq!(outcomes.len(), pairs.len());
    assert!(outcomes.iter().all(|o| o.succeeded()));

    let mut restored = contents_of(&fresh);
    restored.sort();
    let mut expected: Vec<(Vec<u8>, Vec<u8>)> =
        pairs.iter().map(|(k, v)| (k.to_vec(), v.to_vec())).collect();
    expected.sort();
    assert_eq!(restored, expected);
}

#[test]
fn dump_preserves_listing_order() {
    let source = seeded(&[(b"a", b"1"), (b"b", b"2"), (b"c", b"3")]);
    let result = dump(&source).unwrap();
    let keys: Vec<&Vec<u8>> = result.outcomes.iter().map(|o| o.key_bytes()).collect();
    assert_eq!(keys, vec![&b"a".to_vec(), &b"b".to_vec(), &b"c".to_vec()]);

    let entries = decode_archive(&result.archive).unwrap();
    let names: Vec<Vec<u8>> = entries.iter().map(|e| e.name.clone()).collect();
    assert_eq!(names, vec![b"a".to_vec(), b"b".to_vec(), b"c".to_vec()]);
}

#[test]
fn failed_get_is_isolated_to_its_key() {
    let mut source = seeded(&[(b"a", b"1"), (b"b", b"2"), (b"c", b"3")]);
    source.fail_gets_of(b"b".to_vec());
    let result = dump(&source).unwrap();

    assert_eq!(result.outcomes.len(), 3);
    assert!(matches!(&result.outcomes[0], Outcome::Success { key } if key == &b"a".to_vec()));
    assert!(matches!(&result.outcomes[1], Outcome::Failure { key, .. } if key == &b"b".to_vec()));
    assert!(matches!(&result.outcomes[2], Outcome::Success { key } if key == &b"c".to_vec()));

    let entries = decode_archive(&result.archive).unwrap();
    let names: Vec<Vec<u8>> = entries.iter().map(|e| e.name.clone()).collect();
    assert_eq!(names, vec![b"a".to_vec(), b"c".to_vec()]);
}

#[test]
fn failed_put_is_isolated_to_its_entry() {
    let source = seeded(&[(b"a", b"1"), (b"b", b"2"), (b"c", b"3")]);
    let result = dump(&source).unwrap();

    let mut target = MemoryStore::new();
    target.fail_puts_of(b"b".to_vec());
    let outcomes = populate(&result.archive, &mut target).unwrap();
    assert_eq!(outcomes.len(), 3);
    assert!(outcomes[0].succeeded());
    assert!(!outcomes[1].succeeded());
    assert!(outcomes[2].succeeded());

    let mut stored: Vec<Vec<u8>> = target.list().unwrap();
    stored.sort();
    assert_eq!(stored, vec![b"a".to_vec(), b"c".to_vec()]);
}

#[test]
fn empty_bucket_dumps_to_empty_archive() {
    let source = MemoryStore::new();
    let result = dump(&source).unwrap();
    assert_eq!(result.outcomes.len(), 0);
    assert_eq!(result.archive.len(), 1024);
    assert_eq!(decode_archive(&result.archive).unwrap().len(), 0);

    let mut target = MemoryStore::new();
    let outcomes = populate(&result.archive, &mut target).unwrap();
    assert_eq!(outcomes.len(), 0);
    assert_eq!(target.object_count(), 0);
}

#[test]
fn listing_failure_is_fatal() {
    let mut source = seeded(&[(b"a", b"1")]);
    source.fail_listing();
    match dump(&source) {
        Err(FatalError::ListFailed(_)) => {},
        other => panic!("expected a fatal listing error, got {:?}", other),
    }
}

#[test]
fn malformed_archive_is_fatal_and_uploads_nothing() {
    let mut target = seeded(&[(b"kept", b"old")]);
    let garbage = vec![0x42u8; 4096];
    match populate(&garbage, &mut target) {
        Err(FatalError::ArchiveMalformed(_)) => {},
        other => panic!("expected a fatal decode error, got {:?}", other),
    }
    assert_eq!(target.object_count(), 1);
    assert_eq!(target.get(&b"kept".to_vec()).unwrap(), b"old".to_vec());
}

#[test]
fn populate_twice_equals_populate_once() {
    let source = seeded(&[(b"k1", b"v1"), (b"k2", b"v2")]);
    let archive = dump(&source).unwrap().archive;

    let mut once = MemoryStore::new();
    populate(&archive, &mut once).unwrap();

    let mut twice = MemoryStore::new();
    populate(&archive, &mut twice).unwrap();
    populate(&archive, &mut twice).unwrap();

    let mut a = contents_of(&once);
    let mut b = contents_of(&twice);
    a.sort();
    b.sort();
    assert_eq!(a, b);
    assert_eq!(twice.object_count(), 2);
}

#[test]
fn populate_overwrites_earlier_values() {
    let mut target = seeded(&[(b"k1", b"stale")]);
    let source = seeded(&[(b"k1", b"fresh")]);
    let archive = dump(&source).unwrap().archive;
    populate(&archive, &mut target).unwrap();
    assert_eq!(target.get(&b"k1".to_vec()).unwrap(), b"fresh".to_vec());
}

#[test]
fn archive_path_appends_dump_suffix() {
    assert_eq!(archive_path(&b"bucket".to_vec()), b"bucket_dump.tar".to_vec());
}

#[test]
fn oversized_key_yields_failure_outcome() {
    let long_key = vec![b'k'; 150];
    let source = seeded(&[(b"short", b"ok"), (&long_key, b"too long")]);
    let result = dump(&source).unwrap();
    assert_eq!(result.outcomes.len(), 2);
    let entries = decode_archive(&result.archive).unwrap();
    assert_eq!(entries.len(), 1);
    assert_eq!(entries[0].name, b"short".to_vec());
    for o in &result.outcomes {
        match o {
            Outcome::Success { key } => assert_eq!(key, &b"short".to_vec()),
            Outcome::Failure { key, .. } => assert_eq!(key, &long_key),
        }
    }
}
