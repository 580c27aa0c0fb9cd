use std::sync::atomic::{AtomicU64, Ordering};
use std::time::{SystemTime, UNIX_EPOCH};

use esdb::persistence::hash_str;
use esdb::{Descriptor, Event, Identifier, Position, Specifier, StoreError, Stream, Tag, Version};

static COUNTER: AtomicU64 = AtomicU64::new(0);

fn fresh_path(name: &str) -> String {
    let nanos = SystemTime::now().duration_since(UNIX_EPOCH).unwrap().as_nanos();
    let n = COUNTER.fetch_add(1, Ordering::SeqCst);
    format!("/tmp/esdb-test-{name}-{nanos}-{n}")
}

fn event(identifier: &str, version: u8, tags: &[&str]) -> Event {
    Event::new(
        vec![1, 2, 3],
        Descriptor::new(Identifier::new(identifier.to_string()), Version::new(version)),
        tags.iter().map(|t| Tag::new(t.to_string())).collect(),
    )
}

fn three_events() -> Vec<Event> {
    vec![event("A", 0, &["x", "y"]), event("B", 0, &["x"]), event("A", 1, &["z"])]
}

fn specifier(identifier: &str, range: Option<std::ops::Range<u8>>) -> Specifier {
    Specifier::new(
        Identifier::new(identifier.to_string()),
        range.map(|r| Version::new(r.start)..Version::new(r.end)),
    )
}

#[test]
fn fresh_store_is_empty() {
    let stream = Stream::new(&fresh_path("fresh")).unwrap();
    assert_eq!(stream.len().unwrap(), 0);
    assert!(stream.is_empty().unwrap());
}

#[test]
fn append_three_events_len() {
    let mut stream = Stream::new(&fresh_path("three")).unwrap();
    stream.append(three_events()).unwrap();
    assert_eq!(stream.len().unwrap(), 3);
    assert!(!stream.is_empty().unwrap());
}

#[test]
fn iterate_all_versions() {
    let mut stream = Stream::new(&fresh_path("all")).unwrap();
    stream.append(three_events()).unwrap();
    assert_eq!(stream.iterate(specifier("A", None), None).unwrap(), vec![0, 2]);
    assert_eq!(stream.iterate(specifier("B", None), None).unwrap(), vec![1]);
    assert_eq!(stream.iterate(specifier("C", None), None).unwrap(), Vec::<u64>::new());
}

#[test]
fn iterate_version_range_excludes_end() {
    let mut stream = Stream::new(&fresh_path("range0")).unwrap();
    stream.append(three_events()).unwrap();
    assert_eq!(stream.iterate(specifier("A", Some(0..1)), None).unwrap(), vec![0]);
}

#[test]
fn iterate_version_range_one() {
    let mut stream = Stream::new(&fresh_path("range1")).unwrap();
    stream.append(three_events()).unwrap();
    assert_eq!(stream.iterate(specifier("A", Some(1..2)), None).unwrap(), vec![2]);
}

#[test]
fn iterate_from_position() {
    let mut stream = Stream::new(&fresh_path("from")).unwrap();
    stream.append(three_events()).unwrap();
    assert_eq!(stream.iterate(specifier("A", None), Some(Position::new(2))).unwrap(), vec![2]);
    assert_eq!(stream.iterate(specifier("A", None), Some(Position::new(1))).unwrap(), vec![2]);
    assert_eq!(stream.iterate(specifier("A", None), Some(Position::new(0))).unwrap(), vec![0, 2]);
    assert_eq!(stream.iterate(specifier("A", None), Some(Position::new(3))).unwrap(), Vec::<u64>::new());
}

#[test]
fn descriptor_reference_holds_identifier() {
    let path = fresh_path("reference");
    {
        let mut stream = Stream::new(&path).unwrap();
        stream.append(three_events()).unwrap();
    }
    let keyspace = fjall::Config::new(&path).open().unwrap();
    let reference = keyspace
        .open_partition("reference", fjall::PartitionCreateOptions::default())
        .unwrap();
    let mut key = vec![0u8];
    key.extend_from_slice(&hash_str("A").to_be_bytes());
    let value = reference.get(&key).unwrap().unwrap();
    assert_eq!(&value[..], b"A");
    let mut tag_key = vec![1u8];
    tag_key.extend_from_slice(&hash_str("x").to_be_bytes());
    let value = reference.get(&tag_key).unwrap().unwrap();
    assert_eq!(&value[..], b"x");
}

#[test]
fn reopen_keeps_length_and_index() {
    let path = fresh_path("reopen");
    {
        let mut stream = Stream::new(&path).unwrap();
        stream.append(three_events()).unwrap();
    }
    let mut stream = Stream::new(&path).unwrap();
    assert_eq!(stream.len().unwrap(), 3);
    assert_eq!(stream.iterate(specifier("A", None), None).unwrap(), vec![0, 2]);
    stream.append(vec![event("A", 2, &[])]).unwrap();
    assert_eq!(stream.len().unwrap(), 4);
    assert_eq!(stream.iterate(specifier("A", None), None).unwrap(), vec![0, 2, 3]);
}

#[test]
fn too_many_tags_rejected() {
    let mut stream = Stream::new(&fresh_path("tags")).unwrap();
    stream.append(three_events()).unwrap();
    let names: Vec<String> = (0..256).map(|i| format!("t{i}")).collect();
    let refs: Vec<&str> = names.iter().map(|s| s.as_str()).collect();
    let result = stream.append(vec![event("C", 0, &[]), event("D", 0, &refs)]);
    assert!(matches!(result, Err(StoreError::TooManyTags)));
    assert_eq!(stream.len().unwrap(), 3);
    assert_eq!(stream.iterate(specifier("C", None), None).unwrap(), Vec::<u64>::new());
    stream.append(vec![event("C", 0, &[])]).unwrap();
    assert_eq!(stream.len().unwrap(), 4);
    assert_eq!(stream.iterate(specifier("C", None), None).unwrap(), vec![3]);
}

#[test]
fn most_tags_accepted() {
    let mut stream = Stream::new(&fresh_path("maxtags")).unwrap();
    let names: Vec<String> = (0..255).map(|i| format!("t{i}")).collect();
    let refs: Vec<&str> = names.iter().map(|s| s.as_str()).collect();
    stream.append(vec![event("A", 0, &refs)]).unwrap();
    assert_eq!(stream.len().unwrap(), 1);
}

#[test]
fn empty_append_changes_nothing() {
    let mut stream = Stream::new(&fresh_path("emptyappend")).unwrap();
    stream.append(Vec::new()).unwrap();
    assert_eq!(stream.len().unwrap(), 0);
    stream.append(three_events()).unwrap();
    stream.append(Vec::new()).unwrap();
    assert_eq!(stream.len().unwrap(), 3);
}

#[test]
fn positions_increase_across_appends() {
    let mut stream = Stream::new(&fresh_path("monotonic")).unwrap();
    stream.append(vec![event("A", 0, &[])]).unwrap();
    stream.append(vec![event("A", 0, &[]), event("A", 0, &[])]).unwrap();
    stream.append(vec![event("A", 0, &[])]).unwrap();
    assert_eq!(stream.iterate(specifier("A", None), None).unwrap(), vec![0, 1, 2, 3]);
}

fn seed_data_key(path: &str, key: &[u8]) {
    let keyspace = fjall::Config::new(path).open().unwrap();
    let data = keyspace.open_partition("data", fjall::PartitionCreateOptions::default()).unwrap();
    data.insert(key, [0u8]).unwrap();
    keyspace.persist(fjall::PersistMode::SyncAll).unwrap();
}

#[test]
fn open_reads_length_from_last_key() {
    let path = fresh_path("seeded");
    seed_data_key(&path, &41u64.to_be_bytes());
    let stream = Stream::new(&path).unwrap();
    assert_eq!(stream.len().unwrap(), 42);
}

#[test]
fn position_overflow_rejected() {
    let path = fresh_path("overflow");
    seed_data_key(&path, &(u64::MAX - 2).to_be_bytes());
    let mut stream = Stream::new(&path).unwrap();
    assert_eq!(stream.len().unwrap(), u64::MAX - 1);
    let result = stream.append(vec![event("A", 0, &[]), event("A", 0, &[])]);
    assert!(matches!(result, Err(StoreError::PositionOverflow)));
    assert_eq!(stream.len().unwrap(), u64::MAX - 1);
    stream.append(vec![event("A", 0, &[])]).unwrap();
    assert_eq!(stream.iterate(specifier("A", None), None).unwrap(), vec![u64::MAX - 1]);
}

#[test]
fn corrupt_data_key_rejected() {
    let path = fresh_path("corrupt");
    seed_data_key(&path, &[1u8, 2, 3]);
    assert!(matches!(Stream::new(&path), Err(StoreError::Corrupt)));
}

#[test]
fn unopenable_path_is_storage_error() {
    assert!(matches!(Stream::new("/proc/esdb-store/none"), Err(StoreError::Storage(_))));
}

#[test]
fn partitions_hold_dense_keys_and_fanout() {
    let path = fresh_path("dense");
    {
        let mut stream = Stream::new(&path).unwrap();
        stream.append(three_events()).unwrap();
        stream.append(vec![event("B", 2, &["x", "w"]), event("A", 0, &[])]).unwrap();
        assert_eq!(stream.len().unwrap(), 5);
    }
    let keyspace = fjall::Config::new(&path).open().unwrap();
    let options = || fjall::PartitionCreateOptions::default();
    let data = keyspace.open_partition("data", options()).unwrap();
    let keys: Vec<Vec<u8>> = data.iter().map(|kv| kv.unwrap().0.to_vec()).collect();
    let expected: Vec<Vec<u8>> = (0u64..5).map(|p| p.to_be_bytes().to_vec()).collect();
    assert_eq!(keys, expected);

    let index = keyspace.open_partition("index", options()).unwrap();
    let descriptor_keys = index.prefix([0u8]).count();
    let tag_keys = index.prefix([1u8]).count();
    assert_eq!(descriptor_keys, 5);
    assert_eq!(tag_keys, 2 + 1 + 1 + 2);
    let mut b_key = vec![0u8];
    b_key.extend_from_slice(&hash_str("B").to_be_bytes());
    b_key.extend_from_slice(&3u64.to_be_bytes());
    assert_eq!(&index.get(&b_key).unwrap().unwrap()[..], &[2u8]);
    let mut x_prefix = vec![1u8];
    x_prefix.extend_from_slice(&hash_str("x").to_be_bytes());
    let x_positions: Vec<Vec<u8>> = index.prefix(&x_prefix).map(|kv| kv.unwrap().0[9..].to_vec()).collect();
    assert_eq!(x_positions, vec![0u64.to_be_bytes().to_vec(), 1u64.to_be_bytes().to_vec(), 3u64.to_be_bytes().to_vec()]);

    let reference = keyspace.open_partition("reference", options()).unwrap();
    assert_eq!(reference.prefix([0u8]).count(), 2);
    assert_eq!(reference.prefix([1u8]).count(), 4);
}

#[test]
fn open_at_takes_position_from_last_key() {
    let path = fresh_path("openat");
    {
        let mut stream = Stream::new(&path).unwrap();
        stream.append(three_events()).unwrap();
    }
    let database = esdb::persistence::database(&path).unwrap();
    let partitions = esdb::persistence::partitions(&database).unwrap();
    let mut stream = Stream::open_at(database, partitions, Some(&2u64.to_be_bytes())).unwrap();
    stream.append(vec![event("A", 3, &[])]).unwrap();
    assert_eq!(stream.len().unwrap(), 4);
    assert_eq!(stream.iterate(specifier("A", None), None).unwrap(), vec![0, 2, 3]);
}

#[test]
fn open_at_rejects_corrupt_key() {
    let path = fresh_path("openatcorrupt");
    let database = esdb::persistence::database(&path).unwrap();
    let partitions = esdb::persistence::partitions(&database).unwrap();
    assert!(matches!(Stream::open_at(database, partitions, Some(&[1, 2, 3])), Err(StoreError::Corrupt)));
}
