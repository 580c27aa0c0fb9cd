use esdb::codec::{get_u64, put_u64};
use esdb::persistence::data::{
    emptiness_from_last_key, emptiness_from_read, length_from_last_key, length_from_read, write_value,
};
use esdb::persistence::index::descriptor::{select_from_scan, select_positions};
use esdb::persistence::{hash_str, insert, HashedEvent, Partition, Write, SEED};
use esdb::stream::State;
use esdb::{Descriptor, Event, Identifier, Position, Specifier, StoreError, Tag, Version};

fn event(identifier: &str, version: u8, tags: &[&str], data: &[u8]) -> Event {
    Event::new(
        data.to_vec(),
        Descriptor::new(Identifier::new(identifier.to_string()), Version::new(version)),
        tags.iter().map(|t| Tag::new(t.to_string())).collect(),
    )
}

fn descriptor_entry(hash: u64, position: u64, version: Vec<u8>) -> (Vec<u8>, Vec<u8>) {
    let mut key = vec![0u8];
    key.extend_from_slice(&hash.to_be_bytes());
    key.extend_from_slice(&position.to_be_bytes());
    (key, version)
}

#[test]
fn put_u64_is_big_endian() {
    let mut buf = vec![9u8];
    put_u64(&mut buf, 0x0102_0304_0506_0708);
    assert_eq!(buf, vec![9, 1, 2, 3, 4, 5, 6, 7, 8]);
}

#[test]
fn get_u64_reads_at_offset() {
    let bytes = [0xaa, 0, 0, 0, 0, 0, 0, 1, 0x2c, 0xbb];
    assert_eq!(get_u64(&bytes, 1), 0x12c);
    assert_eq!(get_u64(&bytes, 0), 0xaa00_0000_0000_0001);
}

#[test]
fn length_from_last_key_cases() {
    assert_eq!(length_from_last_key(None).unwrap(), 0);
    assert_eq!(length_from_last_key(Some(&[0u8; 8])).unwrap(), 1);
    assert_eq!(length_from_last_key(Some(&41u64.to_be_bytes())).unwrap(), 42);
    assert!(matches!(length_from_last_key(Some(&[0xffu8; 8])), Err(StoreError::Corrupt)));
    assert!(matches!(length_from_last_key(Some(&[0u8; 7])), Err(StoreError::Corrupt)));
    assert!(matches!(length_from_last_key(Some(&[0u8; 9])), Err(StoreError::Corrupt)));
}

#[test]
fn hash_is_seeded_rapidhash() {
    let expected = rapidhash::v3::rapidhash_v3_seeded(b"A", &rapidhash::v3::RapidSecrets::seed(SEED));
    assert_eq!(hash_str("A"), expected);
    assert_ne!(hash_str("A"), hash_str("B"));
    assert_eq!(hash_str("A"), hash_str("A"));
    assert_eq!(SEED, 0x2811_2017);
}

#[test]
fn data_value_layout() {
    let hashed = HashedEvent::from(event("A", 7, &["x", "y"], &[0xde, 0xad]));
    let mut value = Vec::new();
    write_value(&mut value, &hashed);
    let mut expected = hash_str("A").to_be_bytes().to_vec();
    expected.push(7);
    expected.push(2);
    expected.extend_from_slice(&hash_str("x").to_be_bytes());
    expected.extend_from_slice(&hash_str("y").to_be_bytes());
    expected.extend_from_slice(&[0xde, 0xad]);
    assert_eq!(value, expected);
    assert_eq!(value.len(), 8 + 1 + 1 + 16 + 2);
}

#[test]
fn event_writes_fan_out() {
    let mut write = Write::new();
    insert(&mut write, Position::new(5), event("A", 3, &["x", "y"], &[1]));
    let entries = write.entries();
    let partitions: Vec<Partition> = entries.iter().map(|e| e.partition).collect();
    assert_eq!(
        partitions,
        vec![
            Partition::Data,
            Partition::Index,
            Partition::Index,
            Partition::Index,
            Partition::Reference,
            Partition::Reference,
            Partition::Reference,
        ]
    );
    assert_eq!(entries[0].key, 5u64.to_be_bytes().to_vec());

    let mut descriptor_key = vec![0u8];
    descriptor_key.extend_from_slice(&hash_str("A").to_be_bytes());
    descriptor_key.extend_from_slice(&5u64.to_be_bytes());
    assert_eq!(entries[1].key, descriptor_key);
    assert_eq!(entries[1].value, vec![3]);

    for (i, tag) in ["x", "y"].iter().enumerate() {
        let mut tag_key = vec![1u8];
        tag_key.extend_from_slice(&hash_str(tag).to_be_bytes());
        tag_key.extend_from_slice(&5u64.to_be_bytes());
        assert_eq!(entries[2 + i].key, tag_key);
        assert!(entries[2 + i].value.is_empty());
    }

    let mut reference_key = vec![0u8];
    reference_key.extend_from_slice(&hash_str("A").to_be_bytes());
    assert_eq!(entries[4].key, reference_key);
    assert_eq!(entries[4].value, b"A".to_vec());
    let mut tag_reference_key = vec![1u8];
    tag_reference_key.extend_from_slice(&hash_str("y").to_be_bytes());
    assert_eq!(entries[6].key, tag_reference_key);
    assert_eq!(entries[6].value, b"y".to_vec());
}

#[test]
fn same_identifier_gives_same_reference() {
    let mut write = Write::new();
    insert(&mut write, Position::new(0), event("A", 0, &[], &[]));
    insert(&mut write, Position::new(1), event("A", 1, &[], &[]));
    let references: Vec<_> = write
        .entries()
        .iter()
        .filter(|e| e.partition == Partition::Reference)
        .collect();
    assert_eq!(references.len(), 2);
    assert_eq!(references[0].key, references[1].key);
    assert_eq!(references[0].value, b"A".to_vec());
    assert_eq!(references[1].value, b"A".to_vec());
}

#[test]
fn select_positions_filters_versions() {
    let h = hash_str("A");
    let entries = vec![
        descriptor_entry(h, 0, vec![0]),
        descriptor_entry(h, 2, vec![1]),
        descriptor_entry(h, 4, vec![255]),
    ];
    assert_eq!(select_positions(&entries, 0, 1).unwrap(), vec![0]);
    assert_eq!(select_positions(&entries, 1, 2).unwrap(), vec![2]);
    assert_eq!(select_positions(&entries, 0, 2).unwrap(), vec![0, 2]);
    assert_eq!(select_positions(&entries, 1, 255).unwrap(), vec![2]);
    assert_eq!(select_positions(&entries, 2, 3).unwrap(), Vec::<u64>::new());
    assert_eq!(select_positions(&entries, 3, 1).unwrap(), Vec::<u64>::new());
}

#[test]
fn full_bounds_do_not_filter() {
    let h = hash_str("A");
    let entries = vec![descriptor_entry(h, 1, vec![0]), descriptor_entry(h, 9, vec![255])];
    assert_eq!(select_positions(&entries, 0, 255).unwrap(), vec![1, 9]);
    let no_values = vec![descriptor_entry(h, 1, vec![]), descriptor_entry(h, 9, vec![])];
    assert_eq!(select_positions(&no_values, 0, 255).unwrap(), vec![1, 9]);
}

#[test]
fn select_positions_reports_corrupt_entries() {
    let h = hash_str("A");
    let empty_value = vec![descriptor_entry(h, 1, vec![])];
    assert!(matches!(select_positions(&empty_value, 0, 1), Err(StoreError::Corrupt)));
    let mut short = descriptor_entry(h, 1, vec![0]);
    short.0.pop();
    assert!(matches!(select_positions(&vec![short.clone()], 0, 255), Err(StoreError::Corrupt)));
    assert_eq!(select_positions(&vec![short], 1, 2).unwrap(), Vec::<u64>::new());
}

#[test]
fn model_accessors() {
    let descriptor = Descriptor::new(Identifier::new("A".to_string()), Version::new(4));
    assert_eq!(descriptor.identifier().value(), "A");
    assert_eq!(descriptor.version().value(), 4);
    let (identifier, version) = descriptor.take();
    assert_eq!(identifier.value(), "A");
    assert_eq!(version.value(), 4);

    let specifier = Specifier::new(Identifier::new("B".to_string()), Some(Version::new(1)..Version::new(3)));
    assert_eq!(specifier.identifier().value(), "B");
    let range = specifier.range().unwrap();
    assert_eq!((range.start.value(), range.end.value()), (1, 3));
    let (identifier, range) = specifier.take();
    assert_eq!(identifier.value(), "B");
    assert_eq!(range, Some(Version::new(1)..Version::new(3)));

    assert_eq!(Tag::new("t".to_string()).value(), "t");
    assert_eq!(Position::new(12).value(), 12);
    assert!(Position::new(1) < Position::new(2));
}

#[test]
fn state_counts_up() {
    let mut state = State::new(7);
    assert_eq!(state.current(), 7);
    state.increment();
    assert_eq!(state.current(), 8);
}

#[test]
fn emptiness_from_last_key_cases() {
    assert!(emptiness_from_last_key(None).unwrap());
    assert!(!emptiness_from_last_key(Some(&[0u8; 8])).unwrap());
    assert!(!emptiness_from_last_key(Some(&41u64.to_be_bytes())).unwrap());
    assert!(matches!(emptiness_from_last_key(Some(&[0u8; 3])), Err(StoreError::Corrupt)));
    assert!(matches!(emptiness_from_last_key(Some(&[0xffu8; 8])), Err(StoreError::Corrupt)));
}

#[test]
fn engine_answers_become_lengths() {
    assert_eq!(length_from_read(Ok(None)).unwrap(), 0);
    assert_eq!(length_from_read(Ok(Some(6u64.to_be_bytes().to_vec()))).unwrap(), 7);
    assert!(matches!(length_from_read(Ok(Some(vec![1, 2]))), Err(StoreError::Corrupt)));
    assert!(matches!(length_from_read(Err(fjall::Error::Poisoned)), Err(StoreError::Storage(_))));
    assert!(emptiness_from_read(Ok(None)).unwrap());
    assert!(!emptiness_from_read(Ok(Some(0u64.to_be_bytes().to_vec()))).unwrap());
    assert!(matches!(emptiness_from_read(Err(fjall::Error::Poisoned)), Err(StoreError::Storage(_))));
}

#[test]
fn scan_answers_become_positions() {
    let h = hash_str("A");
    let entries = vec![descriptor_entry(h, 3, vec![0]), descriptor_entry(h, 8, vec![1])];
    assert_eq!(select_from_scan(Ok(entries), 1, 2).unwrap(), vec![8]);
    assert!(matches!(select_from_scan(Err(fjall::Error::Poisoned), 0, 255), Err(StoreError::Storage(_))));
}
