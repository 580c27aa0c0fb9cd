//! The data partition: the log itself, keyed by position.
//!
//! Key: the eight big-endian bytes of the position. Value: the identifier
//! hash (8 bytes), the version (1 byte), the tag count (1 byte), one 8-byte
//! hash per tag in order, then the payload.

use vstd::prelude::*;

use crate::engine::{last_key, open_partition, partition_name, valid_partition_name};
use crate::persistence::Database;

use crate::codec::{be64, from_be64, get_u64, put_u64};
use crate::error::StoreError;
use crate::model::{EventView, Position};
use crate::persistence::{hash_of, HashedEvent, Partition, Partitions, Write};

verus! {

/// Opens the `data` partition of `database`.
pub fn partition(database: &Database) -> (r: Result<fjall::PartitionHandle, StoreError>)
    ensures
        r matches Ok(p) ==> partition_name(p) == "data"@ && valid_partition_name("data"@),
        r matches Err(e) ==> e is Storage,
{
    proof {
        reveal_strlit("data");
    }
    match open_partition(database.keyspace(), "data") {
        Ok(p) => Ok(p),
        Err(e) => Err(StoreError::Storage(e)),
    }
}

/// The hashes of `tags`, eight bytes each, in order.
pub open spec fn tag_hashes(tags: Seq<Seq<char>>) -> Seq<u8>
    decreases tags.len(),
{
    if tags.len() == 0 {
        Seq::empty()
    } else {
        tag_hashes(tags.drop_last()) + be64(hash_of(tags.last()))
    }
}

/// The data value of an event.
pub open spec fn data_value(e: EventView) -> Seq<u8> {
    be64(hash_of(e.identifier)) + seq![e.version, e.tags.len() as u8] + tag_hashes(e.tags) + e.data
}

pub proof fn lemma_tag_hashes_len(tags: Seq<Seq<char>>)
    ensures
        tag_hashes(tags).len() == 8 * tags.len(),
    decreases tags.len(),
{
    if tags.len() > 0 {
        lemma_tag_hashes_len(tags.drop_last());
    }
}

/// The number of events that a data partition holds, read from its greatest
/// key: none when it is empty, else one more than that key.
pub open spec fn length_of(last: Option<Seq<u8>>) -> Result<u64, StoreError> {
    match last {
        None => Ok(0),
        Some(key) => if key.len() != 8 || from_be64(key) == u64::MAX {
            Err(StoreError::Corrupt)
        } else {
            Ok((from_be64(key) + 1) as u64)
        },
    }
}

/// Computes the length of the log from the greatest key of the data
/// partition, if there is one.
pub fn length_from_last_key(last: Option<&[u8]>) -> (r: Result<u64, StoreError>)
    ensures
        r == length_of(
            match last {
                Some(k) => Some(k@),
                None => None,
            },
        ),
{
    match last {
        None => Ok(0),
        Some(key) => {
            if key.len() != 8 {
                return Err(StoreError::Corrupt);
            }
            let last = get_u64(key, 0);
            assert(key@.subrange(0, 8) =~= key@);
            if last == u64::MAX {
                Err(StoreError::Corrupt)
            } else {
                Ok(last + 1)
            }
        },
    }
}

/// Whether the log is empty, from the greatest key of the data partition,
/// if there is one: whether the length it gives is zero.
pub fn emptiness_from_last_key(last: Option<&[u8]>) -> (r: Result<bool, StoreError>)
    ensures
        r == match length_of(
            match last {
                Some(k) => Some(k@),
                None => None,
            },
        ) {
            Ok(n) => Ok::<bool, StoreError>(n == 0),
            Err(e) => Err(e),
        },
{
    match length_from_last_key(last) {
        Ok(n) => Ok(n == 0),
        Err(e) => Err(e),
    }
}

/// The view of a key that was read, if any.
pub open spec fn key_view(key: Option<Vec<u8>>) -> Option<Seq<u8>> {
    match key {
        Some(k) => Some(k@),
        None => None,
    }
}

/// The length of the log from what the engine answered when asked for the
/// greatest key of the data partition: its error as a storage error, else
/// `length_from_last_key` of the key.
pub fn length_from_read(read: Result<Option<Vec<u8>>, fjall::Error>) -> (r: Result<u64, StoreError>)
    ensures
        match read {
            Err(e) => r == Err::<u64, StoreError>(StoreError::Storage(e)),
            Ok(k) => r == length_of(key_view(k)),
        },
{
    match read {
        Ok(last) => match &last {
            Some(key) => length_from_last_key(Some(key.as_slice())),
            None => length_from_last_key(None),
        },
        Err(e) => Err(StoreError::Storage(e)),
    }
}

/// Whether the log is empty, from what the engine answered when asked for
/// the greatest key of the data partition: its error as a storage error,
/// else `emptiness_from_last_key` of the key.
pub fn emptiness_from_read(read: Result<Option<Vec<u8>>, fjall::Error>) -> (r: Result<bool, StoreError>)
    ensures
        match read {
            Err(e) => r == Err::<bool, StoreError>(StoreError::Storage(e)),
            Ok(k) => r == match length_of(key_view(k)) {
                Ok(n) => Ok::<bool, StoreError>(n == 0),
                Err(e) => Err(e),
            },
        },
{
    match read {
        Ok(last) => match &last {
            Some(key) => emptiness_from_last_key(Some(key.as_slice())),
            None => emptiness_from_last_key(None),
        },
        Err(e) => Err(StoreError::Storage(e)),
    }
}

/// The number of events in the store: `length_from_read` of the engine's
/// answer for the greatest key of the data partition.
pub fn len(partitions: &Partitions) -> (r: Result<u64, StoreError>)
    ensures
        r matches Err(e) ==> e is Storage || e is Corrupt,
{
    length_from_read(last_key(partitions.data()))
}

/// Whether the store holds no event: `emptiness_from_read` of the engine's
/// answer for the greatest key of the data partition.
pub fn is_empty(partitions: &Partitions) -> (r: Result<bool, StoreError>)
    ensures
        r matches Err(e) ==> e is Storage || e is Corrupt,
{
    emptiness_from_read(last_key(partitions.data()))
}

/// Adds the data entry of the event at `position`.
pub fn insert(write: &mut Write, position: Position, event: &HashedEvent)
    requires
        event@.tags.len() <= 255,
    ensures
        final(write)@ == old(write)@.push(
            (Partition::Data, be64(position.spec_value()), data_value(event@)),
        ),
{
    let mut key: Vec<u8> = Vec::new();
    put_u64(&mut key, position.value());
    assert(key@ =~= be64(position.spec_value()));

    let mut value: Vec<u8> = Vec::new();
    write_value(&mut value, event);
    assert(value@ =~= data_value(event@));

    write.insert(Partition::Data, key, value);
}

/// Appends the data value of `event` to `value`.
pub fn write_value(value: &mut Vec<u8>, event: &HashedEvent)
    requires
        event@.tags.len() <= 255,
    ensures
        final(value)@ == old(value)@ + data_value(event@),
{
    let descriptor = event.descriptor();
    let descriptor_identifier = descriptor.identifer().hash();
    let descriptor_version = descriptor.version().value();
    let tags = event.tags();
    let tags_len = tags.len() as u8;

    put_u64(value, descriptor_identifier);
    value.push(descriptor_version);
    value.push(tags_len);

    let ghost head = old(value)@ + be64(hash_of(event@.identifier)) + seq![
        event@.version,
        event@.tags.len() as u8,
    ];
    assert(value@ =~= head);

    let mut i: usize = 0;
    while i < tags.len()
        invariant
            i <= tags@.len(),
            tags@.map_values(|t: crate::persistence::HashedTag| t@) == event@.tags,
            value@ == head + tag_hashes(event@.tags.take(i as int)),
        decreases tags@.len() - i,
    {
        let tag = tags[i].hash();
        put_u64(value, tag);
        proof {
            assert(event@.tags.take(i + 1).drop_last() =~= event@.tags.take(i as int));
            assert(event@.tags[i as int] == tags@[i as int]@);
        }
        i = i + 1;
    }
    assert(event@.tags.take(i as int) =~= event@.tags);

    let data = event.data();
    let mut j: usize = 0;
    let ghost mid = value@;
    while j < data.len()
        invariant
            j <= data@.len(),
            value@ == mid + data@.take(j as int),
        decreases data@.len() - j,
    {
        value.push(data[j]);
        assert(data@.take(j + 1) =~= data@.take(j as int).push(data@[j as int]));
        j = j + 1;
    }
    assert(data@.take(j as int) =~= data@);
    assert(value@ =~= old(value)@ + data_value(event@));
}

} // verus!
