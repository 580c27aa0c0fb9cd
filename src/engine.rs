//! The key-value engine (fjall) as the store sees it: its types, and one
//! wrapper per engine call with what the store relies on.

use vstd::prelude::*;

use crate::codec::lex_lt;

verus! {

#[verifier::external_type_specification]
#[verifier::external_body]
pub struct ExKeyspace(fjall::Keyspace);

#[verifier::external_type_specification]
#[verifier::external_body]
pub struct ExPartitionHandle(fjall::PartitionHandle);

#[verifier::external_type_specification]
#[verifier::external_body]
pub struct ExBatch(fjall::Batch);

#[verifier::external_type_specification]
#[verifier::external_body]
pub struct ExError(fjall::Error);

/// The name that a partition handle was opened under.
pub uninterp spec fn partition_name(p: fjall::PartitionHandle) -> Seq<char>;

/// What a batch holds: for each insert in order, the partition's name, the key
/// and the value.
pub uninterp spec fn batch_items(b: fjall::Batch) -> Seq<(Seq<char>, Seq<u8>, Seq<u8>)>;

/// A name that the engine accepts for a partition: 1 to 255 characters, each
/// an ASCII letter or digit, `_`, `-`, `.`, `#` or `$`.
pub open spec fn valid_partition_name(s: Seq<char>) -> bool {
    &&& 1 <= s.len() <= 255
    &&& forall|i: int|
        0 <= i < s.len() ==> {
            let c = #[trigger] s[i];
            ('a' <= c && c <= 'z') || ('A' <= c && c <= 'Z') || ('0' <= c && c <= '9') || c
                == '_' || c == '-' || c == '.' || c == '#' || c == '$'
        }
}

/// The byte strings in `entries` strictly ascend.
pub open spec fn keys_ascending(entries: Seq<(Seq<u8>, Seq<u8>)>) -> bool {
    forall|i: int, j: int|
        0 <= i < j < entries.len() ==> lex_lt(#[trigger] entries[i].0, #[trigger] entries[j].0)
}

pub open spec fn pairs_view(v: Seq<(Vec<u8>, Vec<u8>)>) -> Seq<(Seq<u8>, Seq<u8>)> {
    v.map_values(|e: (Vec<u8>, Vec<u8>)| (e.0@, e.1@))
}

/// Relies on fjall::Config::new and fjall::Config::open: opens the keyspace
/// at `path`, creating it if needed.
#[verifier::external_body]
pub(crate) fn open_keyspace(path: &str) -> (r: Result<fjall::Keyspace, fjall::Error>) {
    fjall::Config::new(path).open()
}

/// Relies on fjall::Keyspace::open_partition: the handle carries the name it
/// was opened under. The engine panics on an invalid name.
#[verifier::external_body]
pub(crate) fn open_partition(keyspace: &fjall::Keyspace, name: &str) -> (r: Result<
    fjall::PartitionHandle,
    fjall::Error,
>)
    requires
        valid_partition_name(name@),
    ensures
        r matches Ok(p) ==> partition_name(p) == name@,
{
    keyspace.open_partition(name, fjall::PartitionCreateOptions::default())
}

/// Relies on fjall::Keyspace::batch: a new batch holds nothing.
#[verifier::external_body]
pub(crate) fn new_batch(keyspace: &fjall::Keyspace) -> (r: fjall::Batch)
    ensures
        batch_items(r) == Seq::<(Seq<char>, Seq<u8>, Seq<u8>)>::empty(),
{
    keyspace.batch()
}

/// Relies on fjall::Batch::insert: the pair is added after those already
/// there. The engine panics on an empty key, a key over 65535 bytes or a value
/// over `u32::MAX` bytes.
#[verifier::external_body]
pub(crate) fn batch_insert(
    batch: &mut fjall::Batch,
    partition: &fjall::PartitionHandle,
    key: &[u8],
    value: &[u8],
)
    requires
        valid_partition_name(partition_name(*partition)),
        1 <= key@.len() <= 65535,
        value@.len() <= u32::MAX,
    ensures
        batch_items(*final(batch)) == batch_items(*old(batch)).push(
            (partition_name(*partition), key@, value@),
        ),
{
    batch.insert(partition, key, value)
}

/// Relies on fjall::Batch::commit: on success every pair of the batch has
/// been applied at once. Nothing is stated of an error: the engine may have
/// journaled the batch before a failed persist.
#[verifier::external_body]
pub(crate) fn commit(batch: fjall::Batch) -> (r: Result<(), fjall::Error>) {
    batch.commit()
}

/// Relies on fjall::PartitionHandle::last_key_value: the greatest key of the
/// partition, if it holds any.
#[verifier::external_body]
pub(crate) fn last_key(partition: &fjall::PartitionHandle) -> (r: Result<
    Option<Vec<u8>>,
    fjall::Error,
>) {
    partition.last_key_value().map(|kv| kv.map(|(key, _)| key.to_vec()))
}

/// Relies on fjall::PartitionHandle::prefix: the pairs whose key starts with
/// `prefix`, in ascending key order.
#[verifier::external_body]
pub(crate) fn scan_prefix(partition: &fjall::PartitionHandle, prefix: &[u8]) -> (r: Result<
    Vec<(Vec<u8>, Vec<u8>)>,
    fjall::Error,
>)
    ensures
        r matches Ok(v) ==> {
            &&& forall|i: int|
                0 <= i < v@.len() ==> prefix@.is_prefix_of(#[trigger] pairs_view(v@)[i].0)
            &&& keys_ascending(pairs_view(v@))
        },
{
    partition.prefix(prefix).map(|kv| kv.map(|(k, v)| (k.to_vec(), v.to_vec()))).collect()
}

/// Relies on fjall::PartitionHandle::range over `lower..=upper`: the pairs
/// whose key lies between the bounds, both included, in ascending key order.
/// The bounds are asked to be in order.
#[verifier::external_body]
pub(crate) fn scan_range(
    partition: &fjall::PartitionHandle,
    lower: &[u8],
    upper: &[u8],
) -> (r: Result<Vec<(Vec<u8>, Vec<u8>)>, fjall::Error>)
    requires
        !lex_lt(upper@, lower@),
    ensures
        r matches Ok(v) ==> {
            &&& forall|i: int|
                0 <= i < v@.len() ==> !lex_lt(#[trigger] pairs_view(v@)[i].0, lower@) && !lex_lt(
                    upper@,
                    pairs_view(v@)[i].0,
                )
            &&& keys_ascending(pairs_view(v@))
        },
{
    partition.range(lower..=upper).map(|kv| kv.map(|(k, v)| (k.to_vec(), v.to_vec()))).collect()
}

} // verus!
