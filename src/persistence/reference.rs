//! The reference partition: from a hash back to the string it was computed
//! from. Key: `0x00 || hash` for identifiers, `0x01 || hash` for tags; value:
//! the string's UTF-8 bytes.

pub mod descriptor;
pub mod tags;

use vstd::prelude::*;

use crate::engine::{open_partition, partition_name, valid_partition_name};
use crate::persistence::Database;
use crate::error::StoreError;

use crate::codec::be64;
use crate::persistence::{reference_writes, HashedEvent, Write};

verus! {

/// Opens the `reference` partition of `database`.
pub fn partition(database: &Database) -> (r: Result<fjall::PartitionHandle, StoreError>)
    ensures
        r matches Ok(p) ==> partition_name(p) == "reference"@ && valid_partition_name("reference"@),
        r matches Err(e) ==> e is Storage,
{
    proof {
        reveal_strlit("reference");
    }
    match open_partition(database.keyspace(), "reference") {
        Ok(p) => Ok(p),
        Err(e) => Err(StoreError::Storage(e)),
    }
}

/// The key of the reference entry of identifier hash `h`.
pub open spec fn descriptor_reference_key(h: u64) -> Seq<u8> {
    seq![0u8] + be64(h)
}

/// The key of the reference entry of tag hash `h`.
pub open spec fn tag_reference_key(h: u64) -> Seq<u8> {
    seq![1u8] + be64(h)
}

/// Adds the reference entries of an event: its identifier, then its tags.
pub fn insert(write: &mut Write, event: &HashedEvent)
    ensures
        final(write)@ == old(write)@ + reference_writes(event@),
{
    descriptor::insert(write, event.descriptor());
    tags::insert(write, event.tags());
    assert(write@ =~= old(write)@ + reference_writes(event@));
}

} // verus!
