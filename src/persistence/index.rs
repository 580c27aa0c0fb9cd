//! The index partition: forward indexes from descriptor and tag hashes to
//! positions, told apart by a one-byte index id.
//!
//! Descriptor entry: `0x00 || hash || position`, valued by the version byte.
//! Tag entry: `0x01 || hash || position`, with an empty value.

pub mod descriptor;
pub mod tags;

use vstd::prelude::*;

use crate::engine::{open_partition, partition_name, valid_partition_name};
use crate::persistence::Database;
use crate::error::StoreError;

use crate::codec::be64;
use crate::model::Position;
use crate::persistence::{index_writes, HashedEvent, Write};

verus! {

/// Opens the `index` partition of `database`.
pub fn partition(database: &Database) -> (r: Result<fjall::PartitionHandle, StoreError>)
    ensures
        r matches Ok(p) ==> partition_name(p) == "index"@ && valid_partition_name("index"@),
        r matches Err(e) ==> e is Storage,
{
    proof {
        reveal_strlit("index");
    }
    match open_partition(database.keyspace(), "index") {
        Ok(p) => Ok(p),
        Err(e) => Err(StoreError::Storage(e)),
    }
}

/// The key of the descriptor entry for position `p` of identifier hash `h`.
pub open spec fn descriptor_key(h: u64, p: u64) -> Seq<u8> {
    seq![0u8] + be64(h) + be64(p)
}

/// The common start of every descriptor entry of identifier hash `h`.
pub open spec fn descriptor_prefix(h: u64) -> Seq<u8> {
    seq![0u8] + be64(h)
}

/// The key of the tag entry for position `p` of tag hash `h`.
pub open spec fn tag_key(h: u64, p: u64) -> Seq<u8> {
    seq![1u8] + be64(h) + be64(p)
}

/// Adds the descriptor entry and the tag entries of the event at `position`.
pub fn insert(write: &mut Write, position: Position, event: &HashedEvent)
    ensures
        final(write)@ == old(write)@ + index_writes(position.spec_value(), event@),
{
    descriptor::insert(write, position, event.descriptor());
    tags::insert(write, position, event.tags());
    assert(write@ =~= old(write)@ + index_writes(position.spec_value(), event@));
}

} // verus!
