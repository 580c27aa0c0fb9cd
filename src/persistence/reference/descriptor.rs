//! Reference entries of descriptor identifiers.

use vstd::prelude::*;
use vstd::slice::slice_to_vec;
use vstd::utf8::encode_utf8;

use crate::codec::put_u64;
use crate::persistence::reference::descriptor_reference_key;
use crate::persistence::{hash_of, HashedDescriptor, Partition, Write};

verus! {

const REFERENCE_ID: u8 = 0;

/// Adds the entry from the identifier's hash to its UTF-8 bytes.
pub fn insert(write: &mut Write, descriptor: &HashedDescriptor)
    ensures
        final(write)@ == old(write)@.push(
            (
                Partition::Reference,
                descriptor_reference_key(hash_of(descriptor@.0)),
                encode_utf8(descriptor@.0),
            ),
        ),
{
    let mut key: Vec<u8> = Vec::new();
    write_key(&mut key, descriptor);
    let value = slice_to_vec(descriptor.identifer().identifier().value().as_bytes());
    write.insert(Partition::Reference, key, value);
}

/// Appends the reference key of the descriptor's identifier to `key`.
pub fn write_key(key: &mut Vec<u8>, descriptor: &HashedDescriptor)
    ensures
        final(key)@ == old(key)@ + descriptor_reference_key(hash_of(descriptor@.0)),
{
    key.push(REFERENCE_ID);
    put_u64(key, descriptor.identifer().hash());
    assert(key@ =~= old(key)@ + descriptor_reference_key(hash_of(descriptor@.0)));
}

} // verus!
