//! Reference entries of tags.

use vstd::prelude::*;
use vstd::slice::slice_to_vec;
use vstd::utf8::encode_utf8;

use crate::codec::put_u64;
use crate::persistence::reference::tag_reference_key;
use crate::persistence::{hash_of, HashedTag, Partition, Write};

verus! {

const REFERENCE_ID: u8 = 1;

/// Adds, for each tag in order, the entry from its hash to its UTF-8 bytes.
pub fn insert(write: &mut Write, tags: &Vec<HashedTag>)
    ensures
        final(write)@ == old(write)@ + tags@.map_values(
            |t: HashedTag| (Partition::Reference, tag_reference_key(hash_of(t@)), encode_utf8(t@)),
        ),
{
    let ghost f = |t: HashedTag|
        (Partition::Reference, tag_reference_key(hash_of(t@)), encode_utf8(t@));
    let mut i: usize = 0;
    while i < tags.len()
        invariant
            i <= tags@.len(),
            f == (|t: HashedTag|
                (Partition::Reference, tag_reference_key(hash_of(t@)), encode_utf8(t@))),
            write@ == old(write)@ + tags@.take(i as int).map_values(f),
        decreases tags@.len() - i,
    {
        let tag = &tags[i];
        let mut key: Vec<u8> = Vec::new();
        write_key(&mut key, tag);
        assert(key@ =~= tag_reference_key(hash_of(tag@)));
        let ghost before = write@;
        let value = slice_to_vec(tag.tag().value().as_bytes());
        assert(value@ == encode_utf8(tag@));
        write.insert(Partition::Reference, key, value);
        proof {
            assert(write@ == before.push(f(tags@[i as int])));
            assert(tags@.take(i + 1).map_values(f) =~= tags@.take(i as int).map_values(f).push(
                f(tags@[i as int]),
            ));
        }
        i = i + 1;
    }
    assert(tags@.take(i as int) =~= tags@);
}

/// Appends the reference key of `tag` to `key`.
pub fn write_key(key: &mut Vec<u8>, tag: &HashedTag)
    ensures
        final(key)@ == old(key)@ + tag_reference_key(hash_of(tag@)),
{
    key.push(REFERENCE_ID);
    put_u64(key, tag.hash());
    assert(key@ =~= old(key)@ + tag_reference_key(hash_of(tag@)));
}

} // verus!
