//! The tag forward index.

use vstd::prelude::*;

use crate::codec::put_u64;
use crate::model::Position;
use crate::persistence::index::tag_key;
use crate::persistence::{hash_of, HashedTag, Partition, Write};

verus! {

const INDEX_ID: u8 = 1;

/// Adds one tag entry per tag, in order.
pub fn insert(write: &mut Write, position: Position, tags: &Vec<HashedTag>)
    ensures
        final(write)@ == old(write)@ + tags@.map_values(
            |t: HashedTag| (Partition::Index, tag_key(hash_of(t@), position.spec_value()), Seq::<u8>::empty()),
        ),
{
    let ghost f = |t: HashedTag|
        (Partition::Index, tag_key(hash_of(t@), position.spec_value()), Seq::<u8>::empty());
    let mut i: usize = 0;
    while i < tags.len()
        invariant
            i <= tags@.len(),
            f == (|t: HashedTag|
                (Partition::Index, tag_key(hash_of(t@), position.spec_value()), Seq::<u8>::empty())),
            write@ == old(write)@ + tags@.take(i as int).map_values(f),
        decreases tags@.len() - i,
    {
        let mut key: Vec<u8> = Vec::new();
        write_key(&mut key, position, &tags[i]);
        assert(key@ =~= tag_key(hash_of(tags@[i as int]@), position.spec_value()));
        let ghost before = write@;
        let value: Vec<u8> = Vec::new();
        assert(value@ =~= Seq::<u8>::empty());
        write.insert(Partition::Index, key, value);
        proof {
            assert(write@ == before.push(f(tags@[i as int])));
            assert(tags@.take(i + 1).map_values(f) =~= tags@.take(i as int).map_values(f).push(
                f(tags@[i as int]),
            ));
        }
        i = i + 1;
    }
    assert(tags@.take(i as int) =~= tags@);
}

/// Appends the key of the entry of `tag` at `position` to `key`.
pub fn write_key(key: &mut Vec<u8>, position: Position, tag: &HashedTag)
    ensures
        final(key)@ == old(key)@ + tag_key(hash_of(tag@), position.spec_value()),
{
    key.push(INDEX_ID);
    put_u64(key, tag.hash());
    put_u64(key, position.value());
    assert(key@ =~= old(key)@ + tag_key(hash_of(tag@), position.spec_value()));
}

} // verus!
