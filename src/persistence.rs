//! The layout of the three partitions and the writes that an append makes.

pub mod data;
pub mod index;
pub mod reference;

use std::ops::Range;
use vstd::prelude::*;
use vstd::utf8::encode_utf8;

use crate::codec::be64;
use crate::engine::{open_keyspace, partition_name, valid_partition_name};
use crate::error::StoreError;
use crate::model::{Descriptor, Event, EventView, Identifier, Position, Specifier, Tag, Version};
use crate::persistence::data::data_value;
use crate::persistence::index::{descriptor_key, tag_key};
use crate::persistence::reference::{descriptor_reference_key, tag_reference_key};

verus! {

/// The seed of the hash that turns identifiers and tags into index keys. All
/// readers and writers of a store must use the same one.
pub const SEED: u64 = 0x2811_2017;

/// What rapidhash (version 3) gives for `data` under `seed`.
pub uninterp spec fn seeded_hash(data: Seq<u8>, seed: u64) -> u64;

/// Relies on rapidhash::v3::rapidhash_v3_seeded, with the secrets that
/// rapidhash::v3::RapidSecrets::seed derives from `seed`: the result is a pure
/// function of the bytes and the seed.
#[verifier::external_body]
fn rapidhash_seeded(data: &[u8], seed: u64) -> (r: u64)
    ensures
        r == seeded_hash(data@, seed),
{
    rapidhash::v3::rapidhash_v3_seeded(data, &rapidhash::v3::RapidSecrets::seed(seed))
}

/// The hash of a string: that of its UTF-8 bytes under the store's seed.
pub open spec fn hash_of(s: Seq<char>) -> u64 {
    seeded_hash(encode_utf8(s), SEED)
}

/// Hashes the UTF-8 bytes of `s` under the store's seed.
pub fn hash_str(s: &str) -> (r: u64)
    ensures
        r == hash_of(s@),
{
    rapidhash_seeded(s.as_bytes(), SEED)
}

// Database

/// An open keyspace.
pub struct Database {
    keyspace: fjall::Keyspace,
}

impl Database {
    pub fn keyspace(&self) -> &fjall::Keyspace {
        &self.keyspace
    }
}

/// Opens, or creates, the keyspace at `path`.
pub fn database(path: &str) -> (r: Result<Database, StoreError>)
    ensures
        r matches Err(e) ==> e is Storage,
{
    match open_keyspace(path) {
        Ok(keyspace) => Ok(Database { keyspace }),
        Err(e) => Err(StoreError::Storage(e)),
    }
}

/// The handles of the three partitions.
pub struct Partitions {
    data: fjall::PartitionHandle,
    index: fjall::PartitionHandle,
    reference: fjall::PartitionHandle,
}

impl Partitions {
    pub closed spec fn spec_data(&self) -> fjall::PartitionHandle {
        self.data
    }

    pub closed spec fn spec_index(&self) -> fjall::PartitionHandle {
        self.index
    }

    pub closed spec fn spec_reference(&self) -> fjall::PartitionHandle {
        self.reference
    }

    /// The handle that entries bound for `partition` go to.
    pub open spec fn handle(&self, partition: Partition) -> fjall::PartitionHandle {
        match partition {
            Partition::Data => self.spec_data(),
            Partition::Index => self.spec_index(),
            Partition::Reference => self.spec_reference(),
        }
    }

    /// The handles are those of the `data`, `index` and `reference`
    /// partitions.
    pub open spec fn opened(&self) -> bool {
        &&& self.named()
        &&& partition_name(self.spec_data()) == "data"@
        &&& partition_name(self.spec_index()) == "index"@
        &&& partition_name(self.spec_reference()) == "reference"@
    }

    /// Each handle was opened under a valid name.
    pub open spec fn named(&self) -> bool {
        &&& valid_partition_name(partition_name(self.spec_data()))
        &&& valid_partition_name(partition_name(self.spec_index()))
        &&& valid_partition_name(partition_name(self.spec_reference()))
    }

    pub fn data(&self) -> (r: &fjall::PartitionHandle)
        ensures
            *r == self.spec_data(),
    {
        &self.data
    }

    pub fn index(&self) -> (r: &fjall::PartitionHandle)
        ensures
            *r == self.spec_index(),
    {
        &self.index
    }

    pub fn reference(&self) -> (r: &fjall::PartitionHandle)
        ensures
            *r == self.spec_reference(),
    {
        &self.reference
    }

    pub fn handle_of(&self, partition: Partition) -> (r: &fjall::PartitionHandle)
        ensures
            *r == self.handle(partition),
    {
        match partition {
            Partition::Data => &self.data,
            Partition::Index => &self.index,
            Partition::Reference => &self.reference,
        }
    }
}

/// Opens the `data`, `index` and `reference` partitions of `database`.
pub fn partitions(database: &Database) -> (r: Result<Partitions, StoreError>)
    ensures
        r matches Ok(p) ==> {
            &&& partition_name(p.spec_data()) == "data"@
            &&& partition_name(p.spec_index()) == "index"@
            &&& partition_name(p.spec_reference()) == "reference"@
            &&& p.named()
        },
        r matches Err(e) ==> e is Storage,
{
    let data = match data::partition(database) {
        Ok(p) => p,
        Err(e) => return Err(e),
    };
    let index = match index::partition(database) {
        Ok(p) => p,
        Err(e) => return Err(e),
    };
    let reference = match reference::partition(database) {
        Ok(p) => p,
        Err(e) => return Err(e),
    };
    Ok(Partitions { data, index, reference })
}

// Hashed forms

/// An identifier together with its hash.
#[derive(Debug)]
pub struct HashedIdentifier(u64, Identifier);

impl View for HashedIdentifier {
    type V = Seq<char>;

    closed spec fn view(&self) -> Seq<char> {
        self.1@
    }
}

impl HashedIdentifier {
    #[verifier::type_invariant]
    closed spec fn inv(&self) -> bool {
        self.0 == hash_of(self.1@)
    }

    pub closed spec fn spec_identifier(&self) -> Identifier {
        self.1
    }

    pub fn from(identifier: Identifier) -> (r: HashedIdentifier)
        ensures
            r.spec_identifier() == identifier,
            r@ == identifier@,
    {
        let hash = hash_str(identifier.value());
        HashedIdentifier(hash, identifier)
    }

    pub fn hash(&self) -> (r: u64)
        ensures
            r == hash_of(self@),
    {
        proof {
            use_type_invariant(self);
        }
        self.0
    }

    pub fn identifier(&self) -> (r: &Identifier)
        ensures
            *r == self.spec_identifier(),
            r@ == self@,
    {
        &self.1
    }
}

/// A tag together with its hash.
#[derive(Debug)]
pub struct HashedTag(u64, Tag);

impl View for HashedTag {
    type V = Seq<char>;

    closed spec fn view(&self) -> Seq<char> {
        self.1@
    }
}

impl HashedTag {
    #[verifier::type_invariant]
    closed spec fn inv(&self) -> bool {
        self.0 == hash_of(self.1@)
    }

    pub fn from(tag: Tag) -> (r: HashedTag)
        ensures
            r@ == tag@,
    {
        let hash = hash_str(tag.value());
        HashedTag(hash, tag)
    }

    pub fn hash(&self) -> (r: u64)
        ensures
            r == hash_of(self@),
    {
        proof {
            use_type_invariant(self);
        }
        self.0
    }

    pub fn tag(&self) -> (r: &Tag)
        ensures
            r@ == self@,
    {
        &self.1
    }
}

/// A descriptor whose identifier is hashed.
#[derive(Debug)]
pub struct HashedDescriptor(HashedIdentifier, Version);

impl View for HashedDescriptor {
    type V = (Seq<char>, u8);

    closed spec fn view(&self) -> (Seq<char>, u8) {
        (self.0@, self.1.spec_value())
    }
}

impl HashedDescriptor {
    pub fn from(descriptor: Descriptor) -> (r: HashedDescriptor)
        ensures
            r@ == (descriptor.spec_identifier()@, descriptor.spec_version().spec_value()),
    {
        let (identifier, version) = descriptor.take();
        HashedDescriptor(HashedIdentifier::from(identifier), version)
    }

    pub fn identifer(&self) -> (r: &HashedIdentifier)
        ensures
            r@ == self@.0,
    {
        &self.0
    }

    pub fn version(&self) -> (r: &Version)
        ensures
            r.spec_value() == self@.1,
    {
        &self.1
    }
}

/// A specifier whose identifier is hashed.
#[derive(Debug)]
pub struct HashedSpecifier(HashedIdentifier, Option<Range<Version>>);

impl HashedSpecifier {
    pub closed spec fn spec_identifier(&self) -> Seq<char> {
        self.0@
    }

    pub closed spec fn spec_range(&self) -> Option<Range<Version>> {
        self.1
    }

    pub fn from(specifier: Specifier) -> (r: HashedSpecifier)
        ensures
            r.spec_identifier() == specifier.spec_identifier()@,
            r.spec_range() == specifier.spec_range(),
    {
        let (identifier, range) = specifier.take();
        HashedSpecifier(HashedIdentifier::from(identifier), range)
    }

    pub fn identifer(&self) -> (r: &HashedIdentifier)
        ensures
            r@ == self.spec_identifier(),
    {
        &self.0
    }

    pub fn range(&self) -> (r: Option<&Range<Version>>)
        ensures
            r == match self.spec_range() {
                Some(range) => Some(&range),
                None => None::<&Range<Version>>,
            },
    {
        match &self.1 {
            Some(range) => Some(range),
            None => None,
        }
    }
}

/// An event whose identifier and tags are hashed, once per append.
#[derive(Debug)]
pub struct HashedEvent {
    data: Vec<u8>,
    descriptor: HashedDescriptor,
    tags: Vec<HashedTag>,
}

impl View for HashedEvent {
    type V = EventView;

    closed spec fn view(&self) -> EventView {
        EventView {
            data: self.data@,
            identifier: self.descriptor@.0,
            version: self.descriptor@.1,
            tags: self.tags@.map_values(|t: HashedTag| t@),
        }
    }
}

impl HashedEvent {
    pub fn from(event: Event) -> (r: HashedEvent)
        ensures
            r@ == event@,
    {
        let Event { data, descriptor, tags } = event;
        let ghost old_tags = tags@;
        let mut hashed: Vec<HashedTag> = Vec::new();
        let mut rest = tags;
        while rest.len() > 0
            invariant
                hashed@.len() + rest@.len() == old_tags.len(),
                forall|i: int| 0 <= i < hashed@.len() ==> #[trigger] hashed@[i]@ == old_tags[i]@,
                rest@ == old_tags.subrange(hashed@.len() as int, old_tags.len() as int),
            decreases rest@.len(),
        {
            let tag = rest.remove(0);
            hashed.push(HashedTag::from(tag));
        }
        let r = HashedEvent { data, descriptor: HashedDescriptor::from(descriptor), tags: hashed };
        assert(r@.tags =~= event@.tags);
        r
    }

    pub fn data(&self) -> (r: &Vec<u8>)
        ensures
            r@ == self@.data,
    {
        &self.data
    }

    pub fn descriptor(&self) -> (r: &HashedDescriptor)
        ensures
            r@ == (self@.identifier, self@.version),
    {
        &self.descriptor
    }

    pub fn tags(&self) -> (r: &Vec<HashedTag>)
        ensures
            r@.map_values(|t: HashedTag| t@) == self@.tags,
    {
        &self.tags
    }
}

// Writes

/// The three partitions of a store.
#[derive(Clone, Copy, Debug, PartialEq, Eq, Structural)]
pub enum Partition {
    Data,
    Index,
    Reference,
}

/// One key/value pair bound for a partition.
#[derive(Debug)]
pub struct Entry {
    pub partition: Partition,
    pub key: Vec<u8>,
    pub value: Vec<u8>,
}

impl View for Entry {
    type V = (Partition, Seq<u8>, Seq<u8>);

    open spec fn view(&self) -> (Partition, Seq<u8>, Seq<u8>) {
        (self.partition, self.key@, self.value@)
    }
}

/// Whether the engine takes a pair: a key of 1 to 65535 bytes and a value
/// of at most `u32::MAX` bytes.
pub open spec fn entry_fits(e: (Partition, Seq<u8>, Seq<u8>)) -> bool {
    1 <= e.1.len() <= 65535 && e.2.len() <= u32::MAX
}

pub open spec fn all_fit(s: Seq<(Partition, Seq<u8>, Seq<u8>)>) -> bool {
    forall|i: int| 0 <= i < s.len() ==> entry_fits(#[trigger] s[i])
}

/// The writes of one batch, in the order they were made.
#[derive(Debug)]
pub struct Write {
    entries: Vec<Entry>,
}

impl View for Write {
    type V = Seq<(Partition, Seq<u8>, Seq<u8>)>;

    closed spec fn view(&self) -> Seq<(Partition, Seq<u8>, Seq<u8>)> {
        self.entries@.map_values(|e: Entry| e@)
    }
}

impl Write {
    pub fn new() -> (r: Write)
        ensures
            r@ == Seq::<(Partition, Seq<u8>, Seq<u8>)>::empty(),
    {
        let r = Write { entries: Vec::new() };
        assert(r@ =~= Seq::<(Partition, Seq<u8>, Seq<u8>)>::empty());
        r
    }

    pub fn insert(&mut self, partition: Partition, key: Vec<u8>, value: Vec<u8>)
        ensures
            final(self)@ == old(self)@.push((partition, key@, value@)),
    {
        self.entries.push(Entry { partition, key, value });
        assert(self@ =~= old(self)@.push((partition, key@, value@)));
    }

    pub fn entries(&self) -> (r: &Vec<Entry>)
        ensures
            r@.map_values(|e: Entry| e@) == self@,
    {
        &self.entries
    }
}

// What an append writes

/// Whether an event can be written: at most 255 tags, and every value it
/// gives within the engine's limit.
pub open spec fn event_fits(e: EventView) -> bool {
    &&& e.tags.len() <= 255
    &&& e.data.len() + 10 + 8 * e.tags.len() <= u32::MAX
    &&& encode_utf8(e.identifier).len() <= u32::MAX
    &&& forall|i: int| 0 <= i < e.tags.len() ==> encode_utf8(#[trigger] e.tags[i]).len() <= u32::MAX
}

/// The index entries of an event at position `p`: the descriptor entry, then
/// one entry per tag.
pub open spec fn index_writes(p: u64, e: EventView) -> Seq<(Partition, Seq<u8>, Seq<u8>)> {
    seq![(Partition::Index, descriptor_key(hash_of(e.identifier), p), seq![e.version])]
        + e.tags.map_values(|t: Seq<char>| (Partition::Index, tag_key(hash_of(t), p), Seq::<u8>::empty()))
}

/// The reference entries of an event: the identifier, then one entry per tag.
pub open spec fn reference_writes(e: EventView) -> Seq<(Partition, Seq<u8>, Seq<u8>)> {
    seq![(Partition::Reference, descriptor_reference_key(hash_of(e.identifier)), encode_utf8(e.identifier))]
        + e.tags.map_values(|t: Seq<char>| (Partition::Reference, tag_reference_key(hash_of(t)), encode_utf8(t)))
}

/// Everything written for an event at position `p`, in order: data, index,
/// reference.
pub open spec fn event_writes(p: u64, e: EventView) -> Seq<(Partition, Seq<u8>, Seq<u8>)> {
    seq![(Partition::Data, be64(p), data_value(e))] + index_writes(p, e) + reference_writes(e)
}

/// Everything written for `events` placed from position `start` on, event
/// by event.
pub open spec fn batch_writes(start: u64, events: Seq<EventView>) -> Seq<(Partition, Seq<u8>, Seq<u8>)>
    decreases events.len(),
{
    if events.len() == 0 {
        Seq::empty()
    } else {
        batch_writes(start, events.drop_last()) + event_writes(
            (start + events.len() - 1) as u64,
            events.last(),
        )
    }
}

/// A partition's contents after `writes`, starting from `m`: each write bound
/// for it sets its key to its value, a later write winning over an earlier
/// one.
pub open spec fn apply(
    m: Map<Seq<u8>, Seq<u8>>,
    partition: Partition,
    writes: Seq<(Partition, Seq<u8>, Seq<u8>)>,
) -> Map<Seq<u8>, Seq<u8>>
    decreases writes.len(),
{
    if writes.len() == 0 {
        m
    } else {
        let before = apply(m, partition, writes.drop_last());
        let w = writes.last();
        if w.0 == partition {
            before.insert(w.1, w.2)
        } else {
            before
        }
    }
}

/// Applying two runs of writes in turn is applying them joined.
pub proof fn lemma_apply_concat(
    m: Map<Seq<u8>, Seq<u8>>,
    partition: Partition,
    a: Seq<(Partition, Seq<u8>, Seq<u8>)>,
    b: Seq<(Partition, Seq<u8>, Seq<u8>)>,
)
    ensures
        apply(m, partition, a + b) == apply(apply(m, partition, a), partition, b),
    decreases b.len(),
{
    if b.len() == 0 {
        assert(a + b =~= a);
    } else {
        lemma_apply_concat(m, partition, a, b.drop_last());
        assert((a + b).drop_last() =~= a + b.drop_last());
    }
}

/// A key that no write of `s` for `partition` sets keeps its entry, or its
/// absence.
pub proof fn lemma_apply_untouched(
    m: Map<Seq<u8>, Seq<u8>>,
    partition: Partition,
    s: Seq<(Partition, Seq<u8>, Seq<u8>)>,
    k: Seq<u8>,
)
    requires
        forall|i: int| 0 <= i < s.len() && (#[trigger] s[i]).0 == partition ==> s[i].1 != k,
    ensures
        apply(m, partition, s).contains_key(k) == m.contains_key(k),
        m.contains_key(k) ==> apply(m, partition, s)[k] == m[k],
    decreases s.len(),
{
    if s.len() > 0 {
        lemma_apply_untouched(m, partition, s.drop_last(), k);
        assert(s.last() == s[s.len() - 1]);
    }
}

/// A key once present stays present, whatever is written after.
pub proof fn lemma_apply_keeps(
    m: Map<Seq<u8>, Seq<u8>>,
    partition: Partition,
    s: Seq<(Partition, Seq<u8>, Seq<u8>)>,
    k: Seq<u8>,
)
    requires
        m.contains_key(k),
    ensures
        apply(m, partition, s).contains_key(k),
    decreases s.len(),
{
    if s.len() > 0 {
        lemma_apply_keeps(m, partition, s.drop_last(), k);
    }
}

/// Every key after `s` holds either what it held in `m`, or the value of
/// some write of `s` to that key.
pub proof fn lemma_apply_value(
    m: Map<Seq<u8>, Seq<u8>>,
    partition: Partition,
    s: Seq<(Partition, Seq<u8>, Seq<u8>)>,
    k: Seq<u8>,
)
    requires
        apply(m, partition, s).contains_key(k),
    ensures
        (m.contains_key(k) && apply(m, partition, s)[k] == m[k]) || exists|i: int|
            0 <= i < s.len() && (#[trigger] s[i]).0 == partition && s[i].1 == k && apply(
                m,
                partition,
                s,
            )[k] == s[i].2,
    decreases s.len(),
{
    if s.len() > 0 {
        let w = s.last();
        let before = apply(m, partition, s.drop_last());
        if w.0 == partition && w.1 == k {
            assert(s[s.len() - 1] == w);
        } else {
            lemma_apply_value(m, partition, s.drop_last(), k);
            if !(m.contains_key(k) && before[k] == m[k]) {
                let i = choose|i: int|
                    0 <= i < s.drop_last().len() && (#[trigger] s.drop_last()[i]).0 == partition
                        && s.drop_last()[i].1 == k && before[k] == s.drop_last()[i].2;
                assert(s[i] == s.drop_last()[i]);
            }
        }
    }
}

/// A key that some write of `s` sets is present afterwards.
pub proof fn lemma_apply_contains(
    m: Map<Seq<u8>, Seq<u8>>,
    partition: Partition,
    s: Seq<(Partition, Seq<u8>, Seq<u8>)>,
    i: int,
)
    requires
        0 <= i < s.len(),
        s[i].0 == partition,
    ensures
        apply(m, partition, s).contains_key(s[i].1),
{
    let upto = s.take(i + 1);
    let after = s.subrange(i + 1, s.len() as int);
    assert(s =~= upto + after);
    lemma_apply_concat(m, partition, upto, after);
    assert(upto.last() == s[i]);
    lemma_apply_keeps(apply(m, partition, upto), partition, after, s[i].1);
}

/// Writes to other partitions leave a partition as it is.
pub proof fn lemma_apply_other(
    m: Map<Seq<u8>, Seq<u8>>,
    partition: Partition,
    s: Seq<(Partition, Seq<u8>, Seq<u8>)>,
)
    requires
        forall|i: int| 0 <= i < s.len() ==> (#[trigger] s[i]).0 != partition,
    ensures
        apply(m, partition, s) == m,
    decreases s.len(),
{
    if s.len() > 0 {
        lemma_apply_other(m, partition, s.drop_last());
        assert(s.last() == s[s.len() - 1]);
    }
}

/// Applying writes to `m` overlays what they alone give.
pub proof fn lemma_apply_overlay(
    m: Map<Seq<u8>, Seq<u8>>,
    partition: Partition,
    s: Seq<(Partition, Seq<u8>, Seq<u8>)>,
)
    ensures
        apply(m, partition, s) == m.union_prefer_right(apply(Map::empty(), partition, s)),
    decreases s.len(),
{
    if s.len() == 0 {
        assert(m.union_prefer_right(Map::empty()) =~= m);
    } else {
        lemma_apply_overlay(m, partition, s.drop_last());
        let a = apply(Map::empty(), partition, s.drop_last());
        let w = s.last();
        if w.0 == partition {
            assert(m.union_prefer_right(a).insert(w.1, w.2) =~= m.union_prefer_right(
                a.insert(w.1, w.2),
            ));
        }
    }
}

/// Of the writes of an event, only the first goes to the data partition.
pub proof fn lemma_event_data_write(p: u64, e: EventView, m: Map<Seq<u8>, Seq<u8>>)
    ensures
        apply(m, Partition::Data, event_writes(p, e)) == m.insert(be64(p), data_value(e)),
        forall|j: int|
            1 <= j < event_writes(p, e).len() ==> (#[trigger] event_writes(p, e)[j]).0
                != Partition::Data,
        event_writes(p, e)[0] == (Partition::Data, be64(p), data_value(e)),
{
    let first = seq![(Partition::Data, be64(p), data_value(e))];
    let rest = index_writes(p, e) + reference_writes(e);
    assert(event_writes(p, e) =~= first + rest);
    assert forall|i: int| 0 <= i < rest.len() implies (#[trigger] rest[i]).0 != Partition::Data by {
        if i < index_writes(p, e).len() {
            assert(rest[i] == index_writes(p, e)[i]);
        } else {
            assert(rest[i] == reference_writes(e)[i - index_writes(p, e).len()]);
        }
    }
    assert(first.drop_last() =~= Seq::<(Partition, Seq<u8>, Seq<u8>)>::empty());
    assert(apply(m, Partition::Data, first.drop_last()) == m);
    assert(apply(m, Partition::Data, first) == m.insert(be64(p), data_value(e)));
    lemma_apply_concat(m, Partition::Data, first, rest);
    lemma_apply_other(apply(m, Partition::Data, first), Partition::Data, rest);
    assert forall|j: int| 1 <= j < event_writes(p, e).len() implies (#[trigger] event_writes(
        p,
        e,
    )[j]).0 != Partition::Data by {
        assert(event_writes(p, e)[j] == rest[j - 1]);
    }
}

/// An event at position `p` gets exactly one descriptor entry, keyed by
/// `0x00 || hash(identifier) || p` and valued by its version, and one tag
/// entry per tag `t`, keyed by `0x01 || hash(t) || p`, in tag order; these
/// are all of its writes to the index partition.
pub proof fn index_fanout(p: u64, e: EventView)
    ensures
        ({
            let w = event_writes(p, e);
            let t = e.tags.len() as int;
            &&& w.len() == 3 + 2 * t
            &&& w[1] == (
                Partition::Index,
                seq![0u8] + be64(hash_of(e.identifier)) + be64(p),
                seq![e.version],
            )
            &&& forall|i: int|
                0 <= i < t ==> #[trigger] w[2 + i] == (
                    Partition::Index,
                    seq![1u8] + be64(hash_of(e.tags[i])) + be64(p),
                    Seq::<u8>::empty(),
                )
            &&& forall|j: int| 0 <= j < w.len() ==> ((#[trigger] w[j]).0 == Partition::Index <==> 1 <= j < 2 + t)
        }),
{
    let w = event_writes(p, e);
    let t = e.tags.len() as int;
    let iw = index_writes(p, e);
    let rw = reference_writes(e);
    assert(w =~= seq![(Partition::Data, be64(p), data_value(e))] + iw + rw);
    assert forall|i: int| 0 <= i < t implies #[trigger] w[2 + i] == (
        Partition::Index,
        seq![1u8] + be64(hash_of(e.tags[i])) + be64(p),
        Seq::<u8>::empty(),
    ) by {
        assert(w[2 + i] == iw[1 + i]);
    }
    assert forall|j: int| 0 <= j < w.len() implies ((#[trigger] w[j]).0 == Partition::Index <==> 1
        <= j < 2 + t) by {
        if 1 <= j < 2 + t {
            assert(w[j] == iw[j - 1]);
        } else if j >= 2 + t {
            assert(w[j] == rw[j - 2 - t]);
        }
    }
}

/// Writing the reference entries of an event a second time changes nothing,
/// and the identifier's entry then holds the identifier's UTF-8 bytes.
pub proof fn reference_idempotent(m: Map<Seq<u8>, Seq<u8>>, e: EventView)
    ensures
        apply(apply(m, Partition::Reference, reference_writes(e)), Partition::Reference, reference_writes(e))
            == apply(m, Partition::Reference, reference_writes(e)),
        apply(m, Partition::Reference, reference_writes(e))[descriptor_reference_key(
            hash_of(e.identifier),
        )] == encode_utf8(e.identifier),
{
    let rw = reference_writes(e);
    let once = apply(m, Partition::Reference, rw);
    lemma_apply_overlay(m, Partition::Reference, rw);
    lemma_apply_overlay(once, Partition::Reference, rw);
    let a = apply(Map::empty(), Partition::Reference, rw);
    assert(m.union_prefer_right(a).union_prefer_right(a) =~= m.union_prefer_right(a));

    let first = seq![rw[0]];
    let rest = rw.subrange(1, rw.len() as int);
    assert(rw =~= first + rest);
    let k = descriptor_reference_key(hash_of(e.identifier));
    assert forall|i: int| 0 <= i < rest.len() && (#[trigger] rest[i]).0 == Partition::Reference implies rest[i].1 != k by {
        assert(rest[i].1[0] == 1u8);
        assert(k[0] == 0u8);
    }
    lemma_apply_concat(m, Partition::Reference, first, rest);
    assert(first.drop_last() =~= Seq::<(Partition, Seq<u8>, Seq<u8>)>::empty());
    lemma_apply_untouched(apply(m, Partition::Reference, first), Partition::Reference, rest, k);
}

/// Adds to `write` everything that the event at `position` puts into the three
/// partitions.
pub fn insert(write: &mut Write, position: Position, event: Event)
    requires
        event@.tags.len() <= 255,
    ensures
        final(write)@ == old(write)@ + event_writes(position.spec_value(), event@),
{
    let event = HashedEvent::from(event);

    data::insert(write, position, &event);
    index::insert(write, position, &event);
    reference::insert(write, &event);
    assert(write@ =~= old(write)@ + event_writes(position.spec_value(), event@));
}

} // verus!
