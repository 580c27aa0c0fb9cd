//! The stream: the single writer of a store, holding the position that the
//! next event gets.

use vstd::prelude::*;

use crate::codec::{be64, from_be64, lemma_be64_injective, lemma_be64_order, lemma_be64_roundtrip, lex_lt};
use crate::engine::{keys_ascending, last_key, batch_items, batch_insert, commit, new_batch, partition_name};
use crate::error::StoreError;
use crate::model::{Event, EventView, Position, Specifier};
use crate::persistence::{
    self, all_fit, apply, batch_writes, data, data::data_value, data::length_of, data::length_from_last_key, event_fits,
    lemma_apply_concat, lemma_apply_keeps, lemma_apply_untouched, lemma_apply_value,
    lemma_apply_contains, lemma_event_data_write,
    index_fanout, reference_writes, index_writes, event_writes, index, Database, Entry,
    HashedSpecifier, Partition, Partitions, Write, hash_of,
};
use crate::persistence::index::{descriptor_key, descriptor_prefix, tag_key};
use crate::persistence::reference::{descriptor_reference_key, tag_reference_key};
use vstd::utf8::encode_utf8;
use crate::persistence::index::descriptor::{selection, version_bounds};

verus! {

/// The position that the next appended event gets.
#[derive(Debug)]
pub struct State {
    position: u64,
}

impl State {
    pub closed spec fn spec_current(&self) -> u64 {
        self.position
    }

    pub fn new(position: u64) -> (r: State)
        ensures
            r.spec_current() == position,
    {
        State { position }
    }

    pub fn current(&self) -> (r: u64)
        ensures
            r == self.spec_current(),
    {
        self.position
    }

    pub fn increment(&mut self)
        requires
            old(self).spec_current() < u64::MAX,
        ensures
            final(self).spec_current() == old(self).spec_current() + 1,
    {
        self.position = self.position + 1;
    }
}

/// The views of a sequence of events.
pub open spec fn views(events: Seq<Event>) -> Seq<EventView> {
    events.map_values(|e: Event| e@)
}

/// The writes of a batch as the engine's batch records them: by partition
/// name.
pub open spec fn labeled(p: Partitions, writes: Seq<(Partition, Seq<u8>, Seq<u8>)>) -> Seq<
    (Seq<char>, Seq<u8>, Seq<u8>),
> {
    writes.map_values(
        |w: (Partition, Seq<u8>, Seq<u8>)| (partition_name(p.handle(w.0)), w.1, w.2),
    )
}

/// An append-only event store over the `data`, `index` and `reference`
/// partitions of one keyspace.
pub struct Stream {
    database: Database,
    partitions: Partitions,
    state: State,
    base: Ghost<u64>,
    appended: Ghost<Seq<EventView>>,
}

impl Stream {
    /// The position that the next appended event gets.
    pub closed spec fn position(&self) -> u64 {
        self.state.spec_current()
    }

    /// The position at which this stream was opened.
    pub closed spec fn base(&self) -> u64 {
        self.base@
    }

    /// The events appended through this stream, in order.
    pub closed spec fn appended(&self) -> Seq<EventView> {
        self.appended@
    }

    /// The handles are those of the `data`, `index` and `reference`
    /// partitions, and the position follows the events appended.
    pub closed spec fn wf(&self) -> bool {
        &&& self.partitions.opened()
        &&& self.position() == self.base() + self.appended().len()
    }

    /// What this stream has committed to the engine, in order.
    pub open spec fn committed(&self) -> Seq<(Partition, Seq<u8>, Seq<u8>)> {
        batch_writes(self.base(), self.appended())
    }

    /// What this stream has put into a partition.
    pub open spec fn contents(&self, partition: Partition) -> Map<Seq<u8>, Seq<u8>> {
        apply(Map::empty(), partition, self.committed())
    }

    /// Opens, or creates, the store at `path`; the next position is the
    /// length of the data partition, as `open_at` takes it from the greatest
    /// key that the engine reports.
    pub fn new(path: &str) -> (r: Result<Stream, StoreError>)
        ensures
            r matches Ok(s) ==> {
                &&& s.wf()
                &&& s.appended() == Seq::<EventView>::empty()
                &&& s.base() == s.position()
            },
            r matches Err(e) ==> e is Storage || e is Corrupt,
    {
        let database = match persistence::database(path) {
            Ok(d) => d,
            Err(e) => return Err(e),
        };
        let partitions = match persistence::partitions(&database) {
            Ok(p) => p,
            Err(e) => return Err(e),
        };
        match last_key(partitions.data()) {
            Ok(last) => match &last {
                Some(key) => Stream::open_at(database, partitions, Some(key.as_slice())),
                None => Stream::open_at(database, partitions, None),
            },
            Err(e) => Err(StoreError::Storage(e)),
        }
    }

    /// A stream over opened partitions whose next position is the length
    /// that the greatest key of the data partition gives, `last` being that
    /// key if there is one; nothing is appended yet.
    pub fn open_at(database: Database, partitions: Partitions, last: Option<&[u8]>) -> (r: Result<
        Stream,
        StoreError,
    >)
        requires
            partitions.opened(),
        ensures
            r matches Ok(s) ==> {
                &&& Ok::<u64, StoreError>(s.position()) == length_of(
                    match last {
                        Some(k) => Some(k@),
                        None => None,
                    },
                )
                &&& s.wf()
                &&& s.appended() == Seq::<EventView>::empty()
                &&& s.base() == s.position()
            },
            r matches Err(e) ==> Err::<u64, StoreError>(e) == length_of(
                match last {
                    Some(k) => Some(k@),
                    None => None,
                },
            ),
    {
        match length_from_last_key(last) {
            Ok(len) => Ok(Stream {
                database,
                partitions,
                state: State::new(len),
                base: Ghost(len),
                appended: Ghost(Seq::empty()),
            }),
            Err(e) => Err(e),
        }
    }

    /// Commits `events` in one atomic batch, at consecutive positions from
    /// the current one. An event with more than 255 tags, one too large for
    /// the engine, or positions past `u64::MAX` fail the whole call before
    /// anything reaches the engine. On any error the stream records nothing
    /// as committed and keeps its position.
    pub fn append(&mut self, events: Vec<Event>) -> (r: Result<(), StoreError>)
        requires
            old(self).wf(),
        ensures
            final(self).wf(),
            final(self).base() == old(self).base(),
            r is Ok ==> final(self).appended() == old(self).appended() + views(events@),
            r is Ok ==> final(self).position() == old(self).position() + events@.len(),
            r is Err ==> final(self).appended() == old(self).appended(),
            r is Err ==> final(self).position() == old(self).position(),
            r is Err ==> forall|p: Partition| #[trigger] final(self).contents(p) == old(self).contents(p),
            r matches Err(StoreError::TooManyTags) <==> exists|i: int|
                0 <= i < events@.len() && (#[trigger] events@[i])@.tags.len() > 255,
            r matches Err(StoreError::TooLarge) <==> (forall|i: int|
                0 <= i < events@.len() ==> (#[trigger] events@[i])@.tags.len() <= 255) && exists|
                i: int,
            | 0 <= i < events@.len() && !event_fits((#[trigger] events@[i])@),
            r matches Err(StoreError::PositionOverflow) <==> (forall|i: int|
                0 <= i < events@.len() ==> event_fits((#[trigger] events@[i])@))
                && old(self).position() + events@.len() > u64::MAX,
            (r is Ok || r matches Err(StoreError::Storage(_))) <==> (forall|i: int|
                0 <= i < events@.len() ==> event_fits((#[trigger] events@[i])@))
                && old(self).position() + events@.len() <= u64::MAX,
    {
        let mut i: usize = 0;
        while i < events.len()
            invariant
                i <= events@.len(),
                self.wf(),
                self.appended() == old(self).appended(),
                self.position() == old(self).position(),
                self.base() == old(self).base(),
                forall|j: int| 0 <= j < i ==> (#[trigger] events@[j])@.tags.len() <= 255,
            decreases events@.len() - i,
        {
            if events[i].tags.len() > 255 {
                return Err(StoreError::TooManyTags);
            }
            i = i + 1;
        }
        let mut i: usize = 0;
        while i < events.len()
            invariant
                i <= events@.len(),
                self.wf(),
                self.appended() == old(self).appended(),
                self.position() == old(self).position(),
                self.base() == old(self).base(),
                forall|j: int| 0 <= j < events@.len() ==> (#[trigger] events@[j])@.tags.len() <= 255,
                forall|j: int| 0 <= j < i ==> event_fits((#[trigger] events@[j])@),
            decreases events@.len() - i,
        {
            if !fits(&events[i]) {
                return Err(StoreError::TooLarge);
            }
            i = i + 1;
        }
        let start = self.state.current();
        if events.len() as u64 > u64::MAX - start {
            return Err(StoreError::PositionOverflow);
        }

        let ghost evs = views(events@);
        let count = events.len() as u64;
        let write = plan(start, events);
        let batch = self.fill_batch(&write);
        match commit(batch) {
            Ok(()) => {
                self.state = State::new(start + count);
                self.appended = Ghost(self.appended@ + evs);
                proof {
                    lemma_batch_writes_concat(self.base(), old(self).appended(), evs);
                }
                Ok(())
            },
            Err(e) => Err(StoreError::Storage(e)),
        }
    }

    /// Puts the pending writes into a new engine batch, in order, each into
    /// the partition it is bound for.
    fn fill_batch(&self, write: &Write) -> (r: fjall::Batch)
        requires
            self.wf(),
            all_fit(write@),
        ensures
            batch_items(r) == labeled(self.partitions, write@),
    {
        let entries = write.entries();
        let mut batch = new_batch(self.database.keyspace());
        let mut i: usize = 0;
        while i < entries.len()
            invariant
                self.wf(),
                i <= entries@.len(),
                entries@.map_values(|e: Entry| e@) == write@,
                all_fit(write@),
                batch_items(batch) == labeled(self.partitions, write@.take(i as int)),
            decreases entries@.len() - i,
        {
            let entry = &entries[i];
            assert(write@[i as int] == entry@);
            assert(persistence::entry_fits(write@[i as int]));
            let handle = self.partitions.handle_of(entry.partition);
            batch_insert(&mut batch, handle, entry.key.as_slice(), entry.value.as_slice());
            assert(write@.take(i + 1) =~= write@.take(i as int).push(write@[i as int]));
            assert(labeled(self.partitions, write@.take(i + 1)) =~= labeled(
                self.partitions,
                write@.take(i as int),
            ).push((partition_name(*handle), entry.key@, entry.value@)));
            i = i + 1;
        }
        assert(write@.take(i as int) =~= write@);
        batch
    }

    /// The number of events in the store: `length_from_last_key` of the
    /// greatest key that the engine reports for the data partition.
    pub fn len(&self) -> (r: Result<u64, StoreError>)
        ensures
            r matches Err(e) ==> e is Storage || e is Corrupt,
    {
        data::len(&self.partitions)
    }

    /// Whether the store holds no event: `emptiness_from_last_key` of the
    /// greatest key that the engine reports for the data partition.
    pub fn is_empty(&self) -> (r: Result<bool, StoreError>)
        ensures
            r matches Err(e) ==> e is Storage || e is Corrupt,
    {
        data::is_empty(&self.partitions)
    }

    /// The positions of the events that `specifier` selects, in ascending
    /// order; from `position` on when it is given.
    pub fn iterate(&self, specifier: Specifier, position: Option<Position>) -> (r: Result<
        Vec<u64>,
        StoreError,
    >)
        ensures
            r matches Ok(v) ==> exists|entries: Seq<(Seq<u8>, Seq<u8>)>|
                {
                    &&& #[trigger] selection(
                        entries,
                        version_bounds(specifier.spec_range()).0,
                        version_bounds(specifier.spec_range()).1,
                    ) == Some(v@)
                    &&& forall|i: int|
                        0 <= i < entries.len() ==> descriptor_prefix(
                            hash_of(specifier.spec_identifier()@),
                        ).is_prefix_of(#[trigger] entries[i].0)
                    &&& keys_ascending(entries)
                },
            r matches Ok(v) ==> forall|i: int, j: int|
                0 <= i < j < v@.len() ==> #[trigger] v@[i] < #[trigger] v@[j],
            r matches Ok(v) ==> (position matches Some(p) ==> forall|i: int|
                0 <= i < v@.len() ==> #[trigger] v@[i] >= p.spec_value()),
    {
        let specifier = HashedSpecifier::from(specifier);
        index::descriptor::iterate(&self.partitions, position, &specifier)
    }
}

/// The writes of `events` placed from position `start` on.
fn plan(start: u64, events: Vec<Event>) -> (r: Write)
    requires
        forall|j: int| 0 <= j < events@.len() ==> event_fits((#[trigger] events@[j])@),
        start + events@.len() <= u64::MAX,
    ensures
        r@ == batch_writes(start, views(events@)),
        all_fit(r@),
{
    let ghost evs = views(events@);
    let ghost n = events@.len();
    let mut write = Write::new();
    let mut position = start;
    for event in it: events
        invariant
            it.seq() == events@,
            evs == views(events@),
            n == events@.len(),
            forall|j: int| 0 <= j < n ==> event_fits((#[trigger] events@[j])@),
            start + n <= u64::MAX,
            position == start + it.index(),
            write@ == batch_writes(start, evs.take(it.index() as int)),
            all_fit(write@),
    {
        let ghost k = it.index() as int;
        proof {
            lemma_batch_step(start, evs, k);
            assert(evs[k] == event@);
            lemma_event_writes_fit(position, event@);
        }
        let ghost before = write@;
        persistence::insert(&mut write, Position::new(position), event);
        proof {
            lemma_all_fit_concat(before, event_writes(position, evs[k]));
        }
        position = position + 1;
    }
    proof {
        assert(evs.take(n as int) =~= evs);
    }
    write
}

proof fn lemma_batch_step(start: u64, evs: Seq<EventView>, k: int)
    requires
        0 <= k < evs.len(),
        start + evs.len() <= u64::MAX,
    ensures
        batch_writes(start, evs.take(k + 1)) == batch_writes(start, evs.take(k)) + event_writes(
            (start + k) as u64,
            evs[k],
        ),
{
    assert(evs.take(k + 1).drop_last() =~= evs.take(k));
}

proof fn lemma_all_fit_concat(a: Seq<(Partition, Seq<u8>, Seq<u8>)>, b: Seq<(Partition, Seq<u8>, Seq<u8>)>)
    requires
        all_fit(a),
        all_fit(b),
    ensures
        all_fit(a + b),
{
    assert forall|j: int| 0 <= j < (a + b).len() implies persistence::entry_fits(#[trigger] (a + b)[j]) by {
        if j >= a.len() {
            assert((a + b)[j] == b[j - a.len()]);
        }
    }
}

/// Whether `event` can be written, as `event_fits` states.
fn fits(event: &Event) -> (r: bool)
    ensures
        r == event_fits(event@),
{
    if event.tags.len() > 255 {
        return false;
    }
    let header = 10 + 8 * event.tags.len();
    if event.data.len() > (u32::MAX as usize) - header {
        return false;
    }
    let identifier = event.descriptor.identifier().value();
    let len = identifier.as_bytes().len();
    assert(len == vstd::utf8::encode_utf8(identifier@).len());
    if len > u32::MAX as usize {
        return false;
    }
    let mut i: usize = 0;
    while i < event.tags.len()
        invariant
            i <= event.tags@.len(),
            event@.tags.len() <= 255,
            event@.data.len() + 10 + 8 * event@.tags.len() <= u32::MAX,
            vstd::utf8::encode_utf8(event@.identifier).len() <= u32::MAX,
            forall|j: int| 0 <= j < i ==> vstd::utf8::encode_utf8(#[trigger] event@.tags[j]).len() <= u32::MAX,
        decreases event.tags@.len() - i,
    {
        assert(event@.tags[i as int] == event.tags@[i as int]@);
        let value = event.tags[i].value();
        assert(value@ == event@.tags[i as int]);
        let len = value.as_bytes().len();
        assert(len == vstd::utf8::encode_utf8(value@).len());
        if len > u32::MAX as usize {
            return false;
        }
        i = i + 1;
    }
    true
}

proof fn lemma_event_writes_fit(p: u64, e: EventView)
    requires
        event_fits(e),
    ensures
        all_fit(event_writes(p, e)),
{
    crate::persistence::data::lemma_tag_hashes_len(e.tags);
    let w = event_writes(p, e);
    assert forall|j: int| 0 <= j < w.len() implies persistence::entry_fits(#[trigger] w[j]) by {
        let t = e.tags.len() as int;
        if 1 <= j < 2 + t {
            if j >= 2 {
                assert(w[j] == persistence::index_writes(p, e)[j - 1]);
            }
        } else if j >= 2 + t {
            assert(w[j] == persistence::reference_writes(e)[j - 2 - t]);
        }
    }
}

/// Writes of a batch split in two are those of the two parts in turn.
pub proof fn lemma_batch_writes_concat(start: u64, a: Seq<EventView>, b: Seq<EventView>)
    requires
        start + a.len() + b.len() <= u64::MAX,
    ensures
        batch_writes(start, a + b) == batch_writes(start, a) + batch_writes((start + a.len()) as u64, b),
    decreases b.len(),
{
    if b.len() == 0 {
        assert(a + b =~= a);
    } else {
        lemma_batch_writes_concat(start, a, b.drop_last());
        assert((a + b).drop_last() =~= a + b.drop_last());
    }
}

/// What the writes of `evs`, placed from `start` on, put into the data
/// partition: the key of each position, holding that event's data value.
pub proof fn lemma_batch_data(start: u64, evs: Seq<EventView>)
    requires
        start + evs.len() <= u64::MAX,
    ensures
        ({
            let d = apply(Map::empty(), Partition::Data, batch_writes(start, evs));
            &&& forall|k: Seq<u8>|
                #[trigger] d.contains_key(k) <==> exists|i: int|
                    0 <= i < evs.len() && k == #[trigger] be64((start + i) as u64)
            &&& forall|i: int|
                0 <= i < evs.len() ==> d[#[trigger] be64((start + i) as u64)] == data_value(evs[i])
            &&& d.dom().finite()
            &&& d.len() == evs.len()
        }),
    decreases evs.len(),
{
    let d = apply(Map::empty(), Partition::Data, batch_writes(start, evs));
    if evs.len() == 0 {
        assert(d =~= Map::empty());
    } else {
        let prev = evs.drop_last();
        let n = prev.len() as int;
        let p = (start + n) as u64;
        lemma_batch_data(start, prev);
        let dp = apply(Map::empty(), Partition::Data, batch_writes(start, prev));
        lemma_apply_concat(Map::empty(), Partition::Data, batch_writes(start, prev), event_writes(p, evs.last()));
        lemma_event_data_write(p, evs.last(), dp);
        assert(d == dp.insert(be64(p), data_value(evs.last())));
        assert(!dp.contains_key(be64(p))) by {
            if dp.contains_key(be64(p)) {
                let i = choose|i: int| 0 <= i < n && be64(p) == #[trigger] be64((start + i) as u64);
                lemma_be64_injective(p, (start + i) as u64);
            }
        }
        assert forall|k: Seq<u8>| #[trigger] d.contains_key(k) <==> exists|i: int|
            0 <= i < evs.len() && k == #[trigger] be64((start + i) as u64) by {
            if d.contains_key(k) && k != be64(p) {
                let i = choose|i: int| 0 <= i < n && k == #[trigger] be64((start + i) as u64);
                assert(0 <= i < evs.len() && k == be64((start + i) as u64));
            }
            if k == be64(p) {
                assert(0 <= n < evs.len() && k == be64((start + n) as u64));
            }
            if exists|i: int| 0 <= i < evs.len() && k == #[trigger] be64((start + i) as u64) {
                let i = choose|i: int| 0 <= i < evs.len() && k == #[trigger] be64((start + i) as u64);
                if i < n {
                    assert(dp.contains_key(be64((start + i) as u64)));
                }
            }
        }
        assert forall|i: int| 0 <= i < evs.len() implies d[#[trigger] be64((start + i) as u64)]
            == data_value(evs[i]) by {
            if i < n {
                lemma_be64_injective(p, (start + i) as u64);
                assert(prev[i] == evs[i]);
            }
        }
        assert(d.dom() =~= dp.dom().insert(be64(p)));
    }
}

/// The data writes of `evs`, placed from `start` on, are at positions from
/// `start` on, each above those before it.
pub proof fn lemma_batch_positions(start: u64, evs: Seq<EventView>)
    requires
        start + evs.len() <= u64::MAX,
    ensures
        ({
            let w = batch_writes(start, evs);
            &&& forall|i: int|
                0 <= i < w.len() && (#[trigger] w[i]).0 == Partition::Data ==> w[i].1.len() == 8
                    && start <= from_be64(w[i].1) < start + evs.len()
            &&& forall|i: int, j: int|
                0 <= i < j < w.len() && (#[trigger] w[i]).0 == Partition::Data && (#[trigger] w[j]).0
                    == Partition::Data ==> from_be64(w[i].1) < from_be64(w[j].1)
        }),
    decreases evs.len(),
{
    if evs.len() > 0 {
        let prev = evs.drop_last();
        let n = prev.len() as int;
        let p = (start + n) as u64;
        lemma_batch_positions(start, prev);
        lemma_event_data_write(p, evs.last(), Map::empty());
        lemma_be64_roundtrip(p);
        let a = batch_writes(start, prev);
        let b = event_writes(p, evs.last());
        let w = batch_writes(start, evs);
        assert(w == a + b);
        assert forall|i: int| 0 <= i < w.len() && (#[trigger] w[i]).0 == Partition::Data implies w[i].1.len()
            == 8 && start <= from_be64(w[i].1) < start + evs.len() by {
            if i >= a.len() {
                assert(w[i] == b[i - a.len()]);
            } else {
                assert(w[i] == a[i]);
            }
        }
        assert forall|i: int, j: int|
            0 <= i < j < w.len() && (#[trigger] w[i]).0 == Partition::Data && (#[trigger] w[j]).0
                == Partition::Data implies from_be64(w[i].1) < from_be64(w[j].1) by {
            if j >= a.len() {
                assert(w[j] == b[j - a.len()]);
                if i >= a.len() {
                    assert(w[i] == b[i - a.len()]);
                } else {
                    assert(w[i] == a[i]);
                }
            } else {
                assert(w[i] == a[i]);
                assert(w[j] == a[j]);
            }
        }
    }
}

/// The data partition holds one key for each position from the one the
/// stream was opened at up to the next one, that position's eight big-endian
/// bytes, holding the data value of the event there, and no other key.
pub proof fn density(s: &Stream)
    requires
        s.wf(),
    ensures
        forall|p: u64|
            s.base() <= p < s.position() ==> #[trigger] s.contents(Partition::Data).contains_key(
                be64(p),
            ),
        forall|k: Seq<u8>|
            #[trigger] s.contents(Partition::Data).contains_key(k) ==> exists|p: u64|
                s.base() <= p < s.position() && k == be64(p),
        forall|i: int|
            0 <= i < s.appended().len() ==> s.contents(Partition::Data)[be64(
                (s.base() + i) as u64,
            )] == data_value(#[trigger] s.appended()[i]),
{
    lemma_batch_data(s.base(), s.appended());
    assert forall|p: u64| s.base() <= p < s.position() implies #[trigger] s.contents(
        Partition::Data,
    ).contains_key(be64(p)) by {
        let i = p - s.base();
        assert(be64(p) == be64((s.base() + i) as u64));
    }
    assert forall|k: Seq<u8>| #[trigger] s.contents(Partition::Data).contains_key(k) implies exists|p: u64|
        s.base() <= p < s.position() && k == be64(p) by {
        let i = choose|i: int| 0 <= i < s.appended().len() && k == #[trigger] be64((s.base() + i) as u64);
        let p = (s.base() + i) as u64;
        assert(s.base() <= p < s.position() && k == be64(p));
    }
}

/// The data partition holds as many keys as events were appended.
pub proof fn count(s: &Stream)
    requires
        s.wf(),
    ensures
        s.contents(Partition::Data).len() == s.appended().len(),
        s.contents(Partition::Data).len() == s.position() - s.base(),
{
    lemma_batch_data(s.base(), s.appended());
}

/// Positions only grow: each data write that the stream committed carries a
/// greater position than every data write committed before it.
pub proof fn positions_increase(s: &Stream)
    requires
        s.wf(),
    ensures
        forall|i: int, j: int|
            0 <= i < j < s.committed().len() && (#[trigger] s.committed()[i]).0 == Partition::Data
                && (#[trigger] s.committed()[j]).0 == Partition::Data ==> from_be64(
                s.committed()[i].1,
            ) < from_be64(s.committed()[j].1),
{
    lemma_batch_positions(s.base(), s.appended());
}

/// Opening a store takes its length from the greatest key of the data
/// partition. For a store that the stream filled from empty, that key is the
/// last position's, and it gives back the number of events appended.
pub proof fn reopen_length(s: &Stream)
    requires
        s.wf(),
        s.base() == 0,
    ensures
        s.appended().len() == 0 ==> s.contents(Partition::Data) == Map::<Seq<u8>, Seq<u8>>::empty()
            && length_of(None) == Ok::<u64, StoreError>(0),
        s.appended().len() > 0 ==> {
            let g = be64((s.position() - 1) as u64);
            &&& s.contents(Partition::Data).contains_key(g)
            &&& forall|k: Seq<u8>|
                #[trigger] s.contents(Partition::Data).contains_key(k) && k != g ==> lex_lt(k, g)
            &&& length_of(Some(g)) == Ok::<u64, StoreError>(s.appended().len() as u64)
        },
{
    lemma_batch_data(s.base(), s.appended());
    density(s);
    let d = s.contents(Partition::Data);
    if s.appended().len() == 0 {
        assert(d =~= Map::<Seq<u8>, Seq<u8>>::empty());
    } else {
        let last = (s.position() - 1) as u64;
        let g = be64(last);
        lemma_be64_roundtrip(last);
        assert(d.contains_key(g));
        assert forall|k: Seq<u8>| #[trigger] d.contains_key(k) && k != g implies lex_lt(k, g) by {
            let p = choose|p: u64| s.base() <= p < s.position() && k == be64(p);
            lemma_be64_order(p, last);
        }
    }
}

/// The index writes of an event at `p` all have 17-byte keys ending in `p`.
proof fn lemma_event_index_keys(p: u64, e: EventView)
    ensures
        forall|j: int|
            0 <= j < event_writes(p, e).len() && (#[trigger] event_writes(p, e)[j]).0
                == Partition::Index ==> event_writes(p, e)[j].1.len() == 17 && from_be64(
                event_writes(p, e)[j].1.subrange(9, 17),
            ) == p,
{
    index_fanout(p, e);
    lemma_be64_roundtrip(p);
    let w = event_writes(p, e);
    assert forall|j: int| 0 <= j < w.len() && (#[trigger] w[j]).0 == Partition::Index implies w[j].1.len()
        == 17 && from_be64(w[j].1.subrange(9, 17)) == p && (w[j].1[0] == 1u8 ==> w[j].2 == Seq::<
        u8,
    >::empty()) by {
        if j == 1 {
            assert(w[j].1.subrange(9, 17) =~= be64(p));
        } else {
            let i = j - 2;
            assert(w[2 + i].1 == seq![1u8] + be64(hash_of(e.tags[i])) + be64(p));
            assert(w[j].1.subrange(9, 17) =~= be64(p));
        }
    }
}

/// The index writes of `evs`, placed from `start` on, have 17-byte keys
/// ending in a position from `start` on.
proof fn lemma_batch_index_positions(start: u64, evs: Seq<EventView>)
    requires
        start + evs.len() <= u64::MAX,
    ensures
        forall|i: int|
            0 <= i < batch_writes(start, evs).len() && (#[trigger] batch_writes(start, evs)[i]).0
                == Partition::Index ==> batch_writes(start, evs)[i].1.len() == 17 && start
                <= from_be64(batch_writes(start, evs)[i].1.subrange(9, 17)) < start + evs.len() && (
                batch_writes(start, evs)[i].1[0] == 1u8 ==> batch_writes(start, evs)[i].2 == Seq::<
                u8,
            >::empty()),
    decreases evs.len(),
{
    if evs.len() > 0 {
        let prev = evs.drop_last();
        let p = (start + prev.len()) as u64;
        lemma_batch_index_positions(start, prev);
        lemma_event_index_keys(p, evs.last());
        let a = batch_writes(start, prev);
        let b = event_writes(p, evs.last());
        let w = batch_writes(start, evs);
        assert forall|i: int| 0 <= i < w.len() && (#[trigger] w[i]).0 == Partition::Index implies w[i].1.len()
            == 17 && start <= from_be64(w[i].1.subrange(9, 17)) < start + evs.len() && (w[i].1[0]
            == 1u8 ==> w[i].2 == Seq::<u8>::empty()) by {
            if i >= a.len() {
                assert(w[i] == b[i - a.len()]);
            } else {
                assert(w[i] == a[i]);
            }
        }
    }
}

#[verifier::rlimit(40)]
proof fn lemma_index_entry(start: u64, evs: Seq<EventView>, i: int)
    requires
        start + evs.len() <= u64::MAX,
        0 <= i < evs.len(),
    ensures
        ({
            let m = apply(Map::empty(), Partition::Index, batch_writes(start, evs));
            let p = (start + i) as u64;
            let e = evs[i];
            &&& m.contains_key(descriptor_key(hash_of(e.identifier), p))
            &&& m[descriptor_key(hash_of(e.identifier), p)] == seq![e.version]
            &&& forall|j: int|
                0 <= j < e.tags.len() ==> m.contains_key(#[trigger] tag_key(hash_of(e.tags[j]), p))
                    && m[tag_key(hash_of(e.tags[j]), p)] == Seq::<u8>::empty()
        }),
{
    let p = (start + i) as u64;
    let e = evs[i];
    let rest = evs.subrange(i + 1, evs.len() as int);
    assert(evs =~= evs.take(i + 1) + rest);
    assert(evs.take(i + 1).drop_last() =~= evs.take(i));
    lemma_batch_writes_concat(start, evs.take(i + 1), rest);
    let a = batch_writes(start, evs.take(i));
    let b = event_writes(p, e);
    let c = batch_writes((p + 1) as u64, rest);
    assert(batch_writes(start, evs) == a + b + c);
    let empty = Map::<Seq<u8>, Seq<u8>>::empty();
    lemma_apply_concat(empty, Partition::Index, a + b, c);
    lemma_apply_concat(empty, Partition::Index, a, b);
    let ma = apply(empty, Partition::Index, a);
    let mb = apply(ma, Partition::Index, b);
    index_fanout(p, e);
    lemma_be64_roundtrip(p);

    // The descriptor entry: set by the second write of the event, and by no
    // later write.
    let kd = descriptor_key(hash_of(e.identifier), p);
    let head = b.take(2);
    let tail = b.subrange(2, b.len() as int);
    assert(b =~= head + tail);
    lemma_apply_concat(ma, Partition::Index, head, tail);
    assert(head.drop_last() =~= b.take(1));
    assert(b.take(1).drop_last() =~= Seq::<(Partition, Seq<u8>, Seq<u8>)>::empty());
    assert(b.take(1).last() == b[0]);
    assert(b[0].0 != Partition::Index);
    assert(apply(ma, Partition::Index, b.take(1).drop_last()) == ma);
    assert(apply(ma, Partition::Index, b.take(1)) == ma);
    assert(head.last() == b[1]);
    let mh = apply(ma, Partition::Index, head);
    assert(mh == ma.insert(kd, seq![e.version]));
    assert forall|j: int| 0 <= j < tail.len() && (#[trigger] tail[j]).0 == Partition::Index implies tail[j].1
        != kd by {
        assert(tail[j] == b[2 + j]);
        assert(tail[j].1[0] == 1u8);
    }
    lemma_apply_untouched(mh, Partition::Index, tail, kd);
    lemma_batch_index_positions((p + 1) as u64, rest);
    assert forall|j: int| 0 <= j < c.len() && (#[trigger] c[j]).0 == Partition::Index implies c[j].1 != kd by {
        if c[j].1 == kd {
            assert(kd.subrange(9, 17) =~= be64(p));
        }
    }
    lemma_apply_untouched(mb, Partition::Index, c, kd);

    // The tag entries: each set by its write, and kept.
    assert forall|j: int| 0 <= j < e.tags.len() implies apply(empty, Partition::Index, batch_writes(start, evs)).contains_key(
        #[trigger] tag_key(hash_of(e.tags[j]), p),
    ) && apply(empty, Partition::Index, batch_writes(start, evs))[tag_key(hash_of(e.tags[j]), p)]
        == Seq::<u8>::empty() by {
        let kt = tag_key(hash_of(e.tags[j]), p);
        let upto = b.take(3 + j);
        let after = b.subrange(3 + j, b.len() as int);
        assert(b =~= upto + after);
        assert(upto.last() == b[2 + j]);
        assert(b[2 + j].1 =~= kt);
        lemma_apply_concat(ma, Partition::Index, upto, after);
        assert(apply(ma, Partition::Index, upto).contains_key(kt));
        lemma_apply_keeps(apply(ma, Partition::Index, upto), Partition::Index, after, kt);
        lemma_apply_keeps(mb, Partition::Index, c, kt);
        let all = batch_writes(start, evs);
        lemma_batch_index_positions(start, evs);
        lemma_apply_value(empty, Partition::Index, all, kt);
        let x = choose|x: int|
            0 <= x < all.len() && (#[trigger] all[x]).0 == Partition::Index && all[x].1 == kt
                && apply(empty, Partition::Index, all)[kt] == all[x].2;
        assert(kt[0] == 1u8);
    }
}

/// Every key of the index partition is 17 bytes long.
proof fn lemma_index_key_lengths(start: u64, evs: Seq<EventView>, k: Seq<u8>)
    requires
        start + evs.len() <= u64::MAX,
        apply(Map::empty(), Partition::Index, batch_writes(start, evs)).contains_key(k),
    ensures
        k.len() == 17,
{
    let all = batch_writes(start, evs);
    lemma_batch_index_positions(start, evs);
    lemma_apply_value(Map::empty(), Partition::Index, all, k);
    let x = choose|x: int|
        0 <= x < all.len() && (#[trigger] all[x]).0 == Partition::Index && all[x].1 == k
            && apply(Map::empty(), Partition::Index, all)[k] == all[x].2;
}

/// Each appended event at position `p` has in the index partition its
/// descriptor entry `0x00 || hash(identifier) || p`, holding its version,
/// and a tag entry `0x01 || hash(t) || p`, holding nothing, for each of its
/// tags `t`. Every index key is 17 bytes long, so each of these is the one
/// key that starts with those bytes.
pub proof fn index_entries(s: &Stream)
    requires
        s.wf(),
    ensures
        forall|i: int|
            0 <= i < s.appended().len() ==> {
                let p = (s.base() + i) as u64;
                let e = #[trigger] s.appended()[i];
                &&& s.contents(Partition::Index).contains_key(descriptor_key(hash_of(e.identifier), p))
                &&& s.contents(Partition::Index)[descriptor_key(hash_of(e.identifier), p)] == seq![
                    e.version,
                ]
                &&& forall|j: int|
                    0 <= j < e.tags.len() ==> s.contents(Partition::Index).contains_key(
                        #[trigger] tag_key(hash_of(e.tags[j]), p),
                    ) && s.contents(Partition::Index)[tag_key(hash_of(e.tags[j]), p)]
                        == Seq::<u8>::empty()
            },
        forall|k: Seq<u8>| #[trigger] s.contents(Partition::Index).contains_key(k) ==> k.len() == 17,
{
    assert forall|i: int| 0 <= i < s.appended().len() implies {
        let p = (s.base() + i) as u64;
        let e = #[trigger] s.appended()[i];
        &&& s.contents(Partition::Index).contains_key(descriptor_key(hash_of(e.identifier), p))
        &&& s.contents(Partition::Index)[descriptor_key(hash_of(e.identifier), p)] == seq![e.version]
        &&& forall|j: int|
            0 <= j < e.tags.len() ==> s.contents(Partition::Index).contains_key(
                #[trigger] tag_key(hash_of(e.tags[j]), p),
            ) && s.contents(Partition::Index)[tag_key(hash_of(e.tags[j]), p)] == Seq::<u8>::empty()
    } by {
        lemma_index_entry(s.base(), s.appended(), i);
    }
    assert forall|k: Seq<u8>| #[trigger] s.contents(Partition::Index).contains_key(k) implies k.len() == 17 by {
        lemma_index_key_lengths(s.base(), s.appended(), k);
    }
}

/// Whether `x` is the reference write of the identifier of one of `evs`.
pub open spec fn identifier_reference_of(evs: Seq<EventView>, x: (Partition, Seq<u8>, Seq<u8>)) -> bool {
    exists|j: int|
        0 <= j < evs.len() && x == (
            Partition::Reference,
            descriptor_reference_key(hash_of(#[trigger] evs[j].identifier)),
            encode_utf8(evs[j].identifier),
        )
}

/// Whether `x` is the reference write of a tag of one of `evs`.
pub open spec fn tag_reference_of(evs: Seq<EventView>, x: (Partition, Seq<u8>, Seq<u8>)) -> bool {
    exists|j: int, t: int|
        0 <= j < evs.len() && 0 <= t < evs[j].tags.len() && x == (
            Partition::Reference,
            tag_reference_key(hash_of(#[trigger] evs[j].tags[t])),
            encode_utf8(evs[j].tags[t]),
        )
}

/// The reference writes of `evs` are those of their identifiers and tags.
proof fn lemma_batch_reference_writes(start: u64, evs: Seq<EventView>)
    requires
        start + evs.len() <= u64::MAX,
    ensures
        forall|i: int|
            0 <= i < batch_writes(start, evs).len() && (#[trigger] batch_writes(start, evs)[i]).0
                == Partition::Reference ==> identifier_reference_of(evs, batch_writes(start, evs)[i])
                || tag_reference_of(evs, batch_writes(start, evs)[i]),
    decreases evs.len(),
{
    if evs.len() > 0 {
        let prev = evs.drop_last();
        let n = prev.len() as int;
        let p = (start + n) as u64;
        let e = evs.last();
        lemma_batch_reference_writes(start, prev);
        let a = batch_writes(start, prev);
        let b = event_writes(p, e);
        let w = batch_writes(start, evs);
        let t = e.tags.len() as int;
        assert(b =~= seq![(Partition::Data, be64(p), data_value(e))] + index_writes(p, e) + reference_writes(e));
        assert(evs[n] == e);
        assert forall|i: int| 0 <= i < w.len() && (#[trigger] w[i]).0 == Partition::Reference implies identifier_reference_of(
            evs,
            w[i],
        ) || tag_reference_of(evs, w[i]) by {
            if i < a.len() {
                assert(w[i] == a[i]);
                if identifier_reference_of(prev, a[i]) {
                    let j = choose|j: int|
                        0 <= j < prev.len() && a[i] == (
                            Partition::Reference,
                            descriptor_reference_key(hash_of(#[trigger] prev[j].identifier)),
                            encode_utf8(prev[j].identifier),
                        );
                    assert(prev[j] == evs[j]);
                } else {
                    let (j, u) = choose|j: int, u: int|
                        0 <= j < prev.len() && 0 <= u < prev[j].tags.len() && a[i] == (
                            Partition::Reference,
                            tag_reference_key(hash_of(#[trigger] prev[j].tags[u])),
                            encode_utf8(prev[j].tags[u]),
                        );
                    assert(prev[j] == evs[j]);
                }
            } else {
                let x = i - a.len();
                assert(w[i] == b[x]);
                if x < 2 + t {
                    if x >= 1 {
                        assert(b[x] == index_writes(p, e)[x - 1]);
                    }
                } else if x == 2 + t {
                    assert(b[x] == reference_writes(e)[0]);
                } else {
                    let u = x - 3 - t;
                    assert(b[x] == reference_writes(e)[1 + u]);
                    assert(evs[n].tags[u] == e.tags[u]);
                }
            }
        }
    }
}

proof fn lemma_reference_entries(start: u64, evs: Seq<EventView>, i: int)
    requires
        start + evs.len() <= u64::MAX,
        0 <= i < evs.len(),
    ensures
        references_of(apply(Map::empty(), Partition::Reference, batch_writes(start, evs)), evs, i),
{
    let p = (start + i) as u64;
    let e = evs[i];
    let t = e.tags.len() as int;
    let rest = evs.subrange(i + 1, evs.len() as int);
    assert(evs =~= evs.take(i + 1) + rest);
    assert(evs.take(i + 1).drop_last() =~= evs.take(i));
    lemma_batch_writes_concat(start, evs.take(i + 1), rest);
    let a = batch_writes(start, evs.take(i));
    let b = event_writes(p, e);
    let c = batch_writes((p + 1) as u64, rest);
    let all = batch_writes(start, evs);
    assert(all == a + b + c);
    assert(b =~= seq![(Partition::Data, be64(p), data_value(e))] + index_writes(p, e) + reference_writes(e));
    let empty = Map::<Seq<u8>, Seq<u8>>::empty();
    let m = apply(empty, Partition::Reference, all);
    lemma_batch_reference_writes(start, evs);

    let k = descriptor_reference_key(hash_of(e.identifier));
    let di = a.len() + 2 + t;
    assert(all[di] == b[2 + t]);
    assert(b[2 + t] == reference_writes(e)[0]);
    lemma_apply_contains(empty, Partition::Reference, all, di);
    lemma_apply_value(empty, Partition::Reference, all, k);
    let x = choose|x: int|
        0 <= x < all.len() && (#[trigger] all[x]).0 == Partition::Reference && all[x].1 == k
            && m[k] == all[x].2;
    if tag_reference_of(evs, all[x]) {
        let (j, u) = choose|j: int, u: int|
            0 <= j < evs.len() && 0 <= u < evs[j].tags.len() && all[x] == (
                Partition::Reference,
                tag_reference_key(hash_of(#[trigger] evs[j].tags[u])),
                encode_utf8(evs[j].tags[u]),
            );
        assert(all[x].1[0] == 1u8);
    } else {
        let j = choose|j: int|
            0 <= j < evs.len() && all[x] == (
                Partition::Reference,
                descriptor_reference_key(hash_of(#[trigger] evs[j].identifier)),
                encode_utf8(evs[j].identifier),
            );
        assert(k.subrange(1, 9) =~= be64(hash_of(e.identifier)));
        assert(all[x].1.subrange(1, 9) =~= be64(hash_of(evs[j].identifier)));
        lemma_be64_injective(hash_of(e.identifier), hash_of(evs[j].identifier));
    }

    assert forall|tt: int| 0 <= tt < t implies m.contains_key(#[trigger] tag_reference_key(hash_of(e.tags[tt])))
        && exists|j: int, u: int|
        0 <= j < evs.len() && 0 <= u < evs[j].tags.len() && hash_of(#[trigger] evs[j].tags[u])
            == hash_of(e.tags[tt]) && m[tag_reference_key(hash_of(e.tags[tt]))] == encode_utf8(
            evs[j].tags[u],
        ) by {
        let kt = tag_reference_key(hash_of(e.tags[tt]));
        let ti = a.len() + 3 + t + tt;
        assert(all[ti] == b[3 + t + tt]);
        assert(b[3 + t + tt] == reference_writes(e)[1 + tt]);
        lemma_apply_contains(empty, Partition::Reference, all, ti);
        lemma_apply_value(empty, Partition::Reference, all, kt);
        let x = choose|x: int|
            0 <= x < all.len() && (#[trigger] all[x]).0 == Partition::Reference && all[x].1 == kt
                && m[kt] == all[x].2;
        if identifier_reference_of(evs, all[x]) {
            let j = choose|j: int|
                0 <= j < evs.len() && all[x] == (
                    Partition::Reference,
                    descriptor_reference_key(hash_of(#[trigger] evs[j].identifier)),
                    encode_utf8(evs[j].identifier),
                );
            assert(all[x].1[0] == 0u8);
        } else {
            let (j, u) = choose|j: int, u: int|
                0 <= j < evs.len() && 0 <= u < evs[j].tags.len() && all[x] == (
                    Partition::Reference,
                    tag_reference_key(hash_of(#[trigger] evs[j].tags[u])),
                    encode_utf8(evs[j].tags[u]),
                );
            assert(kt.subrange(1, 9) =~= be64(hash_of(e.tags[tt])));
            assert(all[x].1.subrange(1, 9) =~= be64(hash_of(evs[j].tags[u])));
            lemma_be64_injective(hash_of(e.tags[tt]), hash_of(evs[j].tags[u]));
        }
    }
}

/// What the reference partition `m` holds for the event `evs[i]`: an entry
/// keyed by `0x00 || hash(identifier)` whose value is the UTF-8 bytes of an
/// appended identifier with that hash, the identifier's own bytes when no
/// other appended identifier shares its hash, and likewise an entry keyed by
/// `0x01 || hash(tag)` for each of its tags, holding the tag's own bytes
/// when no other appended tag shares its hash (a tag repeated in one event
/// included).
pub open spec fn references_of(m: Map<Seq<u8>, Seq<u8>>, evs: Seq<EventView>, i: int) -> bool {
    let e = evs[i];
    let k = descriptor_reference_key(hash_of(e.identifier));
    &&& m.contains_key(k)
    &&& exists|j: int|
        0 <= j < evs.len() && hash_of(#[trigger] evs[j].identifier) == hash_of(e.identifier) && m[k]
            == encode_utf8(evs[j].identifier)
    &&& (forall|j: int|
        0 <= j < evs.len() && hash_of(#[trigger] evs[j].identifier) == hash_of(e.identifier)
            ==> evs[j].identifier == e.identifier) ==> m[k] == encode_utf8(e.identifier)
    &&& forall|t: int|
        0 <= t < e.tags.len() ==> m.contains_key(#[trigger] tag_reference_key(hash_of(e.tags[t])))
            && exists|j: int, u: int|
            0 <= j < evs.len() && 0 <= u < evs[j].tags.len() && hash_of(#[trigger] evs[j].tags[u])
                == hash_of(e.tags[t]) && m[tag_reference_key(hash_of(e.tags[t]))] == encode_utf8(
                evs[j].tags[u],
            )
    &&& forall|t: int|
        0 <= t < e.tags.len() && (forall|j: int, u: int|
            0 <= j < evs.len() && 0 <= u < evs[j].tags.len() && hash_of(#[trigger] evs[j].tags[u])
                == hash_of(e.tags[t]) ==> evs[j].tags[u] == e.tags[t]) ==> m[tag_reference_key(
            hash_of(#[trigger] e.tags[t]),
        )] == encode_utf8(e.tags[t])
}

/// Each identifier and each tag appended has one reference entry, holding
/// the bytes of an appended string with that hash; repeated writes of the
/// same string overwrite it with equal content, so where no two distinct
/// appended identifiers share a hash, the value is the identifier's own
/// bytes.
pub proof fn references(s: &Stream)
    requires
        s.wf(),
    ensures
        forall|i: int|
            0 <= i < s.appended().len() ==> #[trigger] references_of(
                s.contents(Partition::Reference),
                s.appended(),
                i,
            ),
{
    assert forall|i: int| 0 <= i < s.appended().len() implies #[trigger] references_of(
        s.contents(Partition::Reference),
        s.appended(),
        i,
    ) by {
        lemma_reference_entries(s.base(), s.appended(), i);
    }
}

} // verus!
