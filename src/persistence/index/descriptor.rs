//! The descriptor forward index: from identifier hash to positions, each
//! entry valued by the event's version.

use std::ops::Range;
use vstd::prelude::*;

use crate::codec::{be64, from_be64, get_u64, lemma_be64_roundtrip, lemma_keys_order, lex_lt, put_u64};
use crate::engine::{keys_ascending, pairs_view, scan_prefix, scan_range};
use crate::error::StoreError;
use crate::model::{Position, Version};
use crate::persistence::index::{descriptor_key, descriptor_prefix};
use crate::persistence::{
    hash_of, HashedDescriptor, HashedIdentifier, HashedSpecifier, Partition, Partitions, Write,
};

verus! {

const INDEX_ID: u8 = 0;

/// Adds the descriptor entry of the event at `position`.
pub fn insert(write: &mut Write, position: Position, descriptor: &HashedDescriptor)
    ensures
        final(write)@ == old(write)@.push(
            (
                Partition::Index,
                descriptor_key(hash_of(descriptor@.0), position.spec_value()),
                seq![descriptor@.1],
            ),
        ),
{
    let mut key: Vec<u8> = Vec::new();
    write_key(&mut key, position, descriptor.identifer());
    let value = vec![descriptor.version().value()];
    assert(value@ =~= seq![descriptor@.1]);
    write.insert(Partition::Index, key, value);
}

/// The version bounds of a range: `0..255` when there is none.
pub open spec fn version_bounds(range: Option<Range<Version>>) -> (u8, u8) {
    match range {
        Some(r) => (r.start.spec_value(), r.end.spec_value()),
        None => (0, 255),
    }
}

/// Whether entries are filtered by version at all: not for bounds `0..255`.
pub open spec fn filters(lo: u8, hi: u8) -> bool {
    lo > 0 || hi < 255
}

/// The positions that a scan of descriptor entries yields: an entry whose
/// version lies outside `lo..hi` is passed over when `filters(lo, hi)`; the
/// others give the position in their last eight key bytes. `None` when an
/// entry that is read lacks the layout of this index.
pub open spec fn selection(entries: Seq<(Seq<u8>, Seq<u8>)>, lo: u8, hi: u8) -> Option<Seq<u64>>
    decreases entries.len(),
{
    if entries.len() == 0 {
        Some(Seq::empty())
    } else {
        match selection(entries.drop_last(), lo, hi) {
            None => None,
            Some(s) => {
                let k = entries.last().0;
                let v = entries.last().1;
                if filters(lo, hi) && v.len() == 0 {
                    None
                } else if filters(lo, hi) && !(lo <= v[0] && v[0] < hi) {
                    Some(s)
                } else if k.len() != 17 {
                    None
                } else {
                    Some(s.push(from_be64(k.subrange(9, 17))))
                }
            },
        }
    }
}

proof fn lemma_selection_none_persists(entries: Seq<(Seq<u8>, Seq<u8>)>, lo: u8, hi: u8, i: int, j: int)
    requires
        0 <= i <= j <= entries.len(),
        selection(entries.take(i), lo, hi) is None,
    ensures
        selection(entries.take(j), lo, hi) is None,
    decreases j - i,
{
    if j > i {
        lemma_selection_none_persists(entries, lo, hi, i, j - 1);
        assert(entries.take(j).drop_last() =~= entries.take(j - 1));
    }
}

/// The position that a descriptor entry refers to: its last eight key bytes.
pub open spec fn position_of(e: (Seq<u8>, Seq<u8>)) -> u64 {
    from_be64(e.0.subrange(9, 17))
}

/// Whether every entry has the layout of this index: a 17-byte key and a
/// one-byte value.
pub open spec fn well_formed(entries: Seq<(Seq<u8>, Seq<u8>)>) -> bool {
    forall|i: int| 0 <= i < entries.len() ==> (#[trigger] entries[i]).0.len() == 17 && entries[i].1.len() == 1
}

/// Filtering by version: with bounds `a..b` other than `0..255`, the
/// positions selected are exactly those of the entries whose version lies in
/// `a..b`, in scan order; with no range, that is bounds `0..255`, they are
/// the positions of all entries. (Bounds `0..255` given explicitly do not
/// filter either, so they keep version 255.)
pub proof fn version_filter(entries: Seq<(Seq<u8>, Seq<u8>)>, a: u8, b: u8)
    requires
        well_formed(entries),
    ensures
        !(a == 0 && b == 255) ==> selection(entries, a, b) == Some(
            entries.filter(|e: (Seq<u8>, Seq<u8>)| a <= e.1[0] && e.1[0] < b).map_values(
                |e: (Seq<u8>, Seq<u8>)| position_of(e),
            ),
        ),
        selection(entries, 0, 255) == Some(
            entries.map_values(|e: (Seq<u8>, Seq<u8>)| position_of(e)),
        ),
    decreases entries.len(),
{
    let pred = |e: (Seq<u8>, Seq<u8>)| a <= e.1[0] && e.1[0] < b;
    let pos = |e: (Seq<u8>, Seq<u8>)| position_of(e);
    reveal(Seq::filter);
    if entries.len() == 0 {
        assert(entries.filter(pred) =~= Seq::<(Seq<u8>, Seq<u8>)>::empty());
        assert(entries.filter(pred).map_values(pos) =~= Seq::<u64>::empty());
        assert(entries.map_values(pos) =~= Seq::<u64>::empty());
    } else {
        let prev = entries.drop_last();
        assert forall|i: int| 0 <= i < prev.len() implies (#[trigger] prev[i]).0.len() == 17 && prev[i].1.len() == 1 by {
            assert(prev[i] == entries[i]);
        }
        version_filter(prev, a, b);
        let e = entries.last();
        assert(e == entries[entries.len() - 1]);
        assert(entries.map_values(pos) =~= prev.map_values(pos).push(pos(e)));
        if pred(e) {
            assert(entries.filter(pred).map_values(pos) =~= prev.filter(pred).map_values(pos).push(pos(e)));
        } else {
            assert(entries.filter(pred) == prev.filter(pred));
        }
    }
}

/// Whether `x` is the position of some entry with a 17-byte key.
pub open spec fn selected_from(entries: Seq<(Seq<u8>, Seq<u8>)>, x: u64) -> bool {
    exists|i: int| 0 <= i < entries.len() && (#[trigger] entries[i]).0.len() == 17 && x == position_of(entries[i])
}

/// Every position selected is that of some entry with a 17-byte key; when
/// all entries share their first nine bytes and their keys ascend, the
/// positions selected ascend too.
pub proof fn lemma_selection_ascends(entries: Seq<(Seq<u8>, Seq<u8>)>, prefix: Seq<u8>, lo: u8, hi: u8)
    requires
        prefix.len() == 9,
        forall|i: int| 0 <= i < entries.len() ==> prefix.is_prefix_of(#[trigger] entries[i].0),
        keys_ascending(entries),
    ensures
        selection(entries, lo, hi) matches Some(s) ==> {
            &&& forall|i: int, j: int| 0 <= i < j < s.len() ==> #[trigger] s[i] < #[trigger] s[j]
            &&& forall|k: int| 0 <= k < s.len() ==> selected_from(entries, #[trigger] s[k])
        },
    decreases entries.len(),
{
    if entries.len() > 0 {
        let prev = entries.drop_last();
        assert forall|i: int| 0 <= i < prev.len() implies prefix.is_prefix_of(#[trigger] prev[i].0) by {
            assert(prev[i] == entries[i]);
        }
        assert forall|i: int, j: int| 0 <= i < j < prev.len() implies crate::codec::lex_lt(
            #[trigger] prev[i].0,
            #[trigger] prev[j].0,
        ) by {
            assert(prev[i] == entries[i]);
            assert(prev[j] == entries[j]);
        }
        assert(keys_ascending(prev));
        lemma_selection_ascends(prev, prefix, lo, hi);
        let n = prev.len() as int;
        let e = entries.last();
        assert(e == entries[n]);
        if selection(entries, lo, hi) is Some {
            let s = selection(entries, lo, hi)->Some_0;
            let sp = selection(prev, lo, hi)->Some_0;
            assert forall|x: u64| selected_from(prev, x) implies selected_from(entries, x) by {
                let i = choose|i: int|
                    0 <= i < prev.len() && (#[trigger] prev[i]).0.len() == 17 && x == position_of(prev[i]);
                assert(prev[i] == entries[i]);
            }
            if s.len() > sp.len() {
                assert(s == sp.push(position_of(e)));
                assert(e.0.len() == 17);
                assert forall|k: int| 0 <= k < sp.len() implies #[trigger] sp[k] < position_of(e) by {
                    assert(selected_from(prev, sp[k]));
                    let i = choose|i: int|
                        0 <= i < prev.len() && (#[trigger] prev[i]).0.len() == 17 && sp[k] == position_of(prev[i]);
                    assert(prev[i] == entries[i]);
                    assert(crate::codec::lex_lt(entries[i].0, entries[n].0));
                    assert forall|j: int| 0 <= j < 9 implies entries[i].0[j] == entries[n].0[j] by {
                        assert(entries[i].0[j] == prefix[j]);
                        assert(entries[n].0[j] == prefix[j]);
                    }
                    lemma_keys_order(entries[i].0, entries[n].0, 9);
                }
                assert forall|k: int| 0 <= k < s.len() implies selected_from(entries, #[trigger] s[k]) by {
                    if k < sp.len() {
                        assert(s[k] == sp[k]);
                        assert(selected_from(prev, sp[k]));
                    } else {
                        assert(s[k] == position_of(entries[n]));
                    }
                }
                assert forall|i: int, j: int| 0 <= i < j < s.len() implies #[trigger] s[i] < #[trigger] s[j] by {
                    assert(s[i] == sp[i]);
                    if j < sp.len() {
                        assert(s[j] == sp[j]);
                    }
                }
            } else {
                assert(s == sp);
                assert forall|k: int| 0 <= k < s.len() implies selected_from(entries, #[trigger] s[k]) by {
                    assert(selected_from(prev, sp[k]));
                }
            }
        }
    }
}

/// Picks the positions out of scanned descriptor entries, keeping only those
/// whose version lies in `lo..hi` unless the bounds are `0..255`.
pub fn select_positions(entries: &Vec<(Vec<u8>, Vec<u8>)>, lo: u8, hi: u8) -> (r: Result<
    Vec<u64>,
    StoreError,
>)
    ensures
        match selection(pairs_view(entries@), lo, hi) {
            None => r matches Err(StoreError::Corrupt),
            Some(s) => r matches Ok(v) && v@ == s,
        },
{
    let ghost all = pairs_view(entries@);
    let filter = lo > 0 || hi < 255;
    let mut positions: Vec<u64> = Vec::new();
    let mut i: usize = 0;
    while i < entries.len()
        invariant
            i <= entries@.len(),
            all == pairs_view(entries@),
            filter == filters(lo, hi),
            selection(all.take(i as int), lo, hi) == Some(positions@),
        decreases entries@.len() - i,
    {
        let (k, v) = &entries[i];
        proof {
            assert(all.take(i + 1).drop_last() =~= all.take(i as int));
            assert(all.take(i + 1).last() == all[i as int]);
            assert(all[i as int] == (k@, v@));
        }
        if filter {
            if v.len() == 0 {
                proof {
                    lemma_selection_none_persists(all, lo, hi, i + 1, all.len() as int);
                    assert(all.take(all.len() as int) =~= all);
                }
                return Err(StoreError::Corrupt);
            }
            let version = v[0];
            if !(lo <= version && version < hi) {
                i = i + 1;
                continue;
            }
        }
        if k.len() != 17 {
            proof {
                lemma_selection_none_persists(all, lo, hi, i + 1, all.len() as int);
                assert(all.take(all.len() as int) =~= all);
            }
            return Err(StoreError::Corrupt);
        }
        let position = get_u64(k.as_slice(), 9);
        positions.push(position);
        i = i + 1;
    }
    assert(all.take(i as int) =~= all);
    Ok(positions)
}

/// Every key lies between the descriptor keys of identifier hash `h` at
/// position `from` and at `u64::MAX`, both included.
pub open spec fn within_range(entries: Seq<(Seq<u8>, Seq<u8>)>, h: u64, from: u64) -> bool {
    forall|i: int|
        0 <= i < entries.len() ==> !lex_lt(#[trigger] entries[i].0, descriptor_key(h, from))
            && !lex_lt(descriptor_key(h, u64::MAX), entries[i].0)
}

/// The positions picked out of what a scan of descriptor entries gave: its
/// error as a storage error, else `select_positions` of the entries.
pub fn select_from_scan(scanned: Result<Vec<(Vec<u8>, Vec<u8>)>, fjall::Error>, lo: u8, hi: u8) -> (r: Result<
    Vec<u64>,
    StoreError,
>)
    ensures
        match scanned {
            Err(e) => r == Err::<Vec<u64>, StoreError>(StoreError::Storage(e)),
            Ok(entries) => match selection(pairs_view(entries@), lo, hi) {
                None => r matches Err(StoreError::Corrupt),
                Some(s) => r matches Ok(v) && v@ == s,
            },
        },
{
    match scanned {
        Ok(entries) => select_positions(&entries, lo, hi),
        Err(e) => Err(StoreError::Storage(e)),
    }
}

/// The positions of the events of `specifier`'s identifier whose version lies
/// in its range, in ascending order; from `position` on when it is given.
/// What the scan gives goes through `select_from_scan`, so an engine error
/// comes back as a storage error.
pub fn iterate(
    partitions: &Partitions,
    position: Option<Position>,
    specifier: &HashedSpecifier,
) -> (r: Result<Vec<u64>, StoreError>)
    ensures
        r matches Ok(v) ==> exists|entries: Seq<(Seq<u8>, Seq<u8>)>|
            {
                &&& #[trigger] selection(
                    entries,
                    version_bounds(specifier.spec_range()).0,
                    version_bounds(specifier.spec_range()).1,
                ) == Some(v@)
                &&& forall|i: int|
                    0 <= i < entries.len() ==> descriptor_prefix(
                        hash_of(specifier.spec_identifier()),
                    ).is_prefix_of(#[trigger] entries[i].0)
                &&& crate::engine::keys_ascending(entries)
            },
        r matches Ok(v) ==> forall|i: int, j: int| 0 <= i < j < v@.len() ==> #[trigger] v@[i] < #[trigger] v@[j],
        r matches Ok(v) ==> (position matches Some(p) ==> forall|i: int|
            0 <= i < v@.len() ==> #[trigger] v@[i] >= p.spec_value()),
{
    let ghost h = hash_of(specifier.spec_identifier());
    let scanned = match position {
        Some(position) => iterate_range(partitions, position, specifier),
        None => iterate_prefix(partitions, specifier),
    };
    assert(position matches Some(p) ==> (scanned matches Ok(v) ==> within_range(
        pairs_view(v@),
        h,
        p.spec_value(),
    )));
    let ghost scan = scanned;
    let (lo, hi) = match specifier.range() {
        Some(range) => (range.start.value(), range.end.value()),
        None => (0u8, 255u8),
    };
    let r = select_from_scan(scanned, lo, hi);
    proof {
        assert((lo, hi) == version_bounds(specifier.spec_range()));
        if r is Ok {
            let w = pairs_view(scan->Ok_0@);
            lemma_selection_ascends(w, descriptor_prefix(h), lo, hi);
            if position is Some {
                let from = position->Some_0.spec_value();
                let v = r->Ok_0@;
                let dk = descriptor_key(h, from);
                assert(dk.subrange(9, 17) =~= be64(from));
                lemma_be64_roundtrip(from);
                assert forall|k: int| 0 <= k < v.len() implies #[trigger] v[k] >= from by {
                    assert(selected_from(w, v[k]));
                    let i = choose|i: int|
                        0 <= i < w.len() && (#[trigger] w[i]).0.len() == 17 && v[k] == position_of(w[i]);
                    assert(!lex_lt(w[i].0, dk));
                    assert forall|j: int| 0 <= j < 9 implies w[i].0[j] == dk[j] by {
                        assert(descriptor_prefix(h).is_prefix_of(w[i].0));
                        assert(w[i].0[j] == descriptor_prefix(h)[j]);
                    }
                    lemma_keys_order(w[i].0, dk, 9);
                }
            }
            assert(selection(
                w,
                version_bounds(specifier.spec_range()).0,
                version_bounds(specifier.spec_range()).1,
            ) == Some(r->Ok_0@));
        }
    }
    r
}

fn iterate_prefix(partitions: &Partitions, specifier: &HashedSpecifier) -> (r: Result<
    Vec<(Vec<u8>, Vec<u8>)>,
    fjall::Error,
>)
    ensures
        r matches Ok(v) ==> {
            &&& forall|i: int|
                0 <= i < v@.len() ==> descriptor_prefix(
                    hash_of(specifier.spec_identifier()),
                ).is_prefix_of(#[trigger] pairs_view(v@)[i].0)
            &&& crate::engine::keys_ascending(pairs_view(v@))
        },
{
    let mut prefix: Vec<u8> = Vec::new();
    write_prefix(&mut prefix, specifier.identifer());
    scan_prefix(partitions.index(), prefix.as_slice())
}

fn iterate_range(
    partitions: &Partitions,
    position: Position,
    specifier: &HashedSpecifier,
) -> (r: Result<Vec<(Vec<u8>, Vec<u8>)>, fjall::Error>)
    ensures
        r matches Ok(v) ==> {
            &&& forall|i: int|
                0 <= i < v@.len() ==> descriptor_prefix(
                    hash_of(specifier.spec_identifier()),
                ).is_prefix_of(#[trigger] pairs_view(v@)[i].0)
            &&& crate::engine::keys_ascending(pairs_view(v@))
            &&& within_range(pairs_view(v@), hash_of(specifier.spec_identifier()), position.spec_value())
        },
{
    let mut lower: Vec<u8> = Vec::new();
    let mut upper: Vec<u8> = Vec::new();
    let identifier = specifier.identifer();
    write_key(&mut lower, position, identifier);
    write_key(&mut upper, Position::new(u64::MAX), identifier);
    proof {
        let h = hash_of(specifier.spec_identifier());
        assert(lower@ =~= descriptor_key(h, position.spec_value()));
        assert(upper@ =~= descriptor_key(h, u64::MAX));
        assert(lower@.subrange(9, 17) =~= crate::codec::be64(position.spec_value()));
        assert(upper@.subrange(9, 17) =~= crate::codec::be64(u64::MAX));
        crate::codec::lemma_be64_roundtrip(position.spec_value());
        crate::codec::lemma_be64_roundtrip(u64::MAX);
        lemma_keys_order(upper@, lower@, 9);
    }
    let r = scan_range(partitions.index(), lower.as_slice(), upper.as_slice());
    proof {
        if r is Ok {
            let v = r->Ok_0;
            let h = hash_of(specifier.spec_identifier());
            assert forall|i: int| 0 <= i < v@.len() implies descriptor_prefix(h).is_prefix_of(
                #[trigger] pairs_view(v@)[i].0,
            ) by {
                crate::codec::lemma_between_keeps_prefix(
                    descriptor_prefix(h),
                    lower@,
                    upper@,
                    pairs_view(v@)[i].0,
                );
            }
        }
    }
    r
}

/// Appends the descriptor entry key of `identifier` at `position` to `key`.
pub fn write_key(key: &mut Vec<u8>, position: Position, identifier: &HashedIdentifier)
    ensures
        final(key)@ == old(key)@ + descriptor_key(hash_of(identifier@), position.spec_value()),
{
    key.push(INDEX_ID);
    put_u64(key, identifier.hash());
    put_u64(key, position.value());
    assert(key@ =~= old(key)@ + descriptor_key(hash_of(identifier@), position.spec_value()));
}

/// Appends the prefix shared by all descriptor entries of `identifier` to
/// `prefix`.
pub fn write_prefix(prefix: &mut Vec<u8>, identifier: &HashedIdentifier)
    ensures
        final(prefix)@ == old(prefix)@ + descriptor_prefix(hash_of(identifier@)),
{
    prefix.push(INDEX_ID);
    put_u64(prefix, identifier.hash());
    assert(prefix@ =~= old(prefix)@ + descriptor_prefix(hash_of(identifier@)));
}

} // verus!
