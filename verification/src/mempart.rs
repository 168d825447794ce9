//! The in-memory write buffer.
//!
//! [`MemPart`] collects members and deletions per event and period until they
//! are flushed to part files, and keeps count of their serialized size.

use vstd::prelude::*;
use std::sync::Arc;

use roaring::RoaringBitmap;

use crate::bitmap::{
    canonical, compact, members, ordered, portable_bytes, serialized_len, union_with,
};
use crate::table::Table;
use crate::types::Period;

verus! {

/// The mathematical key of an entry: event name and period.
pub type EntryKey = (Seq<char>, Period);

/// Entries as sets.
pub type Entries = Map<EntryKey, Set<u32>>;

/// The bitmaps of a table as sets.
pub open spec fn entries_of(t: Map<EntryKey, Arc<RoaringBitmap>>) -> Entries {
    t.map_values(|b: Arc<RoaringBitmap>| members(*b))
}

/// The set of a key; empty without an entry.
pub open spec fn set_at(entries: Entries, key: EntryKey) -> Set<u32> {
    if entries.dom().contains(key) {
        entries[key]
    } else {
        Set::empty()
    }
}

/// Entries after `set` was added to that of a key.
pub open spec fn or_into(entries: Entries, key: EntryKey, set: Set<u32>) -> Entries {
    entries.insert(key, set_at(entries, key).union(set))
}

/// How much a set adds to the size of the buffer: its serialized size beyond
/// that of an empty set.
pub open spec fn weight(set: Set<u32>) -> int {
    portable_bytes(set).len() - portable_bytes(Set::empty()).len()
}

/// The weight of all entries.
pub open spec fn total_weight(entries: Entries) -> int
    decreases entries.dom().len(),
{
    if entries.dom().finite() && entries.dom().len() > 0 {
        let key = entries.dom().choose();
        weight(entries[key]) + total_weight(entries.remove(key))
    } else {
        0
    }
}

proof fn lemma_total_weight_remove(entries: Entries, key: EntryKey)
    requires
        entries.dom().finite(),
        entries.dom().contains(key),
    ensures
        total_weight(entries) == weight(entries[key]) + total_weight(entries.remove(key)),
    decreases entries.dom().len(),
{
    let first = entries.dom().choose();
    assert(entries.dom().len() > 0) by {
        if entries.dom().len() == 0 {
            assert(entries.dom() =~= Set::empty());
        }
    }
    if first != key {
        let rest = entries.remove(first);
        assert(rest.dom() =~= entries.dom().remove(first));
        assert(rest.dom().contains(key));
        lemma_total_weight_remove(rest, key);
        let other = entries.remove(key);
        assert(other.dom() =~= entries.dom().remove(key));
        assert(other.dom().contains(first));
        lemma_total_weight_remove(other, first);
        assert(rest.remove(key) =~= other.remove(first));
    }
}

proof fn lemma_total_weight_insert(entries: Entries, key: EntryKey, set: Set<u32>)
    requires
        entries.dom().finite(),
    ensures
        total_weight(entries.insert(key, set)) == total_weight(entries) + weight(set) - weight(
            set_at(entries, key),
        ),
{
    let after = entries.insert(key, set);
    assert(after.dom() =~= entries.dom().insert(key));
    lemma_total_weight_remove(after, key);
    if entries.dom().contains(key) {
        lemma_total_weight_remove(entries, key);
        assert(after.remove(key) =~= entries.remove(key));
    } else {
        assert(after.remove(key) =~= entries);
    }
}

/// The write buffer: members and deletions by event and period. Writing only
/// ever adds to an entry.
pub struct MemPart {
    /// Members by event and period.
    pub bitmaps: Table<(String, Period), Arc<RoaringBitmap>>,
    /// Deletions by event and period.
    pub deltas: Table<(String, Period), Arc<RoaringBitmap>>,
    size_bytes: u64,
}

/// What a [`MemPart`] held when [`MemPart::take_snapshot`] drained it.
pub struct MemPartSnapshot {
    /// Members by event and period.
    pub bitmaps: Table<(String, Period), Arc<RoaringBitmap>>,
    /// Deletions by event and period.
    pub deltas: Table<(String, Period), Arc<RoaringBitmap>>,
    /// Serialized size of all entries in bytes.
    pub size_bytes: u64,
}

/// Whether every bitmap of a table is canonical.
pub open spec fn all_canonical(t: Map<EntryKey, Arc<RoaringBitmap>>) -> bool {
    forall|k: EntryKey| #[trigger] t.dom().contains(k) ==> canonical(*t[k])
}

/// Whether the entry of a key, if there is one, has its containers in order.
pub open spec fn in_order(t: Map<EntryKey, Arc<RoaringBitmap>>, key: EntryKey) -> bool {
    t.dom().contains(key) ==> ordered(*t[key])
}

/// Whether the entry of a key, if there is one, is canonical.
pub open spec fn in_shape(t: Map<EntryKey, Arc<RoaringBitmap>>, key: EntryKey) -> bool {
    t.dom().contains(key) ==> canonical(*t[key])
}

/// Whether the serialized size of the entry of a key is that of its set.
pub open spec fn sized_by_set(t: Map<EntryKey, Arc<RoaringBitmap>>, key: EntryKey) -> bool {
    entry_size(t, key) == portable_bytes(set_at(entries_of(t), key)).len()
}

/// The serialized size of the entry of a key; that of an empty set without an
/// entry.
pub open spec fn entry_size(t: Map<EntryKey, Arc<RoaringBitmap>>, key: EntryKey) -> int {
    if t.dom().contains(key) {
        serialized_len(*t[key]) as int
    } else {
        portable_bytes(Set::empty()).len() as int
    }
}

/// `Arc::clone`: another pointer to the same bitmap.
#[verifier::external_body]
pub(crate) fn share(bitmap: &Arc<RoaringBitmap>) -> (r: Arc<RoaringBitmap>)
    ensures
        *r == **bitmap,
{
    Arc::clone(bitmap)
}

/// `Arc::unwrap_or_clone`: the bitmap itself if this is its only pointer, and a
/// clone of it otherwise.
#[verifier::external_body]
fn unshare(bitmap: Arc<RoaringBitmap>) -> (r: RoaringBitmap)
    ensures
        members(r) == members(*bitmap),
        ordered(r) == ordered(*bitmap),
        compact(r) == compact(*bitmap),
        serialized_len(r) == serialized_len(*bitmap),
{
    Arc::unwrap_or_clone(bitmap)
}

/// ORs `bitmap` into the entry of a key, and returns the serialized size of the
/// entry before and after.
fn or_entry(
    table: &mut Table<(String, Period), Arc<RoaringBitmap>>,
    event: &str,
    period: Period,
    bitmap: &RoaringBitmap,
) -> (r: (u64, u64))
    requires
        old(table).wf(),
    ensures
        final(table).wf(),
        final(table)@.dom() == old(table)@.dom().insert((event@, period)),
        final(table)@.remove((event@, period)) == old(table)@.remove((event@, period)),
        r.0 == entry_size(old(table)@, (event@, period)),
        r.1 == entry_size(final(table)@, (event@, period)),
        in_order(old(table)@, (event@, period)) && ordered(*bitmap) ==> ({
            let key = (event@, period);
            let before = entries_of(old(table)@);
            let after = entries_of(final(table)@);
            &&& in_order(final(table)@, key)
            &&& after == or_into(before, key, members(*bitmap))
        }),
        in_shape(old(table)@, (event@, period)) && canonical(*bitmap) ==> ({
            let key = (event@, period);
            &&& in_shape(final(table)@, key)
            &&& sized_by_set(old(table)@, key)
            &&& sized_by_set(final(table)@, key)
        }),
{
    let key = (event.to_owned(), period);
    let ghost k = (event@, period);
    let mut existing = match table.remove(&key) {
        Some(shared) => unshare(shared),
        None => RoaringBitmap::new(),
    };
    let ghost start = members(existing);
    let old_size: usize = existing.serialized_size();
    union_with(&mut existing, bitmap);
    let new_size: usize = existing.serialized_size();
    table.insert(key, Arc::new(existing));
    proof {
        assert(table@.dom() =~= old(table)@.dom().insert(k));
        assert(table@.remove(k) =~= old(table)@.remove(k));
        let before = entries_of(old(table)@);
        let after = entries_of(table@);
        assert(start == set_at(before, k));
        if in_order(old(table)@, k) && ordered(*bitmap) {
            assert forall|x: EntryKey| #[trigger] after.dom().contains(x) implies after[x]
                == or_into(before, k, members(*bitmap))[x] by {
                if x != k {
                    assert(old(table)@.remove(k)[x] == table@.remove(k)[x]);
                }
            }
            assert(after =~= or_into(before, k, members(*bitmap)));
        }
    }
    (old_size as u64, new_size as u64)
}

impl MemPart {
    /// The size counter.
    pub closed spec fn size(self) -> u64 {
        self.size_bytes
    }

    /// The bitmaps of members.
    pub closed spec fn bitmap_map(self) -> Map<EntryKey, Arc<RoaringBitmap>> {
        self.bitmaps@
    }

    /// The bitmaps of deletions.
    pub closed spec fn delta_map(self) -> Map<EntryKey, Arc<RoaringBitmap>> {
        self.deltas@
    }

    /// Members by event and period.
    pub open spec fn data(self) -> Entries {
        entries_of(self.bitmap_map())
    }

    /// Deletions by event and period.
    pub open spec fn tombstones(self) -> Entries {
        entries_of(self.delta_map())
    }

    /// No key occurs twice.
    pub closed spec fn wf(self) -> bool {
        self.bitmaps.wf() && self.deltas.wf()
    }

    /// Every bitmap is canonical, and the size counter is the weight of all
    /// entries, modulo 2^64.
    pub open spec fn sound(self) -> bool {
        &&& self.wf()
        &&& all_canonical(self.bitmap_map())
        &&& all_canonical(self.delta_map())
        &&& self.size() == (total_weight(self.data()) + total_weight(self.tombstones()))
            % 0x1_0000_0000_0000_0000
    }

    /// Creates an empty buffer.
    pub fn new() -> (r: MemPart)
        ensures
            r.sound(),
            r.data() == Entries::empty(),
            r.tombstones() == Entries::empty(),
            r.size() == 0,
    {
        let r = MemPart { bitmaps: Table::new(), deltas: Table::new(), size_bytes: 0 };
        assert(r.data() =~= Entries::empty());
        assert(r.tombstones() =~= Entries::empty());
        r
    }

    /// ORs `bitmap` into the members of an event and period.
    pub fn or_bitmap(&mut self, event: &str, period: Period, bitmap: &RoaringBitmap)
        requires
            old(self).wf(),
        ensures
            final(self).wf(),
            final(self).delta_map() == old(self).delta_map(),
            final(self).bitmap_map().dom() == old(self).bitmap_map().dom().insert((event@, period)),
            final(self).bitmap_map().remove((event@, period)) == old(self).bitmap_map().remove(
                (event@, period),
            ),
            final(self).size() == (old(self).size() + entry_size(
                final(self).bitmap_map(),
                (event@, period),
            ) - entry_size(old(self).bitmap_map(), (event@, period))) % 0x1_0000_0000_0000_0000,
            in_order(old(self).bitmap_map(), (event@, period)) && ordered(*bitmap) ==> in_order(
                final(self).bitmap_map(),
                (event@, period),
            ) && final(self).data() == or_into(
                old(self).data(),
                (event@, period),
                members(*bitmap),
            ),
            in_shape(old(self).bitmap_map(), (event@, period)) && canonical(*bitmap) ==> in_shape(
                final(self).bitmap_map(),
                (event@, period),
            ) && sized_by_set(old(self).bitmap_map(), (event@, period)) && sized_by_set(
                final(self).bitmap_map(),
                (event@, period),
            ),
            old(self).sound() && canonical(*bitmap) ==> final(self).sound(),
    {
        let (old_size, new_size) = or_entry(&mut self.bitmaps, event, period, bitmap);
        self.size_bytes = self.size_bytes.wrapping_add(new_size).wrapping_sub(old_size);
        proof {
            if old(self).sound() && canonical(*bitmap) {
                let key = (event@, period);
                let before = old(self).data();
                lemma_all_canonical(old(self).bitmap_map(), self.bitmap_map(), key);
                lemma_table_finite(old(self).bitmaps);
                lemma_total_weight_insert(before, key, set_at(before, key).union(members(*bitmap)));
                assert(set_at(self.data(), key) == set_at(before, key).union(members(*bitmap)));
            }
        }
    }

    /// ORs `bitmap` into the deletions of an event and period.
    pub fn or_delta(&mut self, event: &str, period: Period, bitmap: &RoaringBitmap)
        requires
            old(self).wf(),
        ensures
            final(self).wf(),
            final(self).bitmap_map() == old(self).bitmap_map(),
            final(self).delta_map().dom() == old(self).delta_map().dom().insert((event@, period)),
            final(self).delta_map().remove((event@, period)) == old(self).delta_map().remove(
                (event@, period),
            ),
            final(self).size() == (old(self).size() + entry_size(
                final(self).delta_map(),
                (event@, period),
            ) - entry_size(old(self).delta_map(), (event@, period))) % 0x1_0000_0000_0000_0000,
            in_order(old(self).delta_map(), (event@, period)) && ordered(*bitmap) ==> in_order(
                final(self).delta_map(),
                (event@, period),
            ) && final(self).tombstones() == or_into(
                old(self).tombstones(),
                (event@, period),
                members(*bitmap),
            ),
            in_shape(old(self).delta_map(), (event@, period)) && canonical(*bitmap) ==> in_shape(
                final(self).delta_map(),
                (event@, period),
            ) && sized_by_set(old(self).delta_map(), (event@, period)) && sized_by_set(
                final(self).delta_map(),
                (event@, period),
            ),
            old(self).sound() && canonical(*bitmap) ==> final(self).sound(),
    {
        let (old_size, new_size) = or_entry(&mut self.deltas, event, period, bitmap);
        self.size_bytes = self.size_bytes.wrapping_add(new_size).wrapping_sub(old_size);
        proof {
            if old(self).sound() && canonical(*bitmap) {
                let key = (event@, period);
                let before = old(self).tombstones();
                lemma_all_canonical(old(self).delta_map(), self.delta_map(), key);
                lemma_table_finite(old(self).deltas);
                lemma_total_weight_insert(before, key, set_at(before, key).union(members(*bitmap)));
                assert(set_at(self.tombstones(), key) == set_at(before, key).union(
                    members(*bitmap),
                ));
            }
        }
    }

    /// Returns the members of an event and period, shared with the buffer, or
    /// `None` if nothing was written there.
    pub fn get_bitmap(&self, event: &str, period: &Period) -> (r: Option<Arc<RoaringBitmap>>)
        requires
            self.wf(),
        ensures
            r is Some <==> self.bitmap_map().dom().contains((event@, *period)),
            r matches Some(b) ==> *b == *self.bitmap_map()[(event@, *period)] && members(*b)
                == self.data()[(event@, *period)],
    {
        match self.bitmaps.get(&(event.to_owned(), *period)) {
            Some(shared) => Some(share(shared)),
            None => None,
        }
    }

    /// Returns the deletions of an event and period, shared with the buffer, or
    /// `None` if none were written there.
    pub fn get_delta(&self, event: &str, period: &Period) -> (r: Option<Arc<RoaringBitmap>>)
        requires
            self.wf(),
        ensures
            r is Some <==> self.delta_map().dom().contains((event@, *period)),
            r matches Some(b) ==> *b == *self.delta_map()[(event@, *period)] && members(*b)
                == self.tombstones()[(event@, *period)],
    {
        match self.deltas.get(&(event.to_owned(), *period)) {
            Some(shared) => Some(share(shared)),
            None => None,
        }
    }

    /// Hands out all entries with their size and leaves the buffer empty.
    pub fn take_snapshot(&mut self) -> (r: MemPartSnapshot)
        ensures
            r.bitmaps@ == old(self).bitmap_map(),
            r.deltas@ == old(self).delta_map(),
            old(self).wf() ==> r.bitmaps.wf() && r.deltas.wf(),
            r.size_bytes == old(self).size(),
            final(self).sound(),
            final(self).data() == Entries::empty(),
            final(self).tombstones() == Entries::empty(),
            final(self).size() == 0,
    {
        let mut empty = MemPart::new();
        core::mem::swap(self, &mut empty);
        MemPartSnapshot {
            bitmaps: empty.bitmaps,
            deltas: empty.deltas,
            size_bytes: empty.size_bytes,
        }
    }

    /// Returns the serialized size of all entries in bytes.
    pub fn size_bytes(&self) -> (r: u64)
        ensures
            r == self.size(),
    {
        self.size_bytes
    }

    /// Returns whether there are neither members nor deletions.
    pub fn is_empty(&self) -> (r: bool)
        requires
            self.wf(),
        ensures
            r == (self.data() == Entries::empty() && self.tombstones() == Entries::empty()),
    {
        proof {
            lemma_entries_empty(self.bitmaps@);
            lemma_entries_empty(self.deltas@);
        }
        self.bitmaps.is_empty() && self.deltas.is_empty()
    }

    /// Returns whether members were written for an event and period.
    pub fn has_data(&self, event: &str, period: &Period) -> (r: bool)
        requires
            self.wf(),
        ensures
            r == self.data().dom().contains((event@, *period)),
    {
        self.bitmaps.contains_key(&(event.to_owned(), *period))
    }
}

/// A change at one key keeps all entries canonical if it keeps that one so.
proof fn lemma_all_canonical(
    before: Map<EntryKey, Arc<RoaringBitmap>>,
    after: Map<EntryKey, Arc<RoaringBitmap>>,
    key: EntryKey,
)
    requires
        all_canonical(before),
        before.remove(key) == after.remove(key),
        in_shape(after, key),
    ensures
        all_canonical(after),
{
    assert forall|k: EntryKey| #[trigger] after.dom().contains(k) implies canonical(*after[k]) by {
        if k != key {
            assert(after.remove(key).dom().contains(k));
            assert(before.remove(key).dom().contains(k));
            assert(before.remove(key)[k] == before[k]);
            assert(after.remove(key)[k] == after[k]);
        }
    }
}

proof fn lemma_entries_empty(t: Map<EntryKey, Arc<RoaringBitmap>>)
    ensures
        (entries_of(t) == Entries::empty()) == (t == Map::<EntryKey, Arc<RoaringBitmap>>::empty()),
{
    if t == Map::<EntryKey, Arc<RoaringBitmap>>::empty() {
        assert(entries_of(t) =~= Entries::empty());
    }
    if entries_of(t) == Entries::empty() {
        assert(t.dom() =~= entries_of(t).dom());
        assert(t =~= Map::<EntryKey, Arc<RoaringBitmap>>::empty());
    }
}

proof fn lemma_table_finite(t: Table<(String, Period), Arc<RoaringBitmap>>)
    requires
        t.wf(),
    ensures
        entries_of(t@).dom().finite(),
{
    crate::table::lemma_rows_map_len(t.rows());
    assert(entries_of(t@).dom() =~= t@.dom());
}

impl Default for MemPart {
    fn default() -> (r: MemPart)
        ensures
            r.sound(),
            r.data() == Entries::empty(),
            r.tombstones() == Entries::empty(),
            r.size() == 0,
    {
        MemPart::new()
    }
}

/// A buffer holds finitely many entries.
pub proof fn law_entries_finite(m: MemPart)
    requires
        m.wf(),
    ensures
        m.data().dom().finite(),
        m.tombstones().dom().finite(),
{
    lemma_table_finite(m.bitmaps);
    lemma_table_finite(m.deltas);
}

/// In a sound buffer every entry has its containers in order.
pub proof fn law_sound_in_order(m: MemPart, key: EntryKey)
    requires
        m.sound(),
    ensures
        in_order(m.bitmap_map(), key),
        in_order(m.delta_map(), key),
{
}

/// Adding the same set twice changes nothing the second time.
pub proof fn law_or_idempotent(entries: Entries, key: EntryKey, set: Set<u32>)
    ensures
        or_into(or_into(entries, key, set), key, set) == or_into(entries, key, set),
{
    let once = or_into(entries, key, set);
    assert(set_at(once, key).union(set) =~= set_at(once, key));
    assert(or_into(once, key, set) =~= once);
}

/// The order of two writes does not matter.
pub proof fn law_or_commutes(
    entries: Entries,
    key_a: EntryKey,
    a: Set<u32>,
    key_b: EntryKey,
    b: Set<u32>,
)
    ensures
        or_into(or_into(entries, key_a, a), key_b, b) == or_into(
            or_into(entries, key_b, b),
            key_a,
            a,
        ),
{
    let ab = or_into(or_into(entries, key_a, a), key_b, b);
    let ba = or_into(or_into(entries, key_b, b), key_a, a);
    if key_a == key_b {
        let s = set_at(entries, key_a);
        assert(s.union(a).union(b) =~= s.union(b).union(a));
    }
    assert(ab =~= ba);
}

/// A write never removes a member, and touches no other key.
pub proof fn law_or_only_adds(entries: Entries, key: EntryKey, set: Set<u32>, other: EntryKey)
    ensures
        set_at(entries, other).subset_of(set_at(or_into(entries, key, set), other)),
        set.subset_of(set_at(or_into(entries, key, set), key)),
        other != key ==> set_at(or_into(entries, key, set), other) == set_at(entries, other),
{
}

/// A write adds exactly its set to exactly its key: afterwards a key has a value
/// if it had it before, or if the write named both. The key of a write has an
/// entry from then on, also for an empty set, and no entry goes.
pub proof fn law_or_exact(
    entries: Entries,
    key: EntryKey,
    set: Set<u32>,
    other: EntryKey,
    v: u32,
)
    ensures
        ({
            let after = or_into(entries, key, set);
            &&& after.dom().contains(other) <==> entries.dom().contains(other) || other == key
            &&& after.dom().contains(other) ==> (after[other].contains(v) <==> (
            entries.dom().contains(other) && entries[other].contains(v)) || (other == key
                && set.contains(v)))
            &&& set_at(after, other).contains(v) <==> set_at(entries, other).contains(v) || (other
                == key && set.contains(v))
            &&& set_at(entries, other).contains(v) <==> entries.dom().contains(other)
                && entries[other].contains(v)
        }),
{
}

/// The weight of entries is the sum over all of them of how much larger each set
/// is, serialized, than an empty one.
pub proof fn law_weight_adds_up(entries: Entries, key: EntryKey)
    requires
        entries.dom().finite(),
    ensures
        entries.dom().contains(key) ==> total_weight(entries) == total_weight(entries.remove(key))
            + portable_bytes(entries[key]).len() - portable_bytes(Set::empty()).len(),
        entries.dom().len() == 0 ==> total_weight(entries) == 0,
{
    if entries.dom().contains(key) {
        lemma_total_weight_remove(entries, key);
    }
}

/// In a sound buffer the counter is the sum of both weights, as far as it counts.
pub proof fn law_sound_buffer_counts_its_weight(m: MemPart)
    requires
        m.sound(),
    ensures
        m.size() as int == (total_weight(m.data()) + total_weight(m.tombstones()))
            % 0x1_0000_0000_0000_0000,
        forall|k: EntryKey| #[trigger]
            m.bitmap_map().dom().contains(k) ==> canonical(*m.bitmap_map()[k]),
        forall|k: EntryKey| #[trigger]
            m.delta_map().dom().contains(k) ==> canonical(*m.delta_map()[k]),
{
}

/// What is said of the bitmaps of entries: an entry that is not there is in order
/// and in shape, and its size is that of an empty set.
pub proof fn law_entries_in_tables(t: Map<EntryKey, Arc<RoaringBitmap>>, key: EntryKey)
    ensures
        !t.dom().contains(key) ==> in_order(t, key) && in_shape(t, key) && entry_size(t, key)
            == portable_bytes(Set::empty()).len(),
        t.dom().contains(key) ==> (in_order(t, key) <==> ordered(*t[key])),
        t.dom().contains(key) ==> (in_shape(t, key) <==> ordered(*t[key]) && compact(*t[key])),
        t.dom().contains(key) ==> entry_size(t, key) == serialized_len(*t[key]),
        sized_by_set(t, key) <==> entry_size(t, key) == portable_bytes(
            if t.dom().contains(key) {
                members(*t[key])
            } else {
                Set::empty()
            },
        ).len(),
        entries_of(t).dom().contains(key) <==> t.dom().contains(key),
        t.dom().contains(key) ==> entries_of(t)[key] == members(*t[key]),
{
}

} // verus!
