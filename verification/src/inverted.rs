//! The inverted index: from an external identifier to the events and periods in
//! which it occurs.
//!
//! A lookup asks a Bloom filter over identifiers, then a bitmap of short
//! hashes, and only then searches the sorted entries by long hash.

use vstd::prelude::*;
use vstd::utf8::*;
use std::hash::Hasher;

use roaring::RoaringBitmap;
use rustc_hash::FxHasher;

use crate::bitmap::{canonical, members};
use crate::bloom::BloomFilter;
use crate::text::str_eq;
use crate::types::{IndexEntry, Membership, Period};

verus! {

// ---------------------------------------------------------------------------
// Hashes
// ---------------------------------------------------------------------------

/// What `rustc_hash::FxHasher` finishes with after one write of these bytes, in
/// a program built for a target with words of this many bits. The crate mixes
/// words in one of two ways, by the target's architecture and features, so the
/// name stands for one build target: programs built for different targets may
/// hash differently, and a hash is never stored.
pub uninterp spec fn fx_hash(bytes: Seq<u8>, word_bits: nat) -> u64;

/// The 64-bit hash of an identifier.
pub open spec fn long_hash(id: Seq<char>) -> u64 {
    fx_hash(encode_utf8(id), usize::BITS as nat)
}

/// The 32-bit hash of an identifier: the lower half of the 64-bit hash.
pub open spec fn short_hash(id: Seq<char>) -> u32 {
    long_hash(id) as u32
}

/// `rustc_hash::FxHasher`: one write of the bytes of a text, then `finish`. The
/// result depends on the bytes and on the build target alone (the width of a
/// word, and the architecture and features by which the crate picks how it
/// multiplies), which is the same in every call of a program.
#[verifier::external_body]
pub(crate) fn fx_hash64(s: &str) -> (r: u64)
    ensures
        r == fx_hash(encode_utf8(s@), usize::BITS as nat),
{
    let mut hasher = FxHasher::default();
    hasher.write(s.as_bytes());
    hasher.finish()
}

/// Returns the lower half of the 64-bit hash of a text.
#[verifier::truncate]
pub(crate) fn fx_hash32(s: &str) -> (r: u32)
    ensures
        r == short_hash(s@),
{
    fx_hash64(s) as u32
}

// ---------------------------------------------------------------------------
// The frozen index
// ---------------------------------------------------------------------------

/// Decode tables: the names and periods that memberships refer to by position.
pub struct InvertedMeta {
    /// Event names.
    pub event_names: Vec<String>,
    /// Periods.
    pub periods: Vec<Period>,
}

/// A membership as two positions.
pub open spec fn pair_of(m: Membership) -> (u16, u16) {
    (m.event_pos(), m.period_pos())
}

/// The event and period of a pair of positions, if both are in their tables.
pub open spec fn decoded(meta: InvertedMeta, pair: (u16, u16)) -> Option<(Seq<char>, Period)> {
    if pair.0 < meta.event_names@.len() && pair.1 < meta.periods@.len() {
        Some((meta.event_names@[pair.0 as int]@, meta.periods@[pair.1 as int]))
    } else {
        None
    }
}

/// The events and periods of pairs, in order; pairs out of the tables are left
/// out.
pub open spec fn decoded_all(meta: InvertedMeta, pairs: Seq<(u16, u16)>) -> Seq<
    (Seq<char>, Period),
>
    decreases pairs.len(),
{
    if pairs.len() == 0 {
        Seq::empty()
    } else {
        let front = decoded_all(meta, pairs.drop_last());
        match decoded(meta, pairs.last()) {
            Some(found) => front.push(found),
            None => front,
        }
    }
}

/// An index that is built once and then only read.
pub struct InvertedIndex {
    entries: Vec<IndexEntry>,
    memberships: Vec<Membership>,
    bloom: BloomFilter,
    known_hashes: RoaringBitmap,
    meta: InvertedMeta,
}

/// Names with periods as texts with periods.
pub open spec fn found_texts(v: Seq<(String, Period)>) -> Seq<(Seq<char>, Period)> {
    Seq::new(v.len(), |i: int| (v[i].0@, v[i].1))
}

impl InvertedIndex {
    /// Entries ascend by hash and lie within the memberships.
    pub closed spec fn wf(self) -> bool {
        &&& self.bloom.wf()
        &&& canonical(self.known_hashes)
        &&& forall|i: int, j: int|
            0 <= i < j < self.entries@.len() ==> (#[trigger] self.entries@[i]).id_hash < (
            #[trigger] self.entries@[j]).id_hash
        &&& forall|i: int|
            0 <= i < self.entries@.len() ==> (#[trigger] self.entries@[i]).offset
                + self.entries@[i].count <= self.memberships@.len()
    }

    spec fn block(self, i: int) -> Seq<(u16, u16)> {
        let e = self.entries@[i];
        Seq::new(e.count as nat, |k: int| pair_of(self.memberships@[e.offset + k]))
    }

    /// The memberships under a hash.
    pub closed spec fn postings(self, hash: u64) -> Seq<(u16, u16)> {
        if exists|i: int| 0 <= i < self.entries@.len() && (#[trigger] self.entries@[i]).id_hash
            == hash {
            self.block(
                choose|i: int|
                    0 <= i < self.entries@.len() && (#[trigger] self.entries@[i]).id_hash == hash,
            )
        } else {
            Seq::empty()
        }
    }

    /// The Bloom filter over identifiers.
    pub closed spec fn filter(self) -> BloomFilter {
        self.bloom
    }

    /// The short hashes of all identifiers.
    pub closed spec fn short_hashes(self) -> Set<u32> {
        members(self.known_hashes)
    }

    /// The decode tables.
    pub closed spec fn tables(self) -> InvertedMeta {
        self.meta
    }

    /// Whether an identifier passes both filters.
    pub open spec fn admits(self, id: Seq<char>) -> bool {
        self.filter().answers(encode_utf8(id)) && self.short_hashes().contains(short_hash(id))
    }

    /// What a lookup finds.
    pub open spec fn found(self, id: Seq<char>) -> Seq<(Seq<char>, Period)> {
        if self.admits(id) {
            decoded_all(self.tables(), self.postings(long_hash(id)))
        } else {
            Seq::empty()
        }
    }

    /// Returns `false` if the identifier is definitely absent.
    pub fn maybe_contains(&self, external_id: &str) -> (r: bool)
        requires
            self.wf(),
        ensures
            r == self.filter().answers(encode_utf8(external_id@)),
    {
        self.bloom.test(external_id.as_bytes())
    }

    /// Returns whether the short hash of the identifier is known.
    pub fn definitely_contains(&self, external_id: &str) -> (r: bool)
        requires
            self.wf(),
        ensures
            r == self.short_hashes().contains(short_hash(external_id@)),
    {
        self.known_hashes.contains(fx_hash32(external_id))
    }

    fn find(&self, hash: u64) -> (r: Option<usize>)
        requires
            self.wf(),
        ensures
            match r {
                Some(i) => i < self.entries@.len() && self.entries@[i as int].id_hash == hash
                    && self.postings(hash) == self.block(i as int),
                None => self.postings(hash) == Seq::<(u16, u16)>::empty(),
            },
    {
        let mut lo: usize = 0;
        let mut hi: usize = self.entries.len();
        while lo < hi
            invariant
                self.wf(),
                lo <= hi <= self.entries@.len(),
                forall|i: int| 0 <= i < lo ==> (#[trigger] self.entries@[i]).id_hash < hash,
                forall|i: int|
                    hi <= i < self.entries@.len() ==> (#[trigger] self.entries@[i]).id_hash > hash,
            decreases hi - lo,
        {
            let mid: usize = lo + (hi - lo) / 2;
            let here: u64 = self.entries[mid].id_hash;
            if here == hash {
                proof {
                    let i = choose|i: int|
                        0 <= i < self.entries@.len() && (#[trigger] self.entries@[i]).id_hash
                            == hash;
                    assert(self.entries@[mid as int].id_hash == hash);
                    if i < mid {
                        assert(self.entries@[i].id_hash < self.entries@[mid as int].id_hash);
                    }
                    if mid < i {
                        assert(self.entries@[mid as int].id_hash < self.entries@[i].id_hash);
                    }
                }
                return Some(mid);
            }
            if here < hash {
                lo = mid + 1;
            } else {
                hi = mid;
            }
        }
        None
    }

    /// Returns the events and periods of an identifier; empty if it is not in
    /// the index.
    pub fn lookup(&self, external_id: &str) -> (r: Vec<(String, Period)>)
        requires
            self.wf(),
        ensures
            found_texts(r@) == self.found(external_id@),
    {
        let mut out: Vec<(String, Period)> = Vec::new();
        assert(found_texts(out@) =~= Seq::empty());
        if !self.maybe_contains(external_id) || !self.definitely_contains(external_id) {
            return out;
        }
        let hash: u64 = fx_hash64(external_id);
        let at: usize = match self.find(hash) {
            Some(i) => i,
            None => {
                return out;
            },
        };
        let entry = self.entries[at];
        let total: usize = self.memberships.len();
        let ghost pairs = self.block(at as int);
        let mut k: u32 = 0;
        assert(pairs.subrange(0, 0) =~= Seq::empty());
        while k < entry.count
            invariant
                self.wf(),
                k <= entry.count,
                total == self.memberships@.len(),
                at < self.entries@.len(),
                entry == self.entries@[at as int],
                pairs == self.block(at as int),
                found_texts(out@) == decoded_all(self.meta, pairs.subrange(0, k as int)),
            decreases entry.count - k,
        {
            let m = self.memberships[entry.offset as usize + k as usize];
            let e: usize = m.event_id() as usize;
            let p: usize = m.period_id() as usize;
            let ghost front = found_texts(out@);
            proof {
                let upto = pairs.subrange(0, k + 1);
                assert(upto.drop_last() =~= pairs.subrange(0, k as int));
                assert(upto.last() == pair_of(m));
            }
            if e < self.meta.event_names.len() && p < self.meta.periods.len() {
                out.push((self.meta.event_names[e].clone(), self.meta.periods[p]));
                assert(found_texts(out@) =~= front.push(
                    (self.meta.event_names@[e as int]@, self.meta.periods@[p as int]),
                ));
            }
            k = k + 1;
        }
        assert(pairs.subrange(0, k as int) =~= pairs);
        out
    }

    /// Returns whether an identifier occurs in an event and period.
    pub fn contains(&self, external_id: &str, event: &str, period: &Period) -> (r: bool)
        requires
            self.wf(),
        ensures
            r == self.found(external_id@).contains((event@, *period)),
    {
        let found = self.lookup(external_id);
        let mut i: usize = 0;
        while i < found.len()
            invariant
                i <= found@.len(),
                found_texts(found@) == self.found(external_id@),
                forall|k: int| 0 <= k < i ==> #[trigger] found_texts(found@)[k] != (event@, *period),
            decreases found@.len() - i,
        {
            assert(found_texts(found@)[i as int] == (found@[i as int].0@, found@[i as int].1));
            if found[i].1 == *period && str_eq(found[i].0.as_str(), event) {
                assert(found_texts(found@).contains((event@, *period)));
                return true;
            }
            i = i + 1;
        }
        false
    }

    /// Returns the decode tables.
    pub fn meta(&self) -> (r: &InvertedMeta)
        ensures
            *r == self.tables(),
    {
        &self.meta
    }

    /// Returns an index without entries.
    pub fn empty() -> (r: InvertedIndex)
        ensures
            r.wf(),
            forall|id: Seq<char>| #[trigger] r.found(id) == Seq::<(Seq<char>, Period)>::empty(),
            r.filter().size() == 64,
            r.filter().hashes() == 44,
            r.filter().set_bits() == Set::<int>::empty(),
            r.short_hashes() == Set::<u32>::empty(),
            r.tables().event_names@.len() == 0,
            r.tables().periods@.len() == 0,
    {
        InvertedIndex {
            entries: Vec::new(),
            memberships: Vec::new(),
            bloom: BloomFilter::with_params(64, 44),
            known_hashes: RoaringBitmap::new(),
            meta: InvertedMeta { event_names: Vec::new(), periods: Vec::new() },
        }
    }
}

// ---------------------------------------------------------------------------
// The builder
// ---------------------------------------------------------------------------

/// A staged membership of an identifier.
pub struct StagedRow {
    /// 64-bit hash of the identifier.
    pub hash: u64,
    /// 32-bit hash of the identifier.
    pub short: u32,
    /// The identifier.
    pub bytes: Vec<u8>,
    /// Position of the event name.
    pub event_id: u16,
    /// Position of the period.
    pub period_id: u16,
}

/// Collects memberships and builds an [`InvertedIndex`] from them.
pub struct InvertedIndexBuilder {
    meta: InvertedMeta,
    raw: Vec<StagedRow>,
}

/// The positions of a row.
pub open spec fn row_pair(row: StagedRow) -> (u16, u16) {
    (row.event_id, row.period_id)
}

/// Whether a row has a hash and a pair of positions.
pub open spec fn row_is(row: StagedRow, hash: u64, pair: (u16, u16)) -> bool {
    row.hash == hash && row_pair(row) == pair
}

/// How many rows have a hash and a pair of positions.
pub open spec fn tally(rows: Seq<StagedRow>, hash: u64, pair: (u16, u16)) -> nat
    decreases rows.len(),
{
    if rows.len() == 0 {
        0
    } else {
        tally(rows.drop_last(), hash, pair) + if row_is(rows.last(), hash, pair) {
            1nat
        } else {
            0nat
        }
    }
}

/// How many times a pair occurs.
pub open spec fn occurrences(pairs: Seq<(u16, u16)>, pair: (u16, u16)) -> nat
    decreases pairs.len(),
{
    if pairs.len() == 0 {
        0
    } else {
        occurrences(pairs.drop_last(), pair) + if pairs.last() == pair {
            1nat
        } else {
            0nat
        }
    }
}

/// Whether rows ascend by hash.
pub open spec fn rows_ascend(rows: Seq<StagedRow>) -> bool {
    forall|i: int, j: int|
        0 <= i < j < rows.len() ==> (#[trigger] rows[i]).hash <= (#[trigger] rows[j]).hash
}

/// `<[T]>::sort_unstable_by_key`: puts the rows in ascending order of hash. Rows
/// with one hash come in any order.
#[verifier::external_body]
fn sort_rows(rows: &mut Vec<StagedRow>)
    ensures
        rows_ascend(final(rows)@),
        final(rows)@.to_multiset() == old(rows)@.to_multiset(),
{
    rows.sort_unstable_by_key(|r| r.hash);
}

proof fn lemma_tally_multiset(rows: Seq<StagedRow>, hash: u64, pair: (u16, u16))
    ensures
        tally(rows, hash, pair) == rows.to_multiset().filter(
            |r: StagedRow| row_is(r, hash, pair),
        ).len(),
    decreases rows.len(),
{
    let f = |r: StagedRow| row_is(r, hash, pair);
    if rows.len() == 0 {
        rows.to_multiset_ensures();
        assert(rows.to_multiset() =~= vstd::multiset::Multiset::empty());
        assert(rows.to_multiset().filter(f) =~= vstd::multiset::Multiset::empty());
    } else {
        let init = rows.drop_last();
        lemma_tally_multiset(init, hash, pair);
        vstd::seq_lib::to_multiset_build(init, rows.last());
        assert(init.push(rows.last()) =~= rows);
        let whole = rows.to_multiset();
        let part = init.to_multiset();
        assert(whole =~= part.insert(rows.last()));
        if f(rows.last()) {
            assert(whole.filter(f) =~= part.filter(f).insert(rows.last()));
        } else {
            assert(whole.filter(f) =~= part.filter(f));
        }
    }
}

/// Rows in another order have the same tallies.
proof fn lemma_tally_permutation(
    a: Seq<StagedRow>,
    b: Seq<StagedRow>,
    hash: u64,
    pair: (u16, u16),
)
    requires
        a.to_multiset() == b.to_multiset(),
    ensures
        tally(a, hash, pair) == tally(b, hash, pair),
{
    lemma_tally_multiset(a, hash, pair);
    lemma_tally_multiset(b, hash, pair);
}

/// Only rows between `from` and `to` count when no other row has the hash.
proof fn lemma_tally_block(
    rows: Seq<StagedRow>,
    from: int,
    to: int,
    hash: u64,
    pair: (u16, u16),
)
    requires
        0 <= from <= to <= rows.len(),
        forall|k: int| from <= k < to ==> (#[trigger] rows[k]).hash == hash,
        forall|k: int|
            0 <= k < rows.len() && (k < from || k >= to) ==> (#[trigger] rows[k]).hash != hash,
    ensures
        tally(rows, hash, pair) == occurrences(
            Seq::new((to - from) as nat, |k: int| row_pair(rows[from + k])),
            pair,
        ),
    decreases rows.len(),
{
    let pairs = Seq::new((to - from) as nat, |k: int| row_pair(rows[from + k]));
    if rows.len() > 0 {
        let init = rows.drop_last();
        assert forall|k: int| 0 <= k < init.len() implies init[k] == rows[k] by {}
        if to < rows.len() {
            lemma_tally_block(init, from, to, hash, pair);
            assert(Seq::new((to - from) as nat, |k: int| row_pair(init[from + k])) =~= pairs);
            assert(rows[rows.len() - 1].hash != hash);
        } else if from < to {
            lemma_tally_block(init, from, to - 1, hash, pair);
            let shorter = Seq::new((to - 1 - from) as nat, |k: int| row_pair(init[from + k]));
            assert(pairs.drop_last() =~= shorter);
            assert(rows[rows.len() - 1].hash == hash);
        } else {
            lemma_tally_block(init, from - 1, to - 1, hash, pair);
            assert(Seq::new(0, |k: int| row_pair(init[from - 1 + k])) =~= pairs);
            assert(rows[rows.len() - 1].hash != hash);
        }
    }
}

impl InvertedIndexBuilder {
    /// The rows collected so far.
    pub closed spec fn rows(self) -> Seq<StagedRow> {
        self.raw@
    }

    /// The decode tables.
    pub closed spec fn tables(self) -> InvertedMeta {
        self.meta
    }

    /// Starts with decode tables and no rows.
    pub fn new(event_names: Vec<String>, periods: Vec<Period>) -> (r: InvertedIndexBuilder)
        ensures
            r.rows() == Seq::<StagedRow>::empty(),
            r.tables() == (InvertedMeta { event_names, periods }),
    {
        InvertedIndexBuilder { meta: InvertedMeta { event_names, periods }, raw: Vec::new() }
    }

    /// Adds a membership of an identifier.
    pub fn add(&mut self, external_id: &str, event_id: u16, period_id: u16)
        ensures
            final(self).tables() == old(self).tables(),
            final(self).rows().len() == old(self).rows().len() + 1,
            final(self).rows().drop_last() == old(self).rows(),
            is_row_of(final(self).rows().last(), external_id@, event_id, period_id),
    {
        let hash: u64 = fx_hash64(external_id);
        let short: u32 = fx_hash32(external_id);
        let bytes = external_id.as_bytes();
        let mut copy: Vec<u8> = Vec::new();
        let mut i: usize = 0;
        while i < bytes.len()
            invariant
                i <= bytes@.len(),
                copy@ =~= bytes@.subrange(0, i as int),
            decreases bytes@.len() - i,
        {
            copy.push(bytes[i]);
            i = i + 1;
        }
        assert(copy@ =~= bytes@);
        self.raw.push(StagedRow { hash, short, bytes: copy, event_id, period_id });
        assert(self.raw@.drop_last() =~= old(self).raw@);
    }

    /// Puts the rows in order of hash and returns the number of different
    /// hashes, by which the Bloom filter is sized.
    pub fn distinct_hashes(&mut self) -> (r: usize)
        ensures
            final(self).tables() == old(self).tables(),
            final(self).rows().to_multiset() == old(self).rows().to_multiset(),
            r == hash_set(old(self).rows()).len(),
    {
        sort_rows(&mut self.raw);
        let ghost rows = self.raw@;
        let mut count: usize = 0;
        let mut i: usize = 0;
        assert(hash_set(rows.subrange(0, 0)) =~= Set::empty());
        while i < self.raw.len()
            invariant
                i <= self.raw@.len(),
                rows == self.raw@,
                rows_ascend(rows),
                count <= i,
                hash_set(rows.subrange(0, i as int)).finite(),
                count == hash_set(rows.subrange(0, i as int)).len(),
            decreases self.raw@.len() - i,
        {
            let is_new = i == 0 || self.raw[i - 1].hash != self.raw[i].hash;
            proof {
                let before = rows.subrange(0, i as int);
                let upto = rows.subrange(0, i + 1);
                let h = rows[i as int].hash;
                assert(hash_set(upto) =~= hash_set(before).insert(h)) by {
                    assert forall|x: u64| hash_set(upto).contains(x) <==> hash_set(before).insert(
                        h,
                    ).contains(x) by {
                        if hash_set(upto).contains(x) {
                            let k = choose|k: int|
                                0 <= k < upto.len() && (#[trigger] upto[k]).hash == x;
                            if k < i {
                                assert(before[k].hash == x);
                            }
                        }
                        if hash_set(before).contains(x) {
                            let k = choose|k: int|
                                0 <= k < before.len() && (#[trigger] before[k]).hash == x;
                            assert(upto[k].hash == x);
                        }
                        if x == h {
                            assert(upto[i as int].hash == x);
                        }
                    }
                }
                if is_new {
                    if hash_set(before).contains(h) {
                        let k = choose|k: int|
                            0 <= k < before.len() && (#[trigger] before[k]).hash == h;
                        assert(rows[k].hash == h);
                        if k < i - 1 {
                            assert(rows[k].hash <= rows[i - 1].hash);
                        }
                        assert(rows[i - 1].hash <= rows[i as int].hash);
                    }
                } else {
                    assert(before[i - 1].hash == h);
                }
            }
            if is_new {
                count = count + 1;
            }
            i = i + 1;
        }
        proof {
            assert(rows.subrange(0, i as int) =~= rows);
            lemma_hash_set_permutation(rows, old(self).raw@);
        }
        count
    }

    /// Builds the index with a Bloom filter of the given size. Every identifier
    /// enters the filter, also where several share a hash.
    pub fn build(self, bloom_bits: usize, bloom_hashes: usize) -> (r: InvertedIndex)
        requires
            bloom_bits > 0,
            self.rows().len() <= u32::MAX,
        ensures
            r.wf(),
            r.tables() == self.tables(),
            r.filter().size() == bloom_bits,
            r.filter().hashes() == bloom_hashes,
            built_from(r, self.rows()),
    {
        let meta = self.meta;
        let mut rows = self.raw;
        let ghost raw = rows@;
        let n: usize = rows.len();
        proof {
            raw.to_multiset_ensures();
        }
        sort_rows(&mut rows);
        let ghost sorted = rows@;
        proof {
            sorted.to_multiset_ensures();
            assert(sorted.len() == raw.len());
        }
        let mut bloom = BloomFilter::with_params(bloom_bits, bloom_hashes);
        let mut known_hashes = RoaringBitmap::new();
        let mut entries: Vec<IndexEntry> = Vec::new();
        let mut memberships: Vec<Membership> = Vec::new();
        let mut i: usize = 0;
        while i < rows.len()
            invariant
                i <= sorted.len(),
                rows@ == sorted,
                sorted.len() <= u32::MAX,
                rows_ascend(sorted),
                bloom.wf(),
                bloom.size() == bloom_bits,
                bloom.hashes() == bloom_hashes,
                canonical(known_hashes),
                memberships@.len() == i,
                forall|k: int|
                    0 <= k < i ==> pair_of(#[trigger] memberships@[k]) == row_pair(sorted[k]),
                blocks_cover(entries@, sorted, i as int),
                filters_cover(bloom, members(known_hashes), sorted, i as int),
            decreases sorted.len() - i,
        {
            let hash: u64 = rows[i].hash;
            let start: usize = i;
            let ghost done = entries@;
            while i < rows.len() && rows[i].hash == hash
                invariant
                    start <= i <= sorted.len(),
                    start < sorted.len(),
                    hash == sorted[start as int].hash,
                    rows@ == sorted,
                    sorted.len() <= u32::MAX,
                    bloom.wf(),
                    bloom.size() == bloom_bits,
                    bloom.hashes() == bloom_hashes,
                    canonical(known_hashes),
                    memberships@.len() == i,
                    forall|k: int|
                        0 <= k < i ==> pair_of(#[trigger] memberships@[k]) == row_pair(sorted[k]),
                    forall|k: int| start <= k < i ==> (#[trigger] sorted[k]).hash == hash,
                    filters_cover(bloom, members(known_hashes), sorted, i as int),
                ensures
                    i < sorted.len() ==> sorted[i as int].hash != hash,
                    i > start,
                decreases sorted.len() - i,
            {
                let ghost bloom_before = bloom;
                let ghost known_before = members(known_hashes);
                bloom.insert(rows[i].bytes.as_slice());
                let _ = known_hashes.insert(rows[i].short);
                memberships.push(Membership::inline(rows[i].event_id, rows[i].period_id));
                proof {
                    lemma_filters_step(
                        bloom_before,
                        known_before,
                        bloom,
                        members(known_hashes),
                        sorted,
                        i as int,
                    );
                }
                i = i + 1;
            }
            entries.push(
                IndexEntry { id_hash: hash, offset: start as u32, count: (i - start) as u32 },
            );
            proof {
                lemma_blocks_step(done, entries@, sorted, start as int, i as int);
            }
        }
        let index = InvertedIndex { entries, memberships, bloom, known_hashes, meta };
        proof {
            lemma_cover_sound(entries@, sorted);
            assert(index.wf());
            assert forall|h: u64, pair: (u16, u16)| #[trigger]
                occurrences(index.postings(h), pair) == tally(raw, h, pair) by {
                lemma_tally_permutation(raw, sorted, h, pair);
                lemma_postings(index, sorted, h, pair);
            }
            lemma_filters_permutation(index.bloom, members(index.known_hashes), sorted, raw);
        }
        index
    }
}

/// Whether an index holds exactly the given rows: each hash has the memberships
/// of its rows, as often as they were added, and both filters hold the
/// identifiers of all rows and nothing else.
pub open spec fn built_from(index: InvertedIndex, rows: Seq<StagedRow>) -> bool {
    &&& forall|h: u64, pair: (u16, u16)| #[trigger]
        occurrences(index.postings(h), pair) == tally(rows, h, pair)
    &&& forall|b: int| #[trigger]
        index.filter().set_bits().contains(b) <==> exists|k: int|
            0 <= k < rows.len() && index.filter().positions(
                (#[trigger] rows[k]).bytes@,
            ).contains(b)
    &&& forall|s: u32| #[trigger]
        index.short_hashes().contains(s) <==> exists|k: int|
            0 <= k < rows.len() && (#[trigger] rows[k]).short == s
}

/// Whether a row was staged for an identifier and two positions.
pub open spec fn is_row_of(row: StagedRow, id: Seq<char>, event_id: u16, period_id: u16) -> bool {
    &&& row.hash == long_hash(id)
    &&& row.short == short_hash(id)
    &&& row.bytes@ == encode_utf8(id)
    &&& row.event_id == event_id
    &&& row.period_id == period_id
}

/// The hashes of rows.
pub open spec fn hash_set(rows: Seq<StagedRow>) -> Set<u64> {
    Set::new(|h: u64| exists|k: int| 0 <= k < rows.len() && (#[trigger] rows[k]).hash == h)
}

proof fn lemma_same_rows(a: Seq<StagedRow>, b: Seq<StagedRow>, row: StagedRow)
    requires
        a.to_multiset() == b.to_multiset(),
    ensures
        a.contains(row) <==> b.contains(row),
{
    a.to_multiset_ensures();
    b.to_multiset_ensures();
    assert(a.contains(row) <==> a.to_multiset().count(row) > 0);
    assert(b.contains(row) <==> b.to_multiset().count(row) > 0);
}

proof fn lemma_hash_set_permutation(a: Seq<StagedRow>, b: Seq<StagedRow>)
    requires
        a.to_multiset() == b.to_multiset(),
    ensures
        hash_set(a) == hash_set(b),
{
    assert forall|h: u64| hash_set(a).contains(h) <==> hash_set(b).contains(h) by {
        if hash_set(a).contains(h) {
            let k = choose|k: int| 0 <= k < a.len() && (#[trigger] a[k]).hash == h;
            lemma_same_rows(a, b, a[k]);
            assert(a.contains(a[k]));
            let m = choose|m: int| 0 <= m < b.len() && b[m] == a[k];
            assert(b[m].hash == h);
        }
        if hash_set(b).contains(h) {
            let k = choose|k: int| 0 <= k < b.len() && (#[trigger] b[k]).hash == h;
            lemma_same_rows(a, b, b[k]);
            assert(b.contains(b[k]));
            let m = choose|m: int| 0 <= m < a.len() && a[m] == b[k];
            assert(a[m].hash == h);
        }
    }
    assert(hash_set(a) =~= hash_set(b));
}

/// Whether entries name, one after the other, the blocks of rows with one hash
/// that make up the first `n` rows.
spec fn blocks_cover(entries: Seq<IndexEntry>, rows: Seq<StagedRow>, n: int) -> bool {
    &&& n == if entries.len() == 0 {
        0
    } else {
        entries.last().offset + entries.last().count
    }
    &&& entries.len() > 0 ==> entries[0].offset == 0
    &&& forall|i: int|
        0 <= i < entries.len() ==> (#[trigger] entries[i]).count > 0 && entries[i].offset
            + entries[i].count <= n
    &&& forall|i: int|
        0 <= i && i + 1 < entries.len() ==> (#[trigger] entries[i]).offset + entries[i].count
            == entries[i + 1].offset
    &&& forall|i: int, k: int|
        0 <= i < entries.len() && (#[trigger] entries[i]).offset <= k < entries[i].offset
            + entries[i].count ==> (#[trigger] rows[k]).hash == entries[i].id_hash
    &&& forall|i: int, j: int|
        0 <= i < j < entries.len() ==> (#[trigger] entries[i]).id_hash < (
        #[trigger] entries[j]).id_hash
    &&& (0 < n < rows.len()) ==> entries.last().id_hash < rows[n].hash
}

proof fn lemma_blocks_step(
    done: Seq<IndexEntry>,
    now: Seq<IndexEntry>,
    rows: Seq<StagedRow>,
    start: int,
    end: int,
)
    requires
        rows_ascend(rows),
        rows.len() <= u32::MAX,
        0 <= start < end <= rows.len(),
        blocks_cover(done, rows, start),
        forall|k: int| start <= k < end ==> (#[trigger] rows[k]).hash == rows[start].hash,
        end < rows.len() ==> rows[end].hash != rows[start].hash,
        now == done.push(
            IndexEntry {
                id_hash: rows[start].hash,
                offset: start as u32,
                count: (end - start) as u32,
            },
        ),
    ensures
        blocks_cover(now, rows, end),
{
    let last = now.last();
    assert(last.offset == start && last.count == end - start);
    if end < rows.len() {
        assert(rows[start].hash <= rows[end].hash);
    }
    assert forall|i: int| 0 <= i && i + 1 < now.len() implies (#[trigger] now[i]).offset
        + now[i].count == now[i + 1].offset by {
        assert(now[i] == done[i]);
        if i + 1 < done.len() {
            assert(now[i + 1] == done[i + 1]);
        }
    }
    assert forall|i: int, j: int| 0 <= i < j < now.len() implies (#[trigger] now[i]).id_hash < (
    #[trigger] now[j]).id_hash by {
        if j < done.len() {
            assert(done[i].id_hash < done[j].id_hash);
        } else {
            if i < done.len() - 1 {
                assert(done[i].id_hash < done[done.len() - 1].id_hash);
            }
            assert(done.last().id_hash < rows[start].hash);
        }
    }
    assert forall|i: int| 0 <= i < now.len() implies (#[trigger] now[i]).count > 0 && now[i].offset
        + now[i].count <= end by {
        if i < done.len() {
            assert(now[i] == done[i]);
        }
    }
    assert forall|i: int, k: int|
        0 <= i < now.len() && (#[trigger] now[i]).offset <= k < now[i].offset
            + now[i].count implies (#[trigger] rows[k]).hash == now[i].id_hash by {
        if i < done.len() {
            assert(now[i] == done[i]);
        }
    }
}

proof fn lemma_cover_sound(entries: Seq<IndexEntry>, rows: Seq<StagedRow>)
    requires
        blocks_cover(entries, rows, rows.len() as int),
    ensures
        forall|i: int|
            0 <= i < entries.len() ==> (#[trigger] entries[i]).offset + entries[i].count
                <= rows.len(),
{
}

/// Every row within the first blocks lies in one of them.
proof fn lemma_row_in_block(entries: Seq<IndexEntry>, rows: Seq<StagedRow>, k: int, upto: int) -> (i:
    int)
    requires
        blocks_cover(entries, rows, rows.len() as int),
        0 < upto <= entries.len(),
        0 <= k < entries[upto - 1].offset + entries[upto - 1].count,
    ensures
        0 <= i < upto,
        entries[i].offset <= k < entries[i].offset + entries[i].count,
    decreases upto,
{
    if k >= entries[upto - 1].offset {
        upto - 1
    } else {
        if upto == 1 {
            assert(entries[0].offset == 0);
            0
        } else {
            assert(entries[upto - 2].offset + entries[upto - 2].count == entries[upto - 2
                + 1].offset);
            lemma_row_in_block(entries, rows, k, upto - 1)
        }
    }
}

proof fn lemma_postings(index: InvertedIndex, rows: Seq<StagedRow>, hash: u64, pair: (u16, u16))
    requires
        index.wf(),
        index.memberships@.len() == rows.len(),
        forall|k: int|
            0 <= k < rows.len() ==> pair_of(#[trigger] index.memberships@[k]) == row_pair(rows[k]),
        blocks_cover(index.entries@, rows, rows.len() as int),
    ensures
        occurrences(index.postings(hash), pair) == tally(rows, hash, pair),
{
    let entries = index.entries@;
    if exists|i: int| 0 <= i < entries.len() && (#[trigger] entries[i]).id_hash == hash {
        let i = choose|i: int| 0 <= i < entries.len() && (#[trigger] entries[i]).id_hash == hash;
        let from = entries[i].offset as int;
        let to = from + entries[i].count;
        assert forall|k: int| from <= k < to implies (#[trigger] rows[k]).hash == hash by {
            assert(entries[i].offset <= k);
        }
        assert forall|k: int| 0 <= k < rows.len() && (k < from || k >= to) implies (
        #[trigger] rows[k]).hash != hash by {
            let j = lemma_row_in_block(entries, rows, k, entries.len() as int);
            assert(rows[k].hash == entries[j].id_hash);
            if j < i {
                assert(entries[j].id_hash < entries[i].id_hash);
            }
            if i < j {
                assert(entries[i].id_hash < entries[j].id_hash);
            }
        }
        lemma_tally_block(rows, from, to, hash, pair);
        assert(index.block(i) =~= Seq::new((to - from) as nat, |k: int| row_pair(rows[from + k])));
    } else {
        assert forall|k: int| 0 <= k < rows.len() implies (#[trigger] rows[k]).hash != hash by {
            let j = lemma_row_in_block(entries, rows, k, entries.len() as int);
            assert(rows[k].hash == entries[j].id_hash);
        }
        lemma_tally_block(rows, 0, 0, hash, pair);
        assert(Seq::new(0, |k: int| row_pair(rows[0 + k])) =~= Seq::<(u16, u16)>::empty());
    }
}

/// Whether the filters hold exactly the first `n` rows.
spec fn filters_cover(
    bloom: BloomFilter,
    known: Set<u32>,
    rows: Seq<StagedRow>,
    n: int,
) -> bool {
    &&& forall|b: int| #[trigger]
        bloom.set_bits().contains(b) <==> exists|k: int|
            0 <= k < n && bloom.positions((#[trigger] rows[k]).bytes@).contains(b)
    &&& forall|s: u32| #[trigger]
        known.contains(s) <==> exists|k: int| 0 <= k < n && (#[trigger] rows[k]).short == s
}

proof fn lemma_filters_step(
    bloom_before: BloomFilter,
    known_before: Set<u32>,
    bloom: BloomFilter,
    known: Set<u32>,
    rows: Seq<StagedRow>,
    n: int,
)
    requires
        0 <= n < rows.len(),
        filters_cover(bloom_before, known_before, rows, n),
        bloom.size() == bloom_before.size(),
        bloom.hashes() == bloom_before.hashes(),
        bloom.set_bits() == bloom_before.set_bits().union(
            bloom_before.positions(rows[n].bytes@),
        ),
        known == known_before.insert(rows[n].short),
    ensures
        filters_cover(bloom, known, rows, n + 1),
{
    assert forall|b: int| #[trigger]
        bloom.set_bits().contains(b) <==> exists|k: int|
            0 <= k < n + 1 && bloom.positions((#[trigger] rows[k]).bytes@).contains(b) by {
        assert(bloom_before.set_bits().contains(b) <==> exists|k: int|
            0 <= k < n && bloom_before.positions((#[trigger] rows[k]).bytes@).contains(b));
        if exists|k: int|
            0 <= k < n && bloom_before.positions((#[trigger] rows[k]).bytes@).contains(b) {
            let k = choose|k: int|
                0 <= k < n && bloom_before.positions((#[trigger] rows[k]).bytes@).contains(b);
            assert(bloom.positions(rows[k].bytes@).contains(b));
        }
        if bloom_before.positions(rows[n].bytes@).contains(b) {
            assert(bloom.positions(rows[n].bytes@).contains(b));
        }
        if exists|k: int|
            0 <= k < n + 1 && bloom.positions((#[trigger] rows[k]).bytes@).contains(b) {
            let k = choose|k: int|
                0 <= k < n + 1 && bloom.positions((#[trigger] rows[k]).bytes@).contains(b);
            assert(bloom_before.positions(rows[k].bytes@).contains(b));
        }
    }
    assert forall|s: u32| #[trigger] known.contains(s) <==> exists|k: int|
        0 <= k < n + 1 && (#[trigger] rows[k]).short == s by {
        assert(known_before.contains(s) <==> exists|k: int|
            0 <= k < n && (#[trigger] rows[k]).short == s);
        if s == rows[n].short {
            assert(rows[n].short == s);
        }
        if exists|k: int| 0 <= k < n + 1 && (#[trigger] rows[k]).short == s {
            let k = choose|k: int| 0 <= k < n + 1 && (#[trigger] rows[k]).short == s;
            if k < n {
                assert(rows[k].short == s);
            }
        }
    }
}

proof fn lemma_filters_permutation(
    bloom: BloomFilter,
    known: Set<u32>,
    a: Seq<StagedRow>,
    b: Seq<StagedRow>,
)
    requires
        filters_cover(bloom, known, a, a.len() as int),
        a.to_multiset() == b.to_multiset(),
    ensures
        filters_cover(bloom, known, b, b.len() as int),
{
    assert forall|x: int| #[trigger] bloom.set_bits().contains(x) <==> exists|k: int|
        0 <= k < b.len() && bloom.positions((#[trigger] b[k]).bytes@).contains(x) by {
        if exists|k: int| 0 <= k < a.len() && bloom.positions((#[trigger] a[k]).bytes@).contains(
            x,
        ) {
            let k = choose|k: int|
                0 <= k < a.len() && bloom.positions((#[trigger] a[k]).bytes@).contains(x);
            lemma_same_rows(a, b, a[k]);
            assert(a.contains(a[k]));
            let m = choose|m: int| 0 <= m < b.len() && b[m] == a[k];
            assert(bloom.positions(b[m].bytes@).contains(x));
        }
        if exists|k: int| 0 <= k < b.len() && bloom.positions((#[trigger] b[k]).bytes@).contains(
            x,
        ) {
            let k = choose|k: int|
                0 <= k < b.len() && bloom.positions((#[trigger] b[k]).bytes@).contains(x);
            lemma_same_rows(a, b, b[k]);
            assert(b.contains(b[k]));
            let m = choose|m: int| 0 <= m < a.len() && a[m] == b[k];
            assert(bloom.positions(a[m].bytes@).contains(x));
        }
    }
    assert forall|s: u32| #[trigger] known.contains(s) <==> exists|k: int|
        0 <= k < b.len() && (#[trigger] b[k]).short == s by {
        if exists|k: int| 0 <= k < a.len() && (#[trigger] a[k]).short == s {
            let k = choose|k: int| 0 <= k < a.len() && (#[trigger] a[k]).short == s;
            lemma_same_rows(a, b, a[k]);
            assert(a.contains(a[k]));
            let m = choose|m: int| 0 <= m < b.len() && b[m] == a[k];
            assert(b[m].short == s);
        }
        if exists|k: int| 0 <= k < b.len() && (#[trigger] b[k]).short == s {
            let k = choose|k: int| 0 <= k < b.len() && (#[trigger] b[k]).short == s;
            lemma_same_rows(a, b, b[k]);
            assert(b.contains(b[k]));
            let m = choose|m: int| 0 <= m < a.len() && a[m] == b[k];
            assert(a[m].short == s);
        }
    }
}

// ---------------------------------------------------------------------------
// Laws
// ---------------------------------------------------------------------------

proof fn lemma_tally_positive(rows: Seq<StagedRow>, k: int)
    requires
        0 <= k < rows.len(),
    ensures
        tally(rows, rows[k].hash, row_pair(rows[k])) > 0,
    decreases rows.len(),
{
    if k < rows.len() - 1 {
        lemma_tally_positive(rows.drop_last(), k);
    }
}

proof fn lemma_tally_witness(rows: Seq<StagedRow>, hash: u64, pair: (u16, u16)) -> (k: int)
    requires
        tally(rows, hash, pair) > 0,
    ensures
        0 <= k < rows.len(),
        row_is(rows[k], hash, pair),
    decreases rows.len(),
{
    if row_is(rows.last(), hash, pair) {
        rows.len() - 1
    } else {
        lemma_tally_witness(rows.drop_last(), hash, pair)
    }
}

proof fn lemma_occurrences(pairs: Seq<(u16, u16)>, pair: (u16, u16))
    ensures
        occurrences(pairs, pair) > 0 <==> pairs.contains(pair),
    decreases pairs.len(),
{
    if pairs.len() > 0 {
        let init = pairs.drop_last();
        lemma_occurrences(init, pair);
        if init.contains(pair) {
            let k = choose|k: int| 0 <= k < init.len() && init[k] == pair;
            assert(pairs[k] == pair);
        }
        if pairs.last() == pair {
            assert(pairs[pairs.len() - 1] == pair);
        }
        if pairs.contains(pair) && pairs.last() != pair {
            let k = choose|k: int| 0 <= k < pairs.len() && pairs[k] == pair;
            assert(init[k] == pair);
        }
    }
}

proof fn lemma_decoded_all(meta: InvertedMeta, pairs: Seq<(u16, u16)>, found: (Seq<char>, Period))
    ensures
        decoded_all(meta, pairs).contains(found) <==> exists|k: int|
            0 <= k < pairs.len() && decoded(meta, #[trigger] pairs[k]) == Some(found),
    decreases pairs.len(),
{
    if pairs.len() > 0 {
        let init = pairs.drop_last();
        lemma_decoded_all(meta, init, found);
        let front = decoded_all(meta, init);
        let whole = decoded_all(meta, pairs);
        if front.contains(found) {
            let m = choose|m: int| 0 <= m < front.len() && front[m] == found;
            assert(whole[m] == found);
            let k = choose|k: int|
                0 <= k < init.len() && decoded(meta, #[trigger] init[k]) == Some(found);
            assert(decoded(meta, pairs[k]) == Some(found));
        }
        if decoded(meta, pairs.last()) == Some(found) {
            assert(whole[whole.len() - 1] == found);
            assert(decoded(meta, pairs[pairs.len() - 1]) == Some(found));
        }
        if whole.contains(found) && !front.contains(found) {
            let m = choose|m: int| 0 <= m < whole.len() && whole[m] == found;
            if m < front.len() {
                assert(front[m] == found);
            }
        }
        if exists|k: int| 0 <= k < pairs.len() && decoded(meta, #[trigger] pairs[k]) == Some(found) {
            let k = choose|k: int|
                0 <= k < pairs.len() && decoded(meta, #[trigger] pairs[k]) == Some(found);
            if k < init.len() {
                assert(decoded(meta, init[k]) == Some(found));
            }
        }
    }
}

/// The order in which rows were added does not matter.
pub proof fn law_row_order_is_irrelevant(
    index: InvertedIndex,
    a: Seq<StagedRow>,
    b: Seq<StagedRow>,
)
    requires
        built_from(index, a),
        a.to_multiset() == b.to_multiset(),
    ensures
        built_from(index, b),
{
    assert forall|h: u64, pair: (u16, u16)| #[trigger]
        occurrences(index.postings(h), pair) == tally(b, h, pair) by {
        lemma_tally_permutation(a, b, h, pair);
    }
    assert forall|bit: int| #[trigger]
        index.filter().set_bits().contains(bit) <==> exists|k: int|
            0 <= k < b.len() && index.filter().positions((#[trigger] b[k]).bytes@).contains(
                bit,
            ) by {
        if index.filter().set_bits().contains(bit) {
            let k = choose|k: int|
                0 <= k < a.len() && index.filter().positions((#[trigger] a[k]).bytes@).contains(
                    bit,
                );
            assert(a.contains(a[k]));
            lemma_same_rows(a, b, a[k]);
            let m = choose|m: int| 0 <= m < b.len() && b[m] == a[k];
            assert(index.filter().positions(b[m].bytes@).contains(bit));
        }
        if exists|k: int|
            0 <= k < b.len() && index.filter().positions((#[trigger] b[k]).bytes@).contains(bit) {
            let k = choose|k: int|
                0 <= k < b.len() && index.filter().positions((#[trigger] b[k]).bytes@).contains(
                    bit,
                );
            assert(b.contains(b[k]));
            lemma_same_rows(a, b, b[k]);
            let m = choose|m: int| 0 <= m < a.len() && a[m] == b[k];
            assert(index.filter().positions(a[m].bytes@).contains(bit));
        }
    }
    assert forall|s: u32| #[trigger]
        index.short_hashes().contains(s) <==> exists|k: int|
            0 <= k < b.len() && (#[trigger] b[k]).short == s by {
        if index.short_hashes().contains(s) {
            let k = choose|k: int| 0 <= k < a.len() && (#[trigger] a[k]).short == s;
            assert(a.contains(a[k]));
            lemma_same_rows(a, b, a[k]);
            let m = choose|m: int| 0 <= m < b.len() && b[m] == a[k];
            assert(b[m].short == s);
        }
        if exists|k: int| 0 <= k < b.len() && (#[trigger] b[k]).short == s {
            let k = choose|k: int| 0 <= k < b.len() && (#[trigger] b[k]).short == s;
            assert(b.contains(b[k]));
            lemma_same_rows(a, b, b[k]);
            let m = choose|m: int| 0 <= m < a.len() && a[m] == b[k];
            assert(a[m].short == s);
        }
    }
}

/// Every added membership is found, also for identifiers that share a hash with
/// others.
pub proof fn law_added_is_found(
    index: InvertedIndex,
    rows: Seq<StagedRow>,
    k: int,
    id: Seq<char>,
    event_id: u16,
    period_id: u16,
)
    requires
        built_from(index, rows),
        0 <= k < rows.len(),
        is_row_of(rows[k], id, event_id, period_id),
        event_id < index.tables().event_names@.len(),
        period_id < index.tables().periods@.len(),
    ensures
        index.admits(id),
        index.found(id).contains(
            (
                index.tables().event_names@[event_id as int]@,
                index.tables().periods@[period_id as int],
            ),
        ),
{
    let pair = (event_id, period_id);
    let hash = long_hash(id);
    assert forall|b: int| index.filter().positions(
        encode_utf8(id),
    ).contains(b) implies index.filter().set_bits().contains(b) by {
        assert(index.filter().positions(rows[k].bytes@).contains(b));
    }
    assert(index.short_hashes().contains(rows[k].short));
    lemma_tally_positive(rows, k);
    assert(occurrences(index.postings(hash), pair) == tally(rows, hash, pair));
    lemma_occurrences(index.postings(hash), pair);
    let pairs = index.postings(hash);
    let at = choose|at: int| 0 <= at < pairs.len() && pairs[at] == pair;
    let found = (
        index.tables().event_names@[event_id as int]@,
        index.tables().periods@[period_id as int],
    );
    assert(decoded(index.tables(), pairs[at]) == Some(found));
    lemma_decoded_all(index.tables(), pairs, found);
}

/// The positions of the rows with a hash, in order.
pub open spec fn row_pairs(rows: Seq<StagedRow>, hash: u64) -> Seq<(u16, u16)>
    decreases rows.len(),
{
    if rows.len() == 0 {
        Seq::empty()
    } else if rows.last().hash == hash {
        row_pairs(rows.drop_last(), hash).push(row_pair(rows.last()))
    } else {
        row_pairs(rows.drop_last(), hash)
    }
}

proof fn lemma_row_pairs(rows: Seq<StagedRow>, hash: u64, pair: (u16, u16))
    ensures
        occurrences(row_pairs(rows, hash), pair) == tally(rows, hash, pair),
    decreases rows.len(),
{
    if rows.len() > 0 {
        let init = row_pairs(rows.drop_last(), hash);
        lemma_row_pairs(rows.drop_last(), hash, pair);
        if rows.last().hash == hash {
            assert(init.push(row_pair(rows.last())).drop_last() =~= init);
        }
    }
}

proof fn lemma_occurrences_count(pairs: Seq<(u16, u16)>, pair: (u16, u16))
    ensures
        occurrences(pairs, pair) == pairs.to_multiset().count(pair),
    decreases pairs.len(),
{
    pairs.to_multiset_ensures();
    if pairs.len() > 0 {
        let init = pairs.drop_last();
        lemma_occurrences_count(init, pair);
        vstd::seq_lib::to_multiset_build(init, pairs.last());
        assert(init.push(pairs.last()) =~= pairs);
    } else {
        assert(pairs =~= Seq::empty());
    }
}

proof fn lemma_decoded_count(
    meta: InvertedMeta,
    pairs: Seq<(u16, u16)>,
    found: (Seq<char>, Period),
)
    ensures
        decoded_all(meta, pairs).to_multiset().count(found) == pairs.to_multiset().filter(
            |pair: (u16, u16)| decoded(meta, pair) == Some(found),
        ).len(),
    decreases pairs.len(),
{
    let f = |pair: (u16, u16)| decoded(meta, pair) == Some(found);
    if pairs.len() == 0 {
        pairs.to_multiset_ensures();
        decoded_all(meta, pairs).to_multiset_ensures();
        assert(pairs.to_multiset() =~= vstd::multiset::Multiset::empty());
        assert(pairs.to_multiset().filter(f) =~= vstd::multiset::Multiset::empty());
    } else {
        let init = pairs.drop_last();
        let front = decoded_all(meta, init);
        lemma_decoded_count(meta, init, found);
        vstd::seq_lib::to_multiset_build(init, pairs.last());
        assert(init.push(pairs.last()) =~= pairs);
        let whole = pairs.to_multiset();
        let part = init.to_multiset();
        assert(whole =~= part.insert(pairs.last()));
        if let Some(x) = decoded(meta, pairs.last()) {
            vstd::seq_lib::to_multiset_build(front, x);
        }
        if f(pairs.last()) {
            assert(whole.filter(f) =~= part.filter(f).insert(pairs.last()));
        } else {
            assert(whole.filter(f) =~= part.filter(f));
        }
    }
}

/// A lookup of an identifier that passes the filters finds each event and period
/// exactly as often as it was added under its hash; others find nothing.
pub proof fn law_found_as_often_as_added(
    index: InvertedIndex,
    rows: Seq<StagedRow>,
    id: Seq<char>,
)
    requires
        built_from(index, rows),
    ensures
        index.admits(id) ==> index.found(id).to_multiset() == decoded_all(
            index.tables(),
            row_pairs(rows, long_hash(id)),
        ).to_multiset(),
        !index.admits(id) ==> index.found(id) == Seq::<(Seq<char>, Period)>::empty(),
{
    let hash = long_hash(id);
    let added = row_pairs(rows, hash);
    let held = index.postings(hash);
    assert forall|pair: (u16, u16)| held.to_multiset().count(pair) == added.to_multiset().count(
        pair,
    ) by {
        lemma_row_pairs(rows, hash, pair);
        lemma_occurrences_count(added, pair);
        lemma_occurrences_count(held, pair);
        assert(occurrences(index.postings(hash), pair) == tally(rows, hash, pair));
    }
    assert(held.to_multiset() =~= added.to_multiset());
    let a = decoded_all(index.tables(), held);
    let b = decoded_all(index.tables(), added);
    assert forall|found: (Seq<char>, Period)| a.to_multiset().count(found)
        == b.to_multiset().count(found) by {
        lemma_decoded_count(index.tables(), held, found);
        lemma_decoded_count(index.tables(), added, found);
    }
    assert(a.to_multiset() =~= b.to_multiset());
}

/// Whatever is found for an identifier was added for it or for an identifier
/// with the same hash.
pub proof fn law_found_was_added(
    index: InvertedIndex,
    rows: Seq<StagedRow>,
    id: Seq<char>,
    found: (Seq<char>, Period),
) -> (k: int)
    requires
        built_from(index, rows),
        index.found(id).contains(found),
    ensures
        0 <= k < rows.len(),
        rows[k].hash == long_hash(id),
        decoded(index.tables(), row_pair(rows[k])) == Some(found),
{
    let hash = long_hash(id);
    let pairs = index.postings(hash);
    lemma_decoded_all(index.tables(), pairs, found);
    let at = choose|at: int|
        0 <= at < pairs.len() && decoded(index.tables(), #[trigger] pairs[at]) == Some(found);
    let pair = pairs[at];
    lemma_occurrences(pairs, pair);
    assert(pairs.contains(pair));
    assert(occurrences(index.postings(hash), pair) == tally(rows, hash, pair));
    lemma_tally_witness(rows, hash, pair)
}

/// The short hash of an identifier is the lower half of its long hash, which is
/// taken over its bytes.
pub proof fn law_hashes(id: Seq<char>)
    ensures
        long_hash(id) == fx_hash(encode_utf8(id), usize::BITS as nat),
        short_hash(id) as u64 == long_hash(id) % 0x1_0000_0000u64,
{
    let h = long_hash(id);
    assert((h as u32) as u64 == h % 0x1_0000_0000u64) by (bit_vector);
}

/// A pair of positions stands for the event name and the period there, and for
/// nothing where one of them is out of its table.
pub proof fn law_decoded(meta: InvertedMeta, pair: (u16, u16), name: Seq<char>, period: Period)
    ensures
        decoded(meta, pair) == Some((name, period)) <==> pair.0 < meta.event_names@.len() && pair.1
            < meta.periods@.len() && meta.event_names@[pair.0 as int]@ == name && meta.periods@[
            pair.1 as int] == period,
        decoded(meta, pair) is None <==> pair.0 >= meta.event_names@.len() || pair.1
            >= meta.periods@.len(),
{
}

/// A row that is staged keeps the identifier, its hashes and both positions.
pub proof fn law_staged_row(row: StagedRow, id: Seq<char>, event_id: u16, period_id: u16)
    requires
        is_row_of(row, id, event_id, period_id),
    ensures
        row.bytes@ == encode_utf8(id),
        row.hash == fx_hash(encode_utf8(id), usize::BITS as nat),
        row.short as u64 == row.hash % 0x1_0000_0000u64,
        row_pair(row) == (event_id, period_id),
{
    law_hashes(id);
}

/// The hashes of rows are those that some row has.
pub proof fn law_hash_set(rows: Seq<StagedRow>, h: u64)
    ensures
        hash_set(rows).contains(h) <==> exists|k: int|
            0 <= k < rows.len() && (#[trigger] rows[k]).hash == h,
{
}

/// An index admits an identifier exactly if both of its filters do, and finds
/// nothing for one that it does not admit.
pub proof fn law_admitted(index: InvertedIndex, id: Seq<char>)
    ensures
        index.admits(id) <==> index.filter().answers(encode_utf8(id))
            && index.short_hashes().contains(short_hash(id)),
        !index.admits(id) ==> index.found(id).len() == 0,
{
}

/// What the filters of an index hold: a position is set, and a short hash known,
/// exactly if some row gives it.
pub proof fn law_filters_hold_the_rows(index: InvertedIndex, rows: Seq<StagedRow>, b: int, s: u32)
    requires
        built_from(index, rows),
    ensures
        index.filter().set_bits().contains(b) <==> exists|k: int|
            0 <= k < rows.len() && index.filter().positions(
                (#[trigger] rows[k]).bytes@,
            ).contains(b),
        index.short_hashes().contains(s) <==> exists|k: int|
            0 <= k < rows.len() && (#[trigger] rows[k]).short == s,
{
}

proof fn lemma_row_pairs_filter(rows: Seq<StagedRow>, hash: u64)
    ensures
        row_pairs(rows, hash) == rows.filter(|r: StagedRow| r.hash == hash).map_values(
            |r: StagedRow| (r.event_id, r.period_id),
        ),
    decreases rows.len(),
{
    reveal(Seq::filter);
    let pred = |r: StagedRow| r.hash == hash;
    let pair = |r: StagedRow| (r.event_id, r.period_id);
    if rows.len() == 0 {
        assert(row_pairs(rows, hash) =~= rows.filter(pred).map_values(pair));
    } else {
        let init = rows.drop_last();
        lemma_row_pairs_filter(init, hash);
        assert(init.filter(pred).push(rows.last()).map_values(pair) =~= init.filter(
            pred,
        ).map_values(pair).push(pair(rows.last())));
    }
}

/// The memberships added under a hash are the positions of the rows with it.
pub proof fn law_row_pairs(rows: Seq<StagedRow>, hash: u64)
    ensures
        row_pairs(rows, hash) == rows.filter(|r: StagedRow| r.hash == hash).map_values(
            |r: StagedRow| (r.event_id, r.period_id),
        ),
{
    lemma_row_pairs_filter(rows, hash);
}

/// Decoding pairs keeps their order: those of one list come before those of a list
/// behind it, and one pair gives one result or none.
pub proof fn law_decoded_all(meta: InvertedMeta, a: Seq<(u16, u16)>, b: Seq<(u16, u16)>)
    ensures
        decoded_all(meta, a + b) == decoded_all(meta, a) + decoded_all(meta, b),
        a.len() == 1 && decoded(meta, a[0]) is Some ==> decoded_all(meta, a) == seq![
            decoded(meta, a[0])->0,
        ],
        a.len() == 1 && decoded(meta, a[0]) is None ==> decoded_all(meta, a).len() == 0,
        a.len() == 0 ==> decoded_all(meta, a).len() == 0,
    decreases b.len(),
{
    if a.len() == 1 {
        assert(a.drop_last() =~= Seq::empty());
        assert(decoded_all(meta, a.drop_last()) =~= Seq::empty());
        if decoded(meta, a[0]) is Some {
            assert(decoded_all(meta, a) =~= seq![decoded(meta, a[0])->0]);
        }
    }
    if b.len() == 0 {
        assert(a + b =~= a);
        assert(decoded_all(meta, a) + decoded_all(meta, b) =~= decoded_all(meta, a));
    } else {
        law_decoded_all(meta, a, b.drop_last());
        assert((a + b).drop_last() =~= a + b.drop_last());
        assert((a + b).last() == b.last());
        assert(decoded_all(meta, a + b) =~= decoded_all(meta, a) + decoded_all(meta, b));
    }
}

/// What a lookup returns is seen place by place.
pub proof fn law_found_texts(v: Seq<(String, Period)>, i: int)
    ensures
        found_texts(v).len() == v.len(),
        0 <= i < v.len() ==> found_texts(v)[i] == (v[i].0@, v[i].1),
{
}

/// How often a pair occurs, in a list or among the rows with a hash.
pub proof fn law_counts(pairs: Seq<(u16, u16)>, rows: Seq<StagedRow>, hash: u64, pair: (u16, u16))
    ensures
        occurrences(pairs, pair) == pairs.to_multiset().count(pair),
        tally(rows, hash, pair) == row_pairs(rows, hash).to_multiset().count(pair),
{
    lemma_occurrences_count(pairs, pair);
    lemma_row_pairs(rows, hash, pair);
    lemma_occurrences_count(row_pairs(rows, hash), pair);
}

} // verus!
