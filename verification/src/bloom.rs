//! A Bloom filter: a set that may answer `true` for an absent item, but never
//! `false` for a present one.
//!
//! The positions of an item come from two base hashes: hash number `i` is the
//! first plus `i` times the second.

use vstd::prelude::*;
use vstd::std_specs::hash::*;
use std::collections::hash_map::DefaultHasher;
use std::hash::Hasher;

use crate::codec::{le_bytes, push_le};

verus! {

/// A Bloom filter over byte strings.
pub struct BloomFilter {
    bits: Vec<u64>,
    num_bits: usize,
    num_hashes: usize,
}

/// The first base hash of an item: of its length and its bytes.
pub open spec fn first_hash(item: Seq<u8>) -> u64 {
    DefaultHasher::spec_finish(seq![le_bytes(item.len(), 8), item])
}

/// The second base hash of an item: the same, with the first hash in front.
pub open spec fn second_hash(item: Seq<u8>) -> u64 {
    DefaultHasher::spec_finish(
        seq![le_bytes(first_hash(item) as nat, 8), le_bytes(item.len(), 8), item],
    )
}

/// The position that hash number `i` gives an item in a filter of `m` bits.
pub open spec fn probe(item: Seq<u8>, i: int, m: usize) -> int {
    (first_hash(item).wrapping_add(second_hash(item).wrapping_mul(i as u64)) as usize) as int
        % m as int
}

/// The positions of an item under the first `k` hashes.
pub open spec fn probes(item: Seq<u8>, k: int, m: usize) -> Set<int> {
    Set::new(|b: int| exists|i: int| 0 <= i < k && #[trigger] probe(item, i, m) == b)
}

/// Whether bit `j` of a word is set.
pub open spec fn word_bit(word: u64, j: u64) -> bool {
    word & (1u64 << j) != 0
}

fn base_hashes(data: &[u8]) -> (r: (u64, u64))
    ensures
        r.0 == first_hash(data@),
        r.1 == second_hash(data@),
{
    let mut length: Vec<u8> = Vec::new();
    push_le(&mut length, data.len() as u64, 8);
    assert(length@ =~= le_bytes(data@.len(), 8));
    let mut h = DefaultHasher::new();
    h.write(length.as_slice());
    h.write(data);
    assert(h@ =~= seq![le_bytes(data@.len(), 8), data@]);
    let h1: u64 = h.finish();
    let mut seed: Vec<u8> = Vec::new();
    push_le(&mut seed, h1, 8);
    assert(seed@ =~= le_bytes(h1 as nat, 8));
    let mut g = DefaultHasher::new();
    g.write(seed.as_slice());
    g.write(length.as_slice());
    g.write(data);
    assert(g@ =~= seq![le_bytes(h1 as nat, 8), le_bytes(data@.len(), 8), data@]);
    let h2: u64 = g.finish();
    (h1, h2)
}

#[verifier::truncate]
fn to_word(v: u64) -> (r: usize)
    ensures
        r == v as usize,
{
    v as usize
}

fn kirsch_mitzenmacher(h1: u64, h2: u64, i: usize, m: usize) -> (r: usize)
    requires
        m > 0,
    ensures
        r == (h1.wrapping_add(h2.wrapping_mul(i as u64)) as usize) as int % m as int,
        r < m,
{
    to_word(h1.wrapping_add(h2.wrapping_mul(i as u64))) % m
}

impl BloomFilter {
    /// The number of bits.
    pub closed spec fn size(self) -> usize {
        self.num_bits
    }

    /// The number of hash functions.
    pub closed spec fn hashes(self) -> usize {
        self.num_hashes
    }

    spec fn has(self, b: int) -> bool {
        word_bit(self.bits@[b / 64], (b % 64) as u64)
    }

    /// The positions that are set.
    pub closed spec fn set_bits(self) -> Set<int> {
        Set::new(|b: int| 0 <= b < self.num_bits && self.has(b))
    }

    /// There is at least one bit, and a word for every 64 of them.
    pub closed spec fn wf(self) -> bool {
        &&& self.num_bits > 0
        &&& self.bits@.len() == (self.num_bits + 63) / 64
    }

    /// The positions of an item.
    pub open spec fn positions(self, item: Seq<u8>) -> Set<int> {
        probes(item, self.hashes() as int, self.size())
    }

    /// Whether the filter answers `true` for an item: all its positions are
    /// set.
    pub open spec fn answers(self, item: Seq<u8>) -> bool {
        self.positions(item).subset_of(self.set_bits())
    }

    /// Creates an empty filter of `num_bits` bits with `num_hashes` hash
    /// functions.
    pub fn with_params(num_bits: usize, num_hashes: usize) -> (r: BloomFilter)
        requires
            num_bits > 0,
        ensures
            r.wf(),
            r.size() == num_bits,
            r.hashes() == num_hashes,
            r.set_bits() == Set::<int>::empty(),
    {
        let words: usize = num_bits / 64 + (if num_bits % 64 == 0 {
            0
        } else {
            1
        });
        let bits: Vec<u64> = vec![0u64; words];
        let r = BloomFilter { bits, num_bits, num_hashes };
        proof {
            assert forall|b: int| 0 <= b < num_bits implies !r.has(b) by {
                let j = (b % 64) as u64;
                assert(0u64 & (1u64 << j) == 0) by (bit_vector);
            }
            assert(r.set_bits() =~= Set::empty());
        }
        r
    }

    /// Creates a filter that holds the given items.
    pub fn from_iter(num_bits: usize, num_hashes: usize, items: &Vec<Vec<u8>>) -> (r: BloomFilter)
        requires
            num_bits > 0,
        ensures
            r.wf(),
            r.size() == num_bits,
            r.hashes() == num_hashes,
            forall|b: int| #[trigger]
                r.set_bits().contains(b) <==> exists|i: int|
                    0 <= i < items@.len() && r.positions(#[trigger] items@[i]@).contains(b),
    {
        let mut filter = BloomFilter::with_params(num_bits, num_hashes);
        let mut n: usize = 0;
        while n < items.len()
            invariant
                n <= items@.len(),
                filter.wf(),
                filter.size() == num_bits,
                filter.hashes() == num_hashes,
                forall|b: int| #[trigger]
                    filter.set_bits().contains(b) <==> exists|i: int|
                        0 <= i < n && filter.positions(#[trigger] items@[i]@).contains(b),
            decreases items@.len() - n,
        {
            let ghost before = filter.set_bits();
            filter.insert(items[n].as_slice());
            proof {
                assert forall|b: int| #[trigger]
                    filter.set_bits().contains(b) <==> exists|i: int|
                        0 <= i < n + 1 && filter.positions(#[trigger] items@[i]@).contains(b) by {
                    assert(before.contains(b) <==> exists|i: int|
                        0 <= i < n && filter.positions(#[trigger] items@[i]@).contains(b));
                    if filter.positions(items@[n as int]@).contains(b) {
                        assert(filter.positions(items@[n as int]@).contains(b));
                    }
                    if exists|i: int|
                        0 <= i < n + 1 && filter.positions(#[trigger] items@[i]@).contains(b) {
                        let i = choose|i: int|
                            0 <= i < n + 1 && filter.positions(#[trigger] items@[i]@).contains(b);
                        if i < n {
                            assert(filter.positions(items@[i]@).contains(b));
                        }
                    }
                }
            }
            n = n + 1;
        }
        filter
    }

    /// Adds an item: sets all its positions.
    pub fn insert(&mut self, item: &[u8])
        requires
            old(self).wf(),
        ensures
            final(self).wf(),
            final(self).size() == old(self).size(),
            final(self).hashes() == old(self).hashes(),
            final(self).set_bits() == old(self).set_bits().union(old(self).positions(item@)),
    {
        let (h1, h2) = base_hashes(item);
        let mut i: usize = 0;
        let ghost start = self.set_bits();
        assert(start.union(probes(item@, 0, self.num_bits)) =~= start);
        while i < self.num_hashes
            invariant
                self.wf(),
                self.num_bits == old(self).num_bits,
                self.num_hashes == old(self).num_hashes,
                i <= self.num_hashes,
                h1 == first_hash(item@),
                h2 == second_hash(item@),
                self.set_bits() == start.union(probes(item@, i as int, self.num_bits)),
            decreases self.num_hashes - i,
        {
            let bit: usize = kirsch_mitzenmacher(h1, h2, i, self.num_bits);
            let w: usize = bit / 64;
            let j: u64 = (bit % 64) as u64;
            let word: u64 = self.bits[w];
            let ghost before = *self;
            self.bits.set(w, word | (1u64 << j));
            proof {
                assert(bit == probe(item@, i as int, self.num_bits));
                assert forall|b: int| 0 <= b < self.num_bits implies #[trigger] self.has(b) == (before.has(b)
                    || b == bit) by {
                    let x = (b % 64) as u64;
                    if b / 64 == w {
                        assert((word | (1u64 << j)) & (1u64 << x) != 0 <==> (word & (1u64 << x) != 0
                            || x == j)) by (bit_vector)
                            requires
                                x < 64,
                                j < 64,
                        ;
                        assert(b == 64 * (b / 64) + b % 64);
                    }
                }
                assert(self.set_bits() =~= before.set_bits().insert(bit as int)) by {
                    assert forall|b: int|
                        self.set_bits().contains(b) <==> before.set_bits().insert(
                            bit as int,
                        ).contains(b) by {
                        if 0 <= b < self.num_bits {
                            assert(self.has(b) == (before.has(b) || b == bit));
                        }
                    }
                }
                let now = probes(item@, i + 1, self.num_bits);
                let prev = probes(item@, i as int, self.num_bits);
                assert(now =~= prev.insert(bit as int)) by {
                    assert forall|b: int| now.contains(b) <==> prev.contains(b) || b == bit by {
                        if now.contains(b) {
                            let k = choose|k: int|
                                0 <= k < i + 1 && #[trigger] probe(item@, k, self.num_bits) == b;
                            if k < i {
                                assert(probe(item@, k, self.num_bits) == b);
                            }
                        }
                        if prev.contains(b) {
                            let k = choose|k: int|
                                0 <= k < i && #[trigger] probe(item@, k, self.num_bits) == b;
                            assert(probe(item@, k, self.num_bits) == b);
                        }
                        if b == bit {
                            assert(probe(item@, i as int, self.num_bits) == b);
                        }
                    }
                }
                assert(self.set_bits() =~= start.union(now));
            }
            i = i + 1;
        }
    }

    /// Returns `false` if the item is definitely absent, and `true` if it is
    /// probably present.
    pub fn test(&self, item: &[u8]) -> (r: bool)
        requires
            self.wf(),
        ensures
            r == self.answers(item@),
    {
        let (h1, h2) = base_hashes(item);
        let mut i: usize = 0;
        while i < self.num_hashes
            invariant
                self.wf(),
                i <= self.num_hashes,
                h1 == first_hash(item@),
                h2 == second_hash(item@),
                forall|k: int|
                    0 <= k < i ==> self.set_bits().contains(
                        #[trigger] probe(item@, k, self.num_bits),
                    ),
            decreases self.num_hashes - i,
        {
            let bit: usize = kirsch_mitzenmacher(h1, h2, i, self.num_bits);
            assert(bit == probe(item@, i as int, self.num_bits));
            let j: u64 = (bit % 64) as u64;
            if self.bits[bit / 64] & (1u64 << j) == 0 {
                proof {
                    assert(!self.has(bit as int));
                    assert(self.positions(item@).contains(bit as int));
                }
                return false;
            }
            assert(self.has(bit as int));
            i = i + 1;
        }
        assert(self.answers(item@)) by {
            assert forall|b: int| self.positions(item@).contains(
                b,
            ) implies self.set_bits().contains(b) by {
                let k = choose|k: int|
                    0 <= k < self.num_hashes && #[trigger] probe(item@, k, self.num_bits) == b;
                assert(self.set_bits().contains(probe(item@, k, self.num_bits)));
            }
        }
        true
    }
}

/// Whatever was inserted is answered `true`, at once and after any further
/// insertion: there are no false negatives.
pub proof fn law_no_false_negatives(
    before: BloomFilter,
    after: BloomFilter,
    inserted: Seq<u8>,
    item: Seq<u8>,
)
    requires
        after.size() == before.size(),
        after.hashes() == before.hashes(),
        after.set_bits() == before.set_bits().union(before.positions(inserted)),
    ensures
        after.answers(inserted),
        before.answers(item) ==> after.answers(item),
{
}

/// A filter answers `true` exactly if all positions of the item are set, one for
/// each hash function: the first base hash plus a multiple of the second, modulo
/// the number of bits.
pub proof fn law_answers(f: BloomFilter, item: Seq<u8>)
    ensures
        f.answers(item) <==> forall|i: int|
            0 <= i < f.hashes() ==> f.set_bits().contains(
                ((#[trigger] first_hash(item).wrapping_add(
                    second_hash(item).wrapping_mul(i as u64),
                )) as usize) as int % f.size() as int,
            ),
{
    let word = |i: int| first_hash(item).wrapping_add(second_hash(item).wrapping_mul(i as u64));
    if f.answers(item) {
        assert forall|i: int| 0 <= i < f.hashes() implies f.set_bits().contains(
            ((#[trigger] first_hash(item).wrapping_add(
                second_hash(item).wrapping_mul(i as u64),
            )) as usize) as int % f.size() as int,
        ) by {
            assert(probe(item, i, f.size()) == (word(i) as usize) as int % f.size() as int);
            assert(f.positions(item).contains(probe(item, i, f.size())));
        }
    }
    if forall|i: int|
        0 <= i < f.hashes() ==> f.set_bits().contains(
            ((#[trigger] first_hash(item).wrapping_add(
                second_hash(item).wrapping_mul(i as u64),
            )) as usize) as int % f.size() as int,
        ) {
        assert forall|b: int| f.positions(item).contains(b) implies f.set_bits().contains(b) by {
            let i = choose|i: int| 0 <= i < f.hashes() && #[trigger] probe(item, i, f.size()) == b;
            assert(f.set_bits().contains((word(i) as usize) as int % f.size() as int));
        }
    }
}

/// A filter with no bit set answers `false` for everything, unless it has no hash
/// function; one with all bits set answers `true` for everything.
pub proof fn law_empty_and_full(f: BloomFilter, item: Seq<u8>)
    requires
        f.size() > 0,
    ensures
        f.set_bits() == Set::<int>::empty() && f.hashes() > 0 ==> !f.answers(item),
        f.hashes() == 0 ==> f.answers(item),
        (forall|b: int| 0 <= b < f.size() ==> f.set_bits().contains(b)) ==> f.answers(item),
{
    if f.hashes() > 0 {
        assert(f.positions(item).contains(probe(item, 0, f.size())));
    }
    assert forall|b: int| f.positions(item).contains(b) implies 0 <= b < f.size() by {
        let i = choose|i: int| 0 <= i < f.hashes() && #[trigger] probe(item, i, f.size()) == b;
    }
}

/// Whether an item is answered depends on its own positions alone: an insertion
/// makes no difference to items none of whose missing positions it sets.
pub proof fn law_insertion_sets_its_positions_only(
    before: BloomFilter,
    after: BloomFilter,
    inserted: Seq<u8>,
    item: Seq<u8>,
    b: int,
)
    requires
        after.size() == before.size(),
        after.hashes() == before.hashes(),
        after.set_bits() == before.set_bits().union(before.positions(inserted)),
        before.positions(item).contains(b),
        !before.set_bits().contains(b),
        !before.positions(inserted).contains(b),
    ensures
        !after.answers(item),
{
    assert(after.positions(item) == before.positions(item));
    assert(!after.set_bits().contains(b));
}

} // verus!
