//! What the engine takes from the `roaring` crate.
//!
//! A bitmap is a set of `u32`. Four names describe a value of the opaque type
//! [`RoaringBitmap`]: the values that it answers for, whether its inner
//! containers are in order, whether each is in its compact form, and how many
//! bytes it serializes to. Every operation of the crate keeps order and form.
//! Only decoding bytes that the crate did not write can give a bitmap without
//! them; what rests on them is stated under them.

use vstd::prelude::*;

use roaring::RoaringBitmap;

use crate::portable::{layout, stored, well_laid_out};

verus! {

/// A set of 32-bit integers, kept by the `roaring` crate.
#[verifier::external_type_specification]
#[verifier::external_body]
pub struct ExRoaringBitmap(roaring::RoaringBitmap);

/// The values for which `RoaringBitmap::contains` answers `true`.
pub uninterp spec fn members(b: RoaringBitmap) -> Set<u32>;

/// Whether the containers of a bitmap ascend strictly by key.
pub uninterp spec fn ordered(b: RoaringBitmap) -> bool;

/// Whether no container of a bitmap is empty, and each is an array exactly when
/// it holds at most 4096 values.
pub uninterp spec fn compact(b: RoaringBitmap) -> bool;

/// Whether a bitmap is in the shape that all operations keep.
pub open spec fn canonical(b: RoaringBitmap) -> bool {
    ordered(b) && compact(b)
}

/// The number of bytes that `RoaringBitmap::serialized_size` counts, by the
/// containers that a bitmap has.
pub uninterp spec fn serialized_len(b: RoaringBitmap) -> usize;

/// The bytes to which `RoaringBitmap::serialize_into` writes a canonical bitmap
/// with these members.
pub uninterp spec fn portable_bytes(set: Set<u32>) -> Seq<u8>;

/// The members of the bitmap that `RoaringBitmap::deserialize_from` reads from
/// these bytes; `None` where it fails.
pub uninterp spec fn deserialized(bytes: Seq<u8>) -> Option<Set<u32>>;

/// Whether serialized data has no run containers.
pub open spec fn without_runs(data: Seq<u8>) -> bool {
    layout(data) matches Some(l) && !l.runs
}

/// Whether the container keys of serialized data ascend.
pub open spec fn keys_ascend(data: Seq<u8>) -> bool {
    match layout(data) {
        None => false,
        Some(l) => {
            &&& l.fits(data)
            &&& forall|i: int|
                0 <= i && i + 1 < l.count ==> #[trigger] l.key(data, i) < l.key(data, i + 1)
        },
    }
}

/// `RoaringBitmap::new`: the empty set.
pub assume_specification[ RoaringBitmap::new ]() -> (r: RoaringBitmap)
    ensures
        ordered(r),
        compact(r),
        members(r) == Set::<u32>::empty(),
;

/// `RoaringBitmap::insert`: adds a value and returns whether it was absent.
/// Containers are found by binary search, so nothing is said where they are out
/// of order.
pub assume_specification[ RoaringBitmap::insert ](b: &mut RoaringBitmap, value: u32) -> (r: bool)
    ensures
        ordered(*old(b)) ==> ordered(*final(b)) && members(*final(b)) == members(*old(b)).insert(
            value,
        ) && r == !members(*old(b)).contains(value),
        canonical(*old(b)) ==> compact(*final(b)),
;

/// `RoaringBitmap::contains`: whether a value is a member.
pub assume_specification[ RoaringBitmap::contains ](b: &RoaringBitmap, value: u32) -> (r: bool)
    ensures
        r == members(*b).contains(value),
;

/// `RoaringBitmap::serialized_size`: the number of bytes that serializing
/// writes; of a canonical bitmap, that of the bytes of its members.
pub assume_specification[ RoaringBitmap::serialized_size ](b: &RoaringBitmap) -> (r: usize)
    ensures
        r == serialized_len(*b),
        canonical(*b) ==> r == portable_bytes(members(*b)).len(),
;

/// `BitOrAssign<&RoaringBitmap> for RoaringBitmap`: the union of two sets.
/// Containers are found by binary search, so nothing is said where they are out
/// of order.
#[verifier::external_body]
pub(crate) fn union_with(b: &mut RoaringBitmap, other: &RoaringBitmap)
    ensures
        ordered(*old(b)) && ordered(*other) ==> ordered(*final(b)) && members(*final(b))
            == members(*old(b)).union(members(*other)),
        canonical(*old(b)) && canonical(*other) ==> compact(*final(b)),
{
    *b |= other;
}

/// `SubAssign<&RoaringBitmap> for RoaringBitmap`: the difference of two sets.
/// Containers are found by binary search, so nothing is said where they are out
/// of order.
#[verifier::external_body]
pub(crate) fn subtract(b: &mut RoaringBitmap, other: &RoaringBitmap)
    ensures
        ordered(*old(b)) && ordered(*other) ==> ordered(*final(b)) && members(*final(b))
            == members(*old(b)).difference(members(*other)),
        canonical(*old(b)) && ordered(*other) ==> compact(*final(b)),
{
    *b -= other;
}

/// `RoaringBitmap::from_iter` over `RoaringBitmap::iter`: the values of a bitmap,
/// inserted one after the other into a new one. Inserting gives the canonical
/// shape, whatever the shape of `b`. Where the containers of `b` are out of
/// order, nothing is said of the members.
#[verifier::external_body]
pub(crate) fn rebuild(b: &RoaringBitmap) -> (r: RoaringBitmap)
    ensures
        canonical(r),
        ordered(*b) ==> members(r) == members(*b),
{
    RoaringBitmap::from_iter(b.iter())
}

/// `RoaringBitmap::serialize_into`, writing to a vector, which cannot fail. The
/// bytes depend on the members alone; they are laid out without run containers,
/// store exactly the members, and are read back as these.
#[verifier::external_body]
pub(crate) fn serialize(b: &RoaringBitmap) -> (r: Vec<u8>)
    requires
        canonical(*b),
    ensures
        r@ == portable_bytes(members(*b)),
        well_laid_out(r@),
        forall|v: u32| #[trigger] stored(r@, v) == members(*b).contains(v),
        deserialized(r@) == Some(members(*b)),
{
    let mut bytes = Vec::new();
    let _ = b.serialize_into(&mut bytes);
    bytes
}

/// `RoaringBitmap::deserialize_from`, reading a slice; `None` stands for its
/// error. A bitmap that is read has its containers in the order of the bytes,
/// and in compact form where none of them holds runs.
#[verifier::external_body]
pub(crate) fn deserialize(bytes: &[u8]) -> (r: Option<RoaringBitmap>)
    ensures
        match r {
            Some(b) => {
                &&& deserialized(bytes@) == Some(members(b))
                &&& keys_ascend(bytes@) ==> ordered(b)
                &&& without_runs(bytes@) ==> compact(b)
            },
            None => deserialized(bytes@) is None,
        },
{
    RoaringBitmap::deserialize_from(bytes).ok()
}

/// Keys ascend exactly if the headers are complete and each container has a larger
/// key than every one before it; data is without runs exactly if its cookie says
/// so.
pub proof fn law_shapes_of_data(data: Seq<u8>)
    ensures
        keys_ascend(data) <==> (layout(data) matches Some(l) && l.desc + 4 * l.count <= data.len()
            && forall|i: int, j: int|
            0 <= i < j < l.count ==> #[trigger] l.key(data, i) < #[trigger] l.key(data, j)),
        without_runs(data) <==> (layout(data) matches Some(l) && !l.runs),
{
    if keys_ascend(data) {
        let l = layout(data)->0;
        assert forall|i: int, j: int| 0 <= i < j < l.count implies #[trigger] l.key(data, i)
            < #[trigger] l.key(data, j) by {
            lemma_keys_chain(data, l, i, j);
        }
    }
}

proof fn lemma_keys_chain(data: Seq<u8>, l: crate::portable::Layout, i: int, j: int)
    requires
        0 <= i < j < l.count,
        forall|k: int| 0 <= k && k + 1 < l.count ==> #[trigger] l.key(data, k) < l.key(data, k + 1),
    ensures
        l.key(data, i) < l.key(data, j),
    decreases j - i,
{
    assert(l.key(data, i) < l.key(data, i + 1));
    if i + 1 < j {
        lemma_keys_chain(data, l, i + 1, j);
    }
}

/// A bitmap is canonical exactly if its containers are in order and compact.
pub proof fn law_canonical(b: RoaringBitmap)
    ensures
        canonical(b) <==> ordered(b) && compact(b),
{
}

} // verus!
