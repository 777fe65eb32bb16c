//! Document id sets, held in roaring bitmaps.

use roaring::RoaringBitmap;
use vstd::prelude::*;

verus! {

#[verifier::external_type_specification]
#[verifier::external_body]
pub struct ExRoaringBitmap(RoaringBitmap);

/// The document ids that a bitmap holds.
pub uninterp spec fn docid_set(b: RoaringBitmap) -> Set<u32>;

/// Relies on `RoaringBitmap::new`: a bitmap that holds no id.
#[verifier::external_body]
pub(crate) fn empty_docids() -> (r: RoaringBitmap)
    ensures
        docid_set(r) == Set::<u32>::empty(),
{
    RoaringBitmap::new()
}

/// Relies on `Clone for RoaringBitmap`: the copy holds the same ids.
#[verifier::external_body]
pub(crate) fn copy_docids(b: &RoaringBitmap) -> (r: RoaringBitmap)
    ensures
        docid_set(r) == docid_set(*b),
{
    b.clone()
}

/// Relies on `BitOrAssign<&RoaringBitmap> for RoaringBitmap`: union in place.
#[verifier::external_body]
pub(crate) fn union_with(a: &mut RoaringBitmap, b: &RoaringBitmap)
    ensures
        docid_set(*final(a)) == docid_set(*old(a)).union(docid_set(*b)),
{
    *a |= b;
}

/// Relies on `BitAndAssign<&RoaringBitmap> for RoaringBitmap`: intersection in place.
#[verifier::external_body]
pub(crate) fn intersect_with(a: &mut RoaringBitmap, b: &RoaringBitmap)
    ensures
        docid_set(*final(a)) == docid_set(*old(a)).intersect(docid_set(*b)),
{
    *a &= b;
}

/// Relies on `SubAssign<&RoaringBitmap> for RoaringBitmap`: difference in place.
#[verifier::external_body]
pub(crate) fn difference_with(a: &mut RoaringBitmap, b: &RoaringBitmap)
    ensures
        docid_set(*final(a)) == docid_set(*old(a)).difference(docid_set(*b)),
{
    *a -= b;
}

/// Relies on `RoaringBitmap::is_empty`: true exactly when no id is held.
#[verifier::external_body]
pub(crate) fn docids_empty(b: &RoaringBitmap) -> (r: bool)
    ensures
        r == (docid_set(*b) == Set::<u32>::empty()),
{
    b.is_empty()
}

/// Relies on `RoaringBitmap::is_disjoint`: true exactly when no id is in both.
#[verifier::external_body]
pub(crate) fn docids_disjoint(a: &RoaringBitmap, b: &RoaringBitmap) -> (r: bool)
    ensures
        r == docid_set(*a).disjoint(docid_set(*b)),
{
    a.is_disjoint(b)
}

/// Every set of `u32` is finite.
pub proof fn lemma_docids_finite(s: Set<u32>)
    ensures
        s.finite(),
{
    <u32 as vstd::set_lib::FiniteFull>::full_properties();
    assert(s.subset_of(Set::<u32>::full()));
    vstd::set_lib::lemma_set_subset_finite(Set::<u32>::full(), s);
}

} // verus!
