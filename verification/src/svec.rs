use vstd::prelude::*;

verus! {

/// A batch of fence confirmations, kept in smallvec's vector so that small
/// batches stay off the heap.  An item names a queue by family and index and
/// carries one confirmed epoch.  The collection's own generic bound cannot
/// be declared to the verifier, so it lives behind this opaque holder and is
/// reached only through the wrappers below.
#[verifier::external_body]
#[derive(Debug)]
pub struct ConfirmBatch {
    inner: smallvec::SmallVec<[(usize, usize, u64); 32]>,
}

/// The items a confirmation batch holds, in insertion order.
pub uninterp spec fn sv_items(v: ConfirmBatch) -> Seq<(usize, usize, u64)>;

/// Relies on smallvec::SmallVec::new: creates an empty vector.
#[verifier::external_body]
pub fn sv_new() -> (v: ConfirmBatch)
    ensures
        sv_items(v) == Seq::<(usize, usize, u64)>::empty(),
{
    ConfirmBatch { inner: smallvec::SmallVec::new() }
}

/// Relies on smallvec::SmallVec::push: appends one item at the end, growing
/// onto the heap past the inline capacity.
#[verifier::external_body]
pub fn sv_push(v: &mut ConfirmBatch, x: (usize, usize, u64))
    requires
        sv_items(*old(v)).len() < usize::MAX,
    ensures
        sv_items(*final(v)) == sv_items(*old(v)).push(x),
{
    v.inner.push(x)
}

/// Relies on smallvec::SmallVec::len: the number of items held.
#[verifier::external_body]
pub fn sv_len(v: &ConfirmBatch) -> (r: usize)
    ensures
        r == sv_items(*v).len(),
{
    v.inner.len()
}

/// Relies on smallvec::SmallVec's `Deref` to a slice: the item at `i`, in
/// insertion order.
#[verifier::external_body]
pub fn sv_get(v: &ConfirmBatch, i: usize) -> (r: (usize, usize, u64))
    requires
        i < sv_items(*v).len(),
    ensures
        r == sv_items(*v)[i as int],
{
    v.inner[i]
}

} // verus!
