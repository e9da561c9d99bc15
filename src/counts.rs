//! Bucket counts stored in a small inline vector.
use smallvec::SmallVec;
use vstd::prelude::*;

verus! {

/// Per-bucket counts, held inline for up to sixteen buckets.
#[verifier::external_body]
pub struct Counts {
    inner: SmallVec<[u32; 16]>,
}

/// The counts held, bucket by bucket.
pub uninterp spec fn counts_of(c: Counts) -> Seq<u32>;

impl View for Counts {
    type V = Seq<u32>;

    open spec fn view(&self) -> Seq<u32> {
        counts_of(*self)
    }
}

impl Counts {
    /// Relies on smallvec::SmallVec::from_elem: `n` copies of zero.
    #[verifier::external_body]
    pub(crate) fn zeroed(n: usize) -> (r: Counts)
        ensures
            counts_of(r) == Seq::new(n as nat, |i: int| 0u32),
    {
        Counts { inner: SmallVec::from_elem(0, n) }
    }

    /// Relies on smallvec::SmallVec::len: the number of held counts.
    #[verifier::external_body]
    pub(crate) fn len(&self) -> (r: usize)
        ensures
            r == counts_of(*self).len(),
    {
        self.inner.len()
    }

    /// Relies on indexing a smallvec::SmallVec: the count at `i`.
    #[verifier::external_body]
    pub(crate) fn get(&self, i: usize) -> (r: u32)
        requires
            i < counts_of(*self).len(),
        ensures
            r == counts_of(*self)[i as int],
    {
        self.inner[i]
    }

    /// Relies on indexing a smallvec::SmallVec mutably: replaces the count at `i`.
    #[verifier::external_body]
    pub(crate) fn set(&mut self, i: usize, v: u32)
        requires
            i < counts_of(*old(self)).len(),
        ensures
            counts_of(*final(self)) == counts_of(*old(self)).update(i as int, v),
    {
        self.inner[i] = v;
    }
}

} // verus!
