//! Dense-index membership sets, the working state of both ordering
//! algorithms, kept in a `bit_set::BitSet`: a bitmap indexed by node id,
//! so membership is O(1) and storage is proportional to the largest
//! index held. Verus sees the bitmap only through `elems`, the set of
//! integers whose bit is set, and through the contracts below.

use vstd::prelude::*;

verus! {

/// A set of node indices backed by `bit_set::BitSet`.
#[verifier::external_body]
pub struct IndexSet {
    inner: bit_set::BitSet,
}

/// The set of integers whose bit is set in the bitmap.
pub uninterp spec fn elems(s: IndexSet) -> Set<usize>;

impl IndexSet {
    /// Relies on bit_set::BitSet::with_capacity: a set with no
    /// contents, sized to hold `nbits` elements without resizing.
    #[verifier::external_body]
    pub fn with_capacity(nbits: usize) -> (r: IndexSet)
        ensures
            elems(r) == Set::<usize>::empty(),
    {
        IndexSet { inner: bit_set::BitSet::with_capacity(nbits) }
    }

    /// Relies on bit_set::BitSet::contains: whether the value's bit is
    /// set.
    #[verifier::external_body]
    pub fn contains(&self, value: usize) -> (r: bool)
        ensures
            r == elems(*self).contains(value),
    {
        self.inner.contains(value)
    }

    /// Relies on bit_set::BitSet::insert: sets the value's bit, growing
    /// the bitmap as needed.
    #[verifier::external_body]
    pub fn insert(&mut self, value: usize)
        ensures
            elems(*final(self)) == elems(*old(self)).insert(value),
    {
        self.inner.insert(value);
    }

    /// Relies on bit_set::BitSet::remove: clears the value's bit.
    #[verifier::external_body]
    pub fn remove(&mut self, value: usize)
        ensures
            elems(*final(self)) == elems(*old(self)).remove(value),
    {
        self.inner.remove(value);
    }

    /// Relies on bit_set::BitSet::count: the number of set bits.
    #[verifier::external_body]
    pub fn count(&self) -> (r: usize)
        requires
            elems(*self).finite(),
        ensures
            r == elems(*self).len(),
    {
        self.inner.count()
    }
}

} // verus!
