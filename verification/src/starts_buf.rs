//! Trusted interface to the small-vector buffer that stores a
//! decomposition's cycle start offsets.

use vstd::prelude::*;

verus! {

/// The buffer of cycle start offsets. It is backed by a small vector
/// that keeps up to five offsets inline before spilling to the heap,
/// matching the common case of permutations with few cycles.
#[verifier::external_body]
#[derive(Debug)]
pub struct StartsBuf {
    buf: smallvec::SmallVec<[usize; 5]>,
}

/// The sequence of offsets a start buffer holds, in storage order.
pub uninterp spec fn starts_seq(s: StartsBuf) -> Seq<usize>;

impl StartsBuf {
    /// Relies on smallvec::SmallVec::new: the constructed vector is empty.
    #[verifier::external_body]
    pub fn new() -> (r: StartsBuf)
        ensures
            starts_seq(r) == Seq::<usize>::empty(),
    {
        StartsBuf { buf: smallvec::SmallVec::new() }
    }

    /// Relies on smallvec::SmallVec::push: appends one element at the end.
    #[verifier::external_body]
    pub fn push(&mut self, v: usize)
        ensures
            starts_seq(*final(self)) == starts_seq(*old(self)).push(v),
    {
        self.buf.push(v)
    }

    /// Relies on smallvec::SmallVec::len: the number of elements held.
    #[verifier::external_body]
    pub fn len(&self) -> (r: usize)
        ensures
            r == starts_seq(*self).len(),
    {
        self.buf.len()
    }

    /// Relies on smallvec's Index impl, which indexes the elements in
    /// storage order (through its Deref to a slice).
    #[verifier::external_body]
    pub fn get(&self, i: usize) -> (r: usize)
        requires
            i < starts_seq(*self).len(),
        ensures
            r == starts_seq(*self)[i as int],
    {
        self.buf[i]
    }
}

} // verus!
