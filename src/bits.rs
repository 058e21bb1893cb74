//! Per-column bit masks, held in a `bitvec::BitVec` and seen by proofs as a `Seq<bool>`.
use vstd::prelude::*;

verus! {

/// A fixed-length sequence of bits, one per alignment column, held in a `bitvec::BitVec`
/// that proofs see only through `bits_of` and the methods below.
#[verifier::external_body]
pub struct ColumnBits {
    bits: bitvec::vec::BitVec,
}

/// The bits that a `ColumnBits` holds, in column order.
pub uninterp spec fn bits_of(b: ColumnBits) -> Seq<bool>;

/// Largest number of bits that a `BitVec<usize>` can hold (`BitSlice::MAX_BITS`).
pub const MAX_BITS: usize = usize::MAX >> 3;

impl ColumnBits {
    /// Relies on `BitVec::repeat`: `len` copies of `bit`; it panics above `MAX_BITS`.
    #[verifier::external_body]
    pub(crate) fn repeat(bit: bool, len: usize) -> (r: ColumnBits)
        requires
            len <= MAX_BITS,
        ensures
            bits_of(r) == Seq::new(len as nat, |_i: int| bit),
    {
        ColumnBits { bits: bitvec::vec::BitVec::repeat(bit, len) }
    }

    /// Relies on `BitSlice::len`: the number of bits held.
    #[verifier::external_body]
    pub(crate) fn len(&self) -> (r: usize)
        ensures
            r == bits_of(*self).len(),
    {
        self.bits.len()
    }

    /// Relies on indexing a `BitSlice` by `usize`: the bit at `i`; it panics out of bounds.
    #[verifier::external_body]
    pub(crate) fn get(&self, i: usize) -> (r: bool)
        requires
            i < bits_of(*self).len(),
        ensures
            r == bits_of(*self)[i as int],
    {
        self.bits[i]
    }

    /// Relies on `BitSlice::set`: writes one bit and leaves the others; it panics out of bounds.
    #[verifier::external_body]
    pub(crate) fn set(&mut self, i: usize, value: bool)
        requires
            i < bits_of(*old(self)).len(),
        ensures
            bits_of(*final(self)) == bits_of(*old(self)).update(i as int, value),
    {
        self.bits.set(i, value)
    }

    /// The bits as a vector of booleans, in column order.
    pub fn to_vec(&self) -> (r: Vec<bool>)
        ensures
            r@ == bits_of(*self),
    {
        let n = self.len();
        let mut out: Vec<bool> = Vec::new();
        for i in 0..n
            invariant
                n == bits_of(*self).len(),
                out@ == bits_of(*self).take(i as int),
        {
            out.push(self.get(i));
            assert(out@ =~= bits_of(*self).take(i + 1));
        }
        assert(out@ =~= bits_of(*self));
        out
    }
}

} // verus!
