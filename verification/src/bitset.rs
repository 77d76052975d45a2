use vstd::prelude::*;
use fastbit::BitVec;
#[allow(unused_imports)]
use fastbit::{BitRead, BitResize, BitWrite};

verus! {

/// A growable set of bits stored in a `fastbit::BitVec<u64>`.
///
/// The vector is held opaquely; what the library relies on is stated over
/// `bitset_bits` by the methods below, each a single call into `fastbit`.
#[verifier::external_body]
pub struct BitSet {
    bits: BitVec<u64>,
}

/// The bits of a `BitSet`, index 0 first; its length is the set's length.
pub uninterp spec fn bitset_bits(s: BitSet) -> Seq<bool>;

impl BitSet {
    /// `fastbit::BitVec::new`: allocates `len` zero-initialised bits.
    #[verifier::external_body]
    pub fn new(len: usize) -> (r: BitSet)
        ensures
            bitset_bits(r) == Seq::new(len as nat, |i: int| false),
    {
        BitSet { bits: BitVec::new(len) }
    }

    /// `BitRead::len` of `fastbit::BitVec`: the number of bits.
    #[verifier::external_body]
    pub fn len(&self) -> (r: usize)
        ensures
            r == bitset_bits(*self).len(),
    {
        self.bits.len()
    }

    /// `BitRead::test` of `fastbit::BitVec`: the bit at `idx`, or `false` past the end.
    #[verifier::external_body]
    pub fn test(&self, idx: usize) -> (r: bool)
        ensures
            r == (idx < bitset_bits(*self).len() && bitset_bits(*self)[idx as int]),
    {
        self.bits.test(idx)
    }

    /// `BitWrite::set` of `fastbit::BitVec`: sets the bit at `idx` (which must be in range).
    #[verifier::external_body]
    pub fn set(&mut self, idx: usize)
        requires
            idx < bitset_bits(*old(self)).len(),
        ensures
            bitset_bits(*final(self)) == bitset_bits(*old(self)).update(idx as int, true),
    {
        self.bits.set(idx)
    }

    /// `BitWrite::reset` of `fastbit::BitVec`: clears the bit at `idx` (which must be in range).
    #[verifier::external_body]
    pub fn reset(&mut self, idx: usize)
        requires
            idx < bitset_bits(*old(self)).len(),
        ensures
            bitset_bits(*final(self)) == bitset_bits(*old(self)).update(idx as int, false),
    {
        self.bits.reset(idx)
    }

    /// `fastbit::BitVec::resize` used to grow: the bits already there stay and the new
    /// ones read as cleared. `fastbit` zero-fills newly allocated words but keeps the
    /// tail of the last word as it was, so this holds because bits are only ever set
    /// below the current length and a `BitSet` is never shrunk; that is not stated here.
    #[verifier::external_body]
    pub fn grow(&mut self, new_len: usize)
        requires
            new_len >= bitset_bits(*old(self)).len(),
        ensures
            bitset_bits(*final(self)) == bitset_bits(*old(self)) + Seq::new(
                (new_len - bitset_bits(*old(self)).len()) as nat,
                |i: int| false,
            ),
    {
        self.bits.resize(new_len)
    }
}

} // verus!
