//! The set of visited vertices of one traversal, kept in a `bitvec` bit vector
//! with one bit per vertex.
//!
//! The bit vector is `bitvec`'s own. What this library relies on of it is
//! written on the three functions below and is taken on trust, not proved.

use bitvec::order::Lsb0;
use bitvec::vec::BitVec;
use vstd::prelude::*;

verus! {

/// One bit per vertex, held in a `BitVec` that Verus does not look into.
#[verifier::external_body]
pub struct VisitedSet {
    bits: BitVec<Lsb0, u64>,
}

/// The most bits a bit vector can hold: `bitvec` keeps the length of a vector
/// in a machine word of which it uses three bits for other purposes.
pub const MAX_BITS: usize = usize::MAX / 8;

/// The bits that the set holds, first to last: bit `v` says whether vertex `v`
/// was visited.
pub uninterp spec fn bits(s: VisitedSet) -> Seq<bool>;

/// `BitVec::repeat`: a vector of `len` bits, each of them `bit`. It panics on
/// a length above `MAX_BITS`, which `requires` leaves out.
#[verifier::external_body]
pub(crate) fn repeat(bit: bool, len: usize) -> (s: VisitedSet)
    requires
        len <= MAX_BITS,
    ensures
        bits(s) == Seq::new(len as nat, |i: int| bit),
{
    VisitedSet { bits: BitVec::repeat(bit, len) }
}

/// Indexing a `BitVec` by position: the bit at `index`. It panics on an
/// index at or past the length, which `requires` leaves out.
#[verifier::external_body]
pub(crate) fn bit_at(s: &VisitedSet, index: usize) -> (bit: bool)
    requires
        index < bits(*s).len(),
    ensures
        bit == bits(*s)[index as int],
{
    s.bits[index]
}

/// `BitSlice::set`: the bit at `index` becomes `value` and every other bit
/// stays. It panics on an index at or past the length, which `requires`
/// leaves out.
#[verifier::external_body]
pub(crate) fn put_bit(s: &mut VisitedSet, index: usize, value: bool)
    requires
        index < bits(*old(s)).len(),
    ensures
        bits(*final(s)) == bits(*old(s)).update(index as int, value),
{
    s.bits.set(index, value)
}

} // verus!
