//! [BooleanVector] for the SIMD bit-vector of the crate `bitvec_simd`, in a newtype.
use vstd::prelude::*;

use super::{or_seq, resized, xor_seq, BooleanVector};

verus! {

/// A newtype around the bit-vector `BitVec` of `bitvec_simd`. Its bits are
/// [simd_bits]; the vector itself is opaque to the proofs (the crate's type
/// cannot be declared here, since its bounds name traits of a crate that this
/// one does not depend on).
#[verifier::external_body]
#[derive(PartialEq, Debug)]
pub struct SimdBitVec(bitvec_simd::BitVec);

impl Clone for SimdBitVec {
    /// The derived `Clone` of `bitvec_simd::BitVec`, which copies its storage and
    /// length: the clone holds the same bits.
    #[verifier::external_body]
    fn clone(&self) -> (r: Self)
        ensures
            simd_bits(r) == simd_bits(*self),
    {
        SimdBitVec(self.0.clone())
    }
}

/// The bits that the vector holds, in order.
pub uninterp spec fn simd_bits(v: SimdBitVec) -> Seq<bool>;

/// `bitvec_simd::BitVec::zeros(0)`: an empty vector.
#[verifier::external_body]
fn simd_empty() -> (r: SimdBitVec)
    ensures
        simd_bits(r) == Seq::<bool>::empty(),
{
    SimdBitVec(bitvec_simd::BitVec::zeros(0))
}

/// `BitVec::resize`: cut the vector to `len` bits, or extend it with `flag`s.
#[verifier::external_body]
fn simd_resize(v: &mut SimdBitVec, len: usize, flag: bool)
    ensures
        simd_bits(*final(v)) == resized(simd_bits(*old(v)), len as nat, flag),
{
    v.0.resize(len, flag)
}

/// `BitVec::set`: set the bit at `i`, which is in bounds.
#[verifier::external_body]
fn simd_set(v: &mut SimdBitVec, i: usize, flag: bool)
    requires
        i < simd_bits(*old(v)).len(),
    ensures
        simd_bits(*final(v)) == simd_bits(*old(v)).update(i as int, flag),
{
    v.0.set(i, flag)
}

/// `BitVec::get`: the bit at `i`, [None] if out of bounds.
#[verifier::external_body]
fn simd_get(v: &SimdBitVec, i: usize) -> (r: Option<bool>)
    ensures
        i < simd_bits(*v).len() ==> r == Some(simd_bits(*v)[i as int]),
        i >= simd_bits(*v).len() ==> r is None,
{
    v.0.get(i)
}

/// `BitVec::get_unchecked`: the bit at `i`, which is in bounds.
#[verifier::external_body]
fn simd_get_unchecked(v: &SimdBitVec, i: usize) -> (r: bool)
    requires
        i < simd_bits(*v).len(),
    ensures
        r == simd_bits(*v)[i as int],
{
    v.0.get_unchecked(i)
}

/// `BitVec::shrink_to`: keep the first `len` bits, fewer than there are.
#[verifier::external_body]
fn simd_shrink_to(v: &mut SimdBitVec, len: usize)
    requires
        len < simd_bits(*old(v)).len(),
    ensures
        simd_bits(*final(v)) == simd_bits(*old(v)).take(len as int),
{
    v.0.shrink_to(len)
}

/// `BitVec::len`: the number of bits.
#[verifier::external_body]
fn simd_len(v: &SimdBitVec) -> (r: usize)
    ensures
        r == simd_bits(*v).len(),
{
    v.0.len()
}

/// `BitVec::xor_inplace`: XOR `other` onto `v` bitwise; both have the same length.
#[verifier::external_body]
fn simd_xor_inplace(v: &mut SimdBitVec, other: &SimdBitVec)
    requires
        simd_bits(*old(v)).len() == simd_bits(*other).len(),
    ensures
        simd_bits(*final(v)) == xor_seq(simd_bits(*old(v)), simd_bits(*other)),
{
    v.0.xor_inplace(&other.0)
}

/// `BitVec::or_inplace`: OR `other` onto `v` bitwise; both have the same length.
#[verifier::external_body]
fn simd_or_inplace(v: &mut SimdBitVec, other: &SimdBitVec)
    requires
        simd_bits(*old(v)).len() == simd_bits(*other).len(),
    ensures
        simd_bits(*final(v)) == or_seq(simd_bits(*old(v)), simd_bits(*other)),
{
    v.0.or_inplace(&other.0)
}

/// An iterator over the bits of an owned [SimdBitVec].
pub struct Iter {
    vec: SimdBitVec,
    current: usize,
}

impl Iter {
    /// The bits and the index of the next one.
    pub closed spec fn state(&self) -> (Seq<bool>, nat) {
        (simd_bits(self.vec), self.current as nat)
    }

    /// The next bit, [None] past the end; the index advances either way.
    pub fn next(&mut self) -> (r: Option<bool>)
        requires
            old(self).state().1 < usize::MAX,
        ensures
            final(self).state() == (old(self).state().0, old(self).state().1 + 1),
            old(self).state().1 < old(self).state().0.len() ==> r == Some(
                old(self).state().0[old(self).state().1 as int],
            ),
            old(self).state().1 >= old(self).state().0.len() ==> r is None,
    {
        self.current += 1;
        simd_get(&self.vec, self.current - 1)
    }
}

/// An iterator over the bits of a borrowed [SimdBitVec].
pub struct IterFromRef<'l> {
    vec: &'l SimdBitVec,
    current: usize,
}

impl<'l> IterFromRef<'l> {
    /// The bits and the index of the next one.
    pub closed spec fn state(&self) -> (Seq<bool>, nat) {
        (simd_bits(*self.vec), self.current as nat)
    }

    /// The next bit, [None] past the end; the index advances either way.
    pub fn next(&mut self) -> (r: Option<bool>)
        requires
            old(self).state().1 < usize::MAX,
        ensures
            final(self).state() == (old(self).state().0, old(self).state().1 + 1),
            old(self).state().1 < old(self).state().0.len() ==> r == Some(
                old(self).state().0[old(self).state().1 as int],
            ),
            old(self).state().1 >= old(self).state().0.len() ==> r is None,
    {
        self.current += 1;
        simd_get(self.vec, self.current - 1)
    }
}

impl SimdBitVec {
    /// An iterator over the bits, from the first.
    pub fn into_iter(self) -> (r: Iter)
        ensures
            r.state() == (simd_bits(self), 0nat),
    {
        Iter { vec: self, current: 0 }
    }

    /// An iterator over the bits, from the first.
    pub fn iter_vals(&self) -> (r: IterFromRef<'_>)
        ensures
            r.state() == (simd_bits(*self), 0nat),
    {
        IterFromRef { vec: self, current: 0 }
    }
}

impl BooleanVector for SimdBitVec {
    open spec fn bools(&self) -> Seq<bool> {
        simd_bits(*self)
    }

    fn new() -> (r: Self) {
        Self::zeros(0)
    }

    /// `len` false bits: an empty vector resized to `len` (the crate's `zeros` computes
    /// `len + 255`, which overflows for lengths near `usize::MAX`).
    fn zeros(len: usize) -> (r: Self) {
        let mut v = simd_empty();
        simd_resize(&mut v, len, false);
        proof {
            assert(resized(Seq::<bool>::empty(), len as nat, false) =~= super::falses(len as nat));
        }
        v
    }

    fn set(&mut self, idx: usize, flag: bool) {
        simd_set(self, idx, flag);
    }

    fn xor_inplace(&mut self, rhs: &Self) {
        simd_xor_inplace(self, rhs);
    }

    fn or_inplace(&mut self, rhs: &Self) {
        simd_or_inplace(self, rhs);
    }

    fn resize(&mut self, len: usize, flag: bool) {
        simd_resize(self, len, flag);
    }

    /// Resize to one more bit, filled with `flag`.
    fn push(&mut self, flag: bool) {
        let len = simd_len(self);
        simd_resize(self, len + 1, flag);
        proof {
            assert(resized(simd_bits(*old(self)), (len + 1) as nat, flag) =~= simd_bits(
                *old(self),
            ).push(flag));
        }
    }

    fn pop(&mut self) -> (r: Option<bool>) {
        let len = simd_len(self);
        if len == 0 {
            return None;
        }
        let last = len - 1;
        let res = simd_get_unchecked(self, last);
        simd_shrink_to(self, last);
        proof {
            assert(simd_bits(*old(self)).take(last as int) =~= simd_bits(*old(self)).drop_last());
        }
        Some(res)
    }

    fn len(&self) -> (r: usize) {
        simd_len(self)
    }

    fn get(&self, idx: usize) -> (r: bool) {
        simd_get_unchecked(self, idx)
    }
}

} // verus!
