//! [BoolVector] for the SIMD bit-vector of the crate `bitvec_simd`, in a newtype.
use vstd::prelude::*;

use super::BoolVector;
use crate::boolean_vector::{falses, or_seq, resized, xor_seq};

verus! {

/// A newtype around the bit-vector `BitVec` of `bitvec_simd`. Its bits are [bits_of];
/// the vector itself is opaque to the proofs (the crate's type cannot be declared here,
/// since its bounds name traits of a crate that this one does not depend on).
#[verifier::external_body]
#[derive(PartialEq, Debug)]
pub struct SimdBoolVec(bitvec_simd::BitVec);

/// The bits that the vector holds, in order.
pub uninterp spec fn bits_of(v: SimdBoolVec) -> Seq<bool>;

impl Clone for SimdBoolVec {
    /// The derived `Clone` of `bitvec_simd::BitVec`: the clone holds the same bits.
    #[verifier::external_body]
    fn clone(&self) -> (r: Self)
        ensures
            bits_of(r) == bits_of(*self),
    {
        SimdBoolVec(self.0.clone())
    }
}

/// `bitvec_simd::BitVec::zeros`: `len` false bits (the crate computes `len + 255`,
/// which must not overflow).
#[verifier::external_body]
fn zeros_of(len: usize) -> (r: SimdBoolVec)
    requires
        len + 255 <= usize::MAX,
    ensures
        bits_of(r) == falses(len as nat),
{
    SimdBoolVec(bitvec_simd::BitVec::zeros(len))
}

/// `BitVec::set`: set the bit at `i`, which is in bounds.
#[verifier::external_body]
fn set_bit(v: &mut SimdBoolVec, i: usize, flag: bool)
    requires
        i < bits_of(*old(v)).len(),
    ensures
        bits_of(*final(v)) == bits_of(*old(v)).update(i as int, flag),
{
    v.0.set(i, flag)
}

/// `BitVec::get`: the bit at `i`, [None] if out of bounds.
#[verifier::external_body]
fn get_bit(v: &SimdBoolVec, i: usize) -> (r: Option<bool>)
    ensures
        i < bits_of(*v).len() ==> r == Some(bits_of(*v)[i as int]),
        i >= bits_of(*v).len() ==> r is None,
{
    v.0.get(i)
}

/// `BitVec::get_unchecked`: the bit at `i`, which is in bounds.
#[verifier::external_body]
fn get_bit_unchecked(v: &SimdBoolVec, i: usize) -> (r: bool)
    requires
        i < bits_of(*v).len(),
    ensures
        r == bits_of(*v)[i as int],
{
    v.0.get_unchecked(i)
}

/// `BitVec::shrink_to`: keep the first `len` bits, fewer than there are.
#[verifier::external_body]
fn shrink_bits(v: &mut SimdBoolVec, len: usize)
    requires
        len < bits_of(*old(v)).len(),
    ensures
        bits_of(*final(v)) == bits_of(*old(v)).take(len as int),
{
    v.0.shrink_to(len)
}

/// `BitVec::resize`: cut the vector to `len` bits, or extend it with `flag`s.
#[verifier::external_body]
fn resize_bits(v: &mut SimdBoolVec, len: usize, flag: bool)
    ensures
        bits_of(*final(v)) == resized(bits_of(*old(v)), len as nat, flag),
{
    v.0.resize(len, flag)
}

/// `BitVec::len`: the number of bits.
#[verifier::external_body]
fn len_of(v: &SimdBoolVec) -> (r: usize)
    ensures
        r == bits_of(*v).len(),
{
    v.0.len()
}

/// `BitVec::xor_inplace`: XOR `other` onto `v`; both have the same length.
#[verifier::external_body]
fn xor_bits(v: &mut SimdBoolVec, other: &SimdBoolVec)
    requires
        bits_of(*old(v)).len() == bits_of(*other).len(),
    ensures
        bits_of(*final(v)) == xor_seq(bits_of(*old(v)), bits_of(*other)),
{
    v.0.xor_inplace(&other.0)
}

/// `BitVec::or_inplace`: OR `other` onto `v`; both have the same length.
#[verifier::external_body]
fn or_bits(v: &mut SimdBoolVec, other: &SimdBoolVec)
    requires
        bits_of(*old(v)).len() == bits_of(*other).len(),
    ensures
        bits_of(*final(v)) == or_seq(bits_of(*old(v)), bits_of(*other)),
{
    v.0.or_inplace(&other.0)
}

/// An iterator over the bits of an owned [SimdBoolVec].
pub struct Iter {
    vec: SimdBoolVec,
    current: usize,
}

impl Iter {
    /// The bits and the index of the next one.
    pub closed spec fn state(&self) -> (Seq<bool>, nat) {
        (bits_of(self.vec), self.current as nat)
    }

    /// The next bit, [None] past the end; the index advances either way.
    pub fn next(&mut self) -> (r: Option<bool>)
        requires
            old(self).state().1 < usize::MAX,
        ensures
            final(self).state() == (old(self).state().0, old(self).state().1 + 1),
            old(self).state().1 < old(self).state().0.len() ==> r == Some(
                old(self).state().0[old(self).state().1 as int],
            ),
            old(self).state().1 >= old(self).state().0.len() ==> r is None,
    {
        self.current += 1;
        get_bit(&self.vec, self.current - 1)
    }
}

/// An iterator over the bits of a borrowed [SimdBoolVec].
pub struct IterFromRef<'l> {
    vec: &'l SimdBoolVec,
    current: usize,
}

impl<'l> IterFromRef<'l> {
    /// The bits and the index of the next one.
    pub closed spec fn state(&self) -> (Seq<bool>, nat) {
        (bits_of(*self.vec), self.current as nat)
    }

    /// The next bit, [None] past the end; the index advances either way.
    pub fn next(&mut self) -> (r: Option<bool>)
        requires
            old(self).state().1 < usize::MAX,
        ensures
            final(self).state() == (old(self).state().0, old(self).state().1 + 1),
            old(self).state().1 < old(self).state().0.len() ==> r == Some(
                old(self).state().0[old(self).state().1 as int],
            ),
            old(self).state().1 >= old(self).state().0.len() ==> r is None,
    {
        self.current += 1;
        get_bit(self.vec, self.current - 1)
    }
}

impl SimdBoolVec {
    /// An iterator over the bits, from the first.
    pub fn into_iter(self) -> (r: Iter)
        ensures
            r.state() == (bits_of(self), 0nat),
    {
        Iter { vec: self, current: 0 }
    }

    /// An iterator over the bits, from the first.
    pub fn iter_vals(&self) -> (r: IterFromRef<'_>)
        ensures
            r.state() == (bits_of(*self), 0nat),
    {
        IterFromRef { vec: self, current: 0 }
    }
}

impl BoolVector for SimdBoolVec {
    open spec fn bools(&self) -> Seq<bool> {
        bits_of(*self)
    }

    fn new() -> (r: Self) {
        zeros_of(0)
    }

    /// `len` false bits, where `len + 255` stays in `usize` (the crate adds it).
    fn zeros(len: usize) -> (r: Self) {
        if len <= usize::MAX - 255 {
            zeros_of(len)
        } else {
            let mut v = zeros_of(0);
            resize_bits(&mut v, len, false);
            proof {
                assert(resized(Seq::<bool>::empty(), len as nat, false) =~= falses(len as nat));
            }
            v
        }
    }

    fn set(&mut self, idx: usize, flag: bool) {
        set_bit(self, idx, flag);
    }

    fn xor_inplace(&mut self, rhs: &Self) {
        xor_bits(self, rhs);
    }

    fn or_inplace(&mut self, rhs: &Self) {
        or_bits(self, rhs);
    }

    fn resize(&mut self, len: usize, flag: bool) {
        resize_bits(self, len, flag);
    }

    /// The vector grows by one bit.
    fn push(&mut self, flag: bool) {
        let len = len_of(self);
        resize_bits(self, len + 1, flag);
        proof {
            assert(resized(bits_of(*old(self)), (len + 1) as nat, flag) =~= old(self).bools().push(flag));
        }
    }

    fn pop(&mut self) -> (r: Option<bool>) {
        let len = len_of(self);
        if len == 0 {
            return None;
        }
        let last = len - 1;
        let res = get_bit_unchecked(self, last);
        shrink_bits(self, last);
        proof {
            assert(bits_of(*old(self)).take(last as int) =~= bits_of(*old(self)).drop_last());
        }
        Some(res)
    }

    fn bits(&self) -> (r: usize) {
        len_of(self)
    }
}

} // verus!
