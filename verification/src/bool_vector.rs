//! An earlier interface over storage types of boolean values, with an implementation for
//! the SIMD bit-vector of `bitvec_simd`.
use vstd::prelude::*;

use crate::boolean_vector::{or_seq, resized, xor_seq};

pub mod bitvec_simd;

verus! {

/// A vector of booleans with in-place bitwise operations.
pub trait BoolVector: Sized {
    /// The stored values, in order.
    spec fn bools(&self) -> Seq<bool>;

    /// An empty vector.
    fn new() -> (r: Self)
        ensures
            r.bools() == Seq::<bool>::empty(),
    ;

    /// `len` false values.
    fn zeros(len: usize) -> (r: Self)
        ensures
            r.bools() == crate::boolean_vector::falses(len as nat),
    ;

    /// Set the value at `idx`, which is in bounds.
    fn set(&mut self, idx: usize, flag: bool)
        requires
            idx < old(self).bools().len(),
        ensures
            final(self).bools() == old(self).bools().update(idx as int, flag),
    ;

    /// XOR `rhs` onto the vector; both have the same length.
    fn xor_inplace(&mut self, rhs: &Self)
        requires
            old(self).bools().len() == rhs.bools().len(),
        ensures
            final(self).bools() == xor_seq(old(self).bools(), rhs.bools()),
    ;

    /// OR `rhs` onto the vector; both have the same length.
    fn or_inplace(&mut self, rhs: &Self)
        requires
            old(self).bools().len() == rhs.bools().len(),
        ensures
            final(self).bools() == or_seq(old(self).bools(), rhs.bools()),
    ;

    /// Cut the vector to `len` values, or extend it with `flag`s.
    fn resize(&mut self, len: usize, flag: bool)
        ensures
            final(self).bools() == resized(old(self).bools(), len as nat, flag),
    ;

    /// Append a value; the length must stay in `usize`.
    fn push(&mut self, flag: bool)
        requires
            old(self).bools().len() < usize::MAX,
        ensures
            final(self).bools() == old(self).bools().push(flag),
    ;

    /// Remove the last value and return it; [None] if the vector is empty.
    fn pop(&mut self) -> (r: Option<bool>)
        ensures
            old(self).bools().len() == 0 ==> r is None && final(self).bools() == old(self).bools(),
            old(self).bools().len() > 0 ==> r == Some(old(self).bools().last())
                && final(self).bools() == old(self).bools().drop_last(),
    ;

    /// The number of values.
    fn bits(&self) -> (r: usize)
        ensures
            r == self.bools().len(),
    ;
}

} // verus!
