//! Multiple [Pauli](super::single::Pauli)s, stored as two boolean vectors.
use vstd::prelude::*;

use crate::boolean_vector::{falses, xor_seq, BooleanVector};
use super::parse::{kept_bits, parse_kept_bits};
use super::single::Pauli;

verus! {

/// Multiple encoded Paulis compressed into two [BooleanVector]s: the X parts in `left`
/// and the Z parts in `right`.
#[derive(Clone, Debug, PartialEq, Eq, PartialOrd, Ord)]
pub struct PauliVec<T> {
    /// The X components, the left-hand side of the tableau representation.
    pub left: T,
    /// The Z components, the right-hand side of the tableau representation.
    pub right: T,
}

impl<T: BooleanVector> PauliVec<T> {
    /// Create a new empty vector.
    pub fn new() -> (r: Self)
        ensures
            r.left.bools() == Seq::<bool>::empty(),
            r.right.bools() == Seq::<bool>::empty(),
    {
        Self { left: T::new(), right: T::new() }
    }

    /// Create the vector from two strings; the binary digits of `left` give the X
    /// parts and those of `right` the Z parts. Characters that are not binary digits
    /// are skipped.
    pub fn try_from_str(left: &str, right: &str) -> (r: Result<Self, String>)
        ensures
            r matches Ok(v) && v.left.bools() == kept_bits(left@) && v.right.bools()
                == kept_bits(right@),
    {
        Ok(Self { left: parse_kept_bits(left), right: parse_kept_bits(right) })
    }

    /// Create a vector whose two sides hold `len` many `false` elements.
    pub fn zeros(len: usize) -> (r: Self)
        ensures
            r.left.bools() == falses(len as nat),
            r.right.bools() == falses(len as nat),
    {
        Self { left: T::zeros(len), right: T::zeros(len) }
    }

    /// Push a Pauli onto the vector.
    pub fn push(&mut self, pauli: Pauli)
        requires
            old(self).left.bools().len() < usize::MAX,
            old(self).right.bools().len() < usize::MAX,
        ensures
            final(self).left.bools() == old(self).left.bools().push(pauli.has_x()),
            final(self).right.bools() == old(self).right.bools().push(pauli.has_z()),
    {
        self.left.push(pauli.get_x());
        self.right.push(pauli.get_z());
    }

    /// Pop the last Pauli; a missing element on either side counts as `false`.
    pub fn pop_or_false(&mut self) -> (r: Pauli)
        ensures
            r.has_x() == (old(self).left.bools().len() > 0 && old(self).left.bools().last()),
            r.has_z() == (old(self).right.bools().len() > 0 && old(self).right.bools().last()),
            final(self).left.bools() == (if old(self).left.bools().len() > 0 {
                old(self).left.bools().drop_last()
            } else {
                old(self).left.bools()
            }),
            final(self).right.bools() == (if old(self).right.bools().len() > 0 {
                old(self).right.bools().drop_last()
            } else {
                old(self).right.bools()
            }),
    {
        let l = self.left.pop().unwrap_or(false);
        let r = self.right.pop().unwrap_or(false);
        Pauli::new(l, r)
    }

    /// Apply Pauli X; this does nothing (Paulis commute with Paulis up to a phase).
    pub fn x(&self) {
    }

    /// Apply Pauli Z; this does nothing.
    pub fn z(&self) {
    }

    /// Apply Pauli Y; this does nothing.
    pub fn y(&self) {
    }

    /// Conjugate all Paulis with the Hadamard gate: the X and Z parts swap.
    pub fn h(&mut self)
        ensures
            final(self).left == old(self).right,
            final(self).right == old(self).left,
    {
        std::mem::swap(&mut self.left, &mut self.right);
    }

    /// Conjugate all Paulis with the S gate: the X parts are added onto the Z parts.
    /// Both sides must have the same length.
    pub fn s(&mut self)
        requires
            old(self).left.bools().len() == old(self).right.bools().len(),
        ensures
            final(self).left == old(self).left,
            final(self).right.bools() == xor_seq(old(self).right.bools(), old(self).left.bools()),
    {
        self.right.xor_inplace(&self.left);
    }
}

/// [PauliVec::pop_or_false] after [PauliVec::push] gives back the pushed Pauli (its X
/// and Z parts) and the two sides before the push; on an empty side it reads `false` and
/// the side stays empty.
pub proof fn lemma_pop_or_false_after_push(left: Seq<bool>, right: Seq<bool>, x: bool, z: bool)
    ensures
        (left.push(x).len() > 0 && left.push(x).last()) == x,
        (right.push(z).len() > 0 && right.push(z).last()) == z,
        left.push(x).drop_last() == left,
        right.push(z).drop_last() == right,
        (Seq::<bool>::empty().len() > 0 && Seq::<bool>::empty().last()) == false,
{
    assert(left.push(x).drop_last() =~= left);
    assert(right.push(z).drop_last() =~= right);
}

} // verus!
