//! Multiple encoded Paulis, stored as two boolean vectors.
use vstd::prelude::*;

use crate::boolean_vector::{filtered_parity, resized, xor_seq, BooleanVector};
use super::parse::{bits_of, all_bit_chars, char_to_string, first_non_bit, parse_bits};
use super::{Pauli, PauliTuple};

verus! {

/// Multiple encoded Paulis compressed into two [BooleanVector]s.
///
/// Instead of a vector of Paulis, the X parts and the Z parts are kept in two separate
/// vectors, which makes (Clifford) operations on all Paulis at once efficient.
#[derive(Debug, Clone, Copy, PartialEq, Eq, PartialOrd, Ord, Hash)]
pub struct PauliStack<T> {
    /// The X components, i.e., the left-hand side of the tableau representation.
    pub left: T,
    /// The Z components, i.e., the right-hand side of the tableau representation.
    pub right: T,
}

/// The error when a character is not a binary digit.
#[derive(Debug, Clone, PartialEq, Eq, PartialOrd, Ord, Hash)]
pub struct BitCharError {
    /// The invalid character.
    pub string: String,
}

/// The larger of two lengths.
pub open spec fn max_len(a: nat, b: nat) -> nat {
    if a >= b { a } else { b }
}

impl<T: BooleanVector> PauliStack<T> {
    /// Create a new empty stack.
    pub fn new() -> (r: Self)
        ensures
            r.left.bools() == Seq::<bool>::empty(),
            r.right.bools() == Seq::<bool>::empty(),
    {
        Self { left: T::new(), right: T::new() }
    }

    /// Create a stack from two strings of binary digits; `left` gives the X parts,
    /// `right` the Z parts. Errors with the first character that is not '0' or '1'
    /// (looking at `left` first).
    pub fn try_from_str(left: &str, right: &str) -> (r: Result<Self, BitCharError>)
        ensures
            all_bit_chars(left@) && all_bit_chars(right@) <==> r is Ok,
            r matches Ok(s) ==> s.left.bools() == bits_of(left@) && s.right.bools() == bits_of(
                right@,
            ),
            !all_bit_chars(left@) ==> (r matches Err(e) && exists|c: char|
                first_non_bit(left@, c) && e.string@ == seq![c]),
            all_bit_chars(left@) && !all_bit_chars(right@) ==> (r matches Err(e) && exists|
                c: char,
            | first_non_bit(right@, c) && e.string@ == seq![c]),
    {
        let l: T = match parse_bits(left) {
            Ok(v) => v,
            Err(c) => {
                return Err(BitCharError { string: char_to_string(c) });
            },
        };
        let r: T = match parse_bits(right) {
            Ok(v) => v,
            Err(c) => {
                return Err(BitCharError { string: char_to_string(c) });
            },
        };
        Ok(Self { left: l, right: r })
    }

    /// Create a stack whose two sides hold `len` many `false` elements.
    pub fn zeros(len: usize) -> (r: Self)
        ensures
            r.left.bools() == crate::boolean_vector::falses(len as nat),
            r.right.bools() == crate::boolean_vector::falses(len as nat),
    {
        Self { left: T::zeros(len), right: T::zeros(len) }
    }

    /// Push a new Pauli onto the stack. If one side is shorter than the other, it is
    /// first filled up with `false` to the same length.
    pub fn push<P: Pauli>(&mut self, pauli: P)
        requires
            old(self).left.bools().len() < usize::MAX,
            old(self).right.bools().len() < usize::MAX,
        ensures
            final(self).left.bools() == resized(
                old(self).left.bools(),
                max_len(old(self).left.bools().len(), old(self).right.bools().len()),
                false,
            ).push(pauli.xz().0),
            final(self).right.bools() == resized(
                old(self).right.bools(),
                max_len(old(self).left.bools().len(), old(self).right.bools().len()),
                false,
            ).push(pauli.xz().1),
    {
        let left = self.left.len();
        let right = self.right.len();
        if left < right {
            self.left.resize(right, false);
        } else if left > right {
            self.right.resize(left, false);
        }
        proof {
            if left == right {
                assert(resized(old(self).left.bools(), left as nat, false) =~= old(self).left.bools());
                assert(resized(old(self).right.bools(), left as nat, false) =~= old(self).right.bools());
            } else if left < right {
                assert(resized(old(self).right.bools(), right as nat, false) =~= old(self).right.bools());
            } else {
                assert(resized(old(self).left.bools(), left as nat, false) =~= old(self).left.bools());
            }
        }
        self.left.push(pauli.get_x());
        self.right.push(pauli.get_z());
    }

    /// Pop the last Pauli from the stack. If one side is shorter than the other,
    /// `false` stands for its missing element. Returns [None] if both sides are empty.
    pub fn pop<P: Pauli>(&mut self) -> (r: Option<P>)
        ensures
            ({
                let l = old(self).left.bools();
                let rt = old(self).right.bools();
                if l.len() == 0 && rt.len() == 0 {
                    &&& r is None
                    &&& final(self).left.bools() == l
                    &&& final(self).right.bools() == rt
                } else {
                    &&& r matches Some(p) && p.xz() == (
                        if l.len() >= rt.len() { l.last() } else { false },
                        if rt.len() >= l.len() { rt.last() } else { false },
                    )
                    &&& final(self).left.bools() == (if l.len() >= rt.len() {
                        l.drop_last()
                    } else {
                        l
                    })
                    &&& final(self).right.bools() == (if rt.len() >= l.len() {
                        rt.drop_last()
                    } else {
                        rt
                    })
                }
            }),
    {
        let left = self.left.len();
        let right = self.right.len();
        if left < right {
            match self.right.pop() {
                Some(z) => Some(P::new(false, z)),
                None => None,
            }
        } else if left > right {
            match self.left.pop() {
                Some(x) => Some(P::new(x, false)),
                None => None,
            }
        } else {
            let x = match self.left.pop() {
                Some(x) => x,
                None => {
                    return None;
                },
            };
            let z = match self.right.pop() {
                Some(z) => z,
                None => {
                    return None;
                },
            };
            Some(P::new(x, z))
        }
    }

    /// Apply Pauli X; Paulis commute with Paulis up to a phase, so this does nothing.
    pub fn x(&self) {
    }

    /// Apply Pauli Z; this does nothing, as for [Self::x].
    pub fn z(&self) {
    }

    /// Apply Pauli Y; this does nothing, as for [Self::x].
    pub fn y(&self) {
    }

    /// Conjugate all Paulis with the Hadamard gate: the X and Z parts swap.
    pub fn h(&mut self)
        ensures
            final(self).left == old(self).right,
            final(self).right == old(self).left,
    {
        std::mem::swap(&mut self.left, &mut self.right);
    }

    /// Conjugate all Paulis with the S gate: the X parts are added onto the Z parts.
    /// Both sides must have the same length.
    pub fn s(&mut self)
        requires
            old(self).left.bools().len() == old(self).right.bools().len(),
        ensures
            final(self).left == old(self).left,
            final(self).right.bools() == xor_seq(old(self).right.bools(), old(self).left.bools()),
    {
        self.right.xor_inplace(&self.left);
    }

    /// Multiply the Paulis selected by `filter`, neglecting phases: the X and Z parts
    /// are each summed up modulo 2 (compare [BooleanVector::sum_up]). The filter must
    /// cover every Pauli.
    pub fn sum_up(&self, filter: &[bool]) -> (r: PauliTuple)
        requires
            filter@.len() >= self.left.bools().len(),
            filter@.len() >= self.right.bools().len(),
        ensures
            r.xz() == (filtered_parity(self.left.bools(), filter@) == 1, filtered_parity(
                self.right.bools(),
                filter@,
            ) == 1),
    {
        let x = self.left.sum_up(filter);
        let z = self.right.sum_up(filter);
        PauliTuple::new(x == 1, z == 1)
    }
}

/// Pushing a Pauli onto a stack and popping it again gives back the Pauli and, if both
/// sides had the same length, the stack: after the push both sides have the same length,
/// so the pop takes the last element of each side.
pub proof fn lemma_push_then_pop(left: Seq<bool>, right: Seq<bool>, x: bool, z: bool)
    ensures
        ({
            let len = max_len(left.len(), right.len());
            let l = resized(left, len, false).push(x);
            let r = resized(right, len, false).push(z);
            &&& l.len() == r.len()
            &&& l.last() == x
            &&& r.last() == z
            &&& left.len() == right.len() ==> l.drop_last() == left && r.drop_last() == right
        }),
{
    let len = max_len(left.len(), right.len());
    if left.len() == right.len() {
        assert(resized(left, len, false) =~= left);
        assert(resized(right, len, false) =~= right);
        assert(resized(left, len, false).push(x).drop_last() =~= left);
        assert(resized(right, len, false).push(z).drop_last() =~= right);
    }
}

/// Conjugating a stack twice with the S gate gives back its Paulis, neglecting phases:
/// the X parts are added twice onto the Z parts.
pub proof fn lemma_stack_s_twice(left: Seq<bool>, right: Seq<bool>)
    requires
        left.len() == right.len(),
    ensures
        xor_seq(xor_seq(right, left), left) == right,
{
    crate::boolean_vector::lemma_xor_twice(right, left);
}
} // verus!
