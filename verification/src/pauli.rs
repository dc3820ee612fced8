//! Encodings of Pauli operators, neglecting phases.
//!
//! Every Pauli operator is, up to a phase, a product X^x Z^z; the pair of bits (x, z)
//! is its tableau representation.
use vstd::prelude::*;

pub mod dense;
pub mod encoding;
pub mod parse;
pub mod stack;
pub mod single;
pub mod tuple;
pub mod vec;

pub use dense::PauliDense;
pub use tuple::PauliTuple;
pub use stack::PauliStack;

verus! {

/// The X and Z components after conjugation with the Hadamard gate: they swap.
pub open spec fn conj_h(xz: (bool, bool)) -> (bool, bool) {
    (xz.1, xz.0)
}

/// The X and Z components after conjugation with the S gate, neglecting phases: the X
/// component is added onto the Z component.
pub open spec fn conj_s(xz: (bool, bool)) -> (bool, bool) {
    (xz.0, xz.1 != xz.0)
}

/// Conjugating twice with the Hadamard gate gives back the Pauli.
pub proof fn lemma_h_twice(xz: (bool, bool))
    ensures
        conj_h(conj_h(xz)) == xz,
{
}

/// Conjugating twice with the S gate gives back the Pauli, neglecting phases.
pub proof fn lemma_s_twice(xz: (bool, bool))
    ensures
        conj_s(conj_s(xz)) == xz,
{
}

/// Conjugating three times with S followed by H gives back the Pauli, neglecting
/// phases.
pub proof fn lemma_sh_thrice(xz: (bool, bool))
    ensures
        conj_h(conj_s(conj_h(conj_s(conj_h(conj_s(xz)))))) == xz,
{
}


/// The common interface of Pauli encodings: the X and Z components of a Pauli operator,
/// neglecting phases, and the conjugation of the operator with Clifford gates.
pub trait Pauli: Sized {
    /// The X and Z components of the Pauli.
    spec fn xz(&self) -> (bool, bool);

    /// Create the new Pauli (X if `x`)(Z if `z`), neglecting phases.
    fn new(x: bool, z: bool) -> (r: Self)
        ensures
            r.xz() == (x, z),
    ;

    /// Create the identity.
    fn new_i() -> (r: Self)
        ensures
            r.xz() == (false, false),
    ;

    /// Create a Pauli X.
    fn new_x() -> (r: Self)
        ensures
            r.xz() == (true, false),
    ;

    /// Create a Pauli Y.
    fn new_y() -> (r: Self)
        ensures
            r.xz() == (true, true),
    ;

    /// Create a Pauli Z.
    fn new_z() -> (r: Self)
        ensures
            r.xz() == (false, true),
    ;

    /// Add (multiply) the `other` Pauli onto `self` in place.
    fn add(&mut self, other: Self)
        ensures
            final(self).xz() == (old(self).xz().0 != other.xz().0, old(self).xz().1
                != other.xz().1),
    ;

    /// Conjugate the Pauli with the Hadamard gate, ignoring phases.
    fn h(&mut self)
        ensures
            final(self).xz() == conj_h(old(self).xz()),
    ;

    /// Conjugate the Pauli with the S gate, ignoring phases.
    fn s(&mut self)
        ensures
            final(self).xz() == conj_s(old(self).xz()),
    ;

    /// Add `other`'s X component onto `self`'s X component in place.
    fn xpx(&mut self, other: &Self)
        ensures
            final(self).xz() == (old(self).xz().0 != other.xz().0, old(self).xz().1),
    ;

    /// Add `other`'s X component onto `self`'s Z component in place.
    fn xpz(&mut self, other: &Self)
        ensures
            final(self).xz() == (old(self).xz().0, old(self).xz().1 != other.xz().0),
    ;

    /// Add `other`'s Z component onto `self`'s X component in place.
    fn zpx(&mut self, other: &Self)
        ensures
            final(self).xz() == (old(self).xz().0 != other.xz().1, old(self).xz().1),
    ;

    /// Add `other`'s Z component onto `self`'s Z component in place.
    fn zpz(&mut self, other: &Self)
        ensures
            final(self).xz() == (old(self).xz().0, old(self).xz().1 != other.xz().1),
    ;

    /// Get the Pauli's X component.
    fn get_x(&self) -> (r: bool)
        ensures
            r == self.xz().0,
    ;

    /// Get the Pauli's Z component.
    fn get_z(&self) -> (r: bool)
        ensures
            r == self.xz().1,
    ;

    /// Set whether the Pauli product contains X.
    fn set_x(&mut self, x: bool)
        ensures
            final(self).xz() == (x, old(self).xz().1),
    ;

    /// Set whether the Pauli product contains Z.
    fn set_z(&mut self, z: bool)
        ensures
            final(self).xz() == (old(self).xz().0, z),
    ;
}

} // verus!
