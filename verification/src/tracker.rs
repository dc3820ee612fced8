//! The interface for tracking Pauli gates through a Clifford circuit.
use vstd::prelude::*;

use crate::circuit::simple::Gate;
use crate::pauli::Pauli;

verus! {

/// A Pauli string: Paulis with the indices of their qubits.
pub type PauliString<T> = Vec<(usize, T)>;

/// The error when a qubit without a Pauli stack is measured.
#[derive(Clone, Copy, PartialEq, Eq, Structural, PartialOrd, Ord, Hash, Debug)]
pub struct MissingStack {
    /// The missing qubit.
    pub bit: usize,
}

impl Default for MissingStack {
    fn default() -> (r: Self)
        ensures
            r.bit == 0,
    {
        MissingStack { bit: 0 }
    }
}

/// The core interface to track Paulis through a Clifford circuit. Implementors follow
/// the conjugation rules of the Clifford gates with the Pauli gates.
pub trait Tracker: Sized {
    /// The storage of the tracked Paulis of one qubit.
    type Stack;

    /// The representation of single Paulis.
    type Pauli: Pauli;

    /// Initialize the tracker with the qubits `0..num_bits`.
    fn init(num_bits: usize) -> Self;

    /// Insert a new qubit; [Some] of it if it is already present, else [None].
    fn new_qubit(&mut self, bit: usize) -> Option<usize>;

    /// Whether `new` is the tracker `old` after a new frame holding the Pauli with the X
    /// and Z components `xz` on the qubit was tracked (the implementor says what tracking
    /// means).
    spec fn pauli_tracked(old: Self, new: Self, bit: usize, xz: (bool, bool)) -> bool;

    /// Whether `new` is the tracker `old` after the Clifford gate (H, S, Control X or
    /// Control Z) was applied.
    spec fn gate_applied(old: Self, new: Self, gate: Gate) -> bool;

    /// Whether `new` is the tracker `old` after the X stack (the Z stack if `from_z`) of
    /// `source` was moved onto the X stack (the Z stack if `to_z`) of `destination`.
    spec fn moved(old: Self, new: Self, source: usize, destination: usize, from_z: bool, to_z: bool) -> bool;

    /// Track a new frame holding `pauli` on the qubit.
    fn track_pauli(&mut self, bit: usize, pauli: Self::Pauli)
        ensures
            Self::pauli_tracked(*old(self), *final(self), bit, pauli.xz()),
    ;

    /// Track a new frame holding all Paulis of the string.
    fn track_pauli_string(&mut self, string: PauliString<Self::Pauli>);

    /// Track a new frame holding an X on the qubit.
    fn track_x(&mut self, bit: usize)
        ensures
            Self::pauli_tracked(*old(self), *final(self), bit, (true, false)),
    {
        self.track_pauli(bit, Self::Pauli::new_x());
    }

    /// Track a new frame holding a Y on the qubit.
    fn track_y(&mut self, bit: usize)
        ensures
            Self::pauli_tracked(*old(self), *final(self), bit, (true, true)),
    {
        self.track_pauli(bit, Self::Pauli::new_y());
    }

    /// Track a new frame holding a Z on the qubit.
    fn track_z(&mut self, bit: usize)
        ensures
            Self::pauli_tracked(*old(self), *final(self), bit, (false, true)),
    {
        self.track_pauli(bit, Self::Pauli::new_z());
    }

    /// Apply the Hadamard gate on the qubit.
    fn h(&mut self, bit: usize)
        ensures
            Self::gate_applied(*old(self), *final(self), Gate::H(bit)),
    ;

    /// Apply the S gate on the qubit.
    fn s(&mut self, bit: usize)
        ensures
            Self::gate_applied(*old(self), *final(self), Gate::S(bit)),
    ;

    /// Apply the Control X (Control Not) gate.
    fn cx(&mut self, control: usize, target: usize)
        ensures
            Self::gate_applied(*old(self), *final(self), Gate::CX(control, target)),
    ;

    /// Apply the Control Z gate.
    fn cz(&mut self, bit_a: usize, bit_b: usize)
        ensures
            Self::gate_applied(*old(self), *final(self), Gate::CZ(bit_a, bit_b)),
    ;

    /// Move the X stack of `source` onto the X stack of `destination`.
    fn move_x_to_x(&mut self, source: usize, destination: usize)
        ensures
            Self::moved(*old(self), *final(self), source, destination, false, false),
    ;

    /// Move the X stack of `source` onto the Z stack of `destination`.
    fn move_x_to_z(&mut self, source: usize, destination: usize)
        ensures
            Self::moved(*old(self), *final(self), source, destination, false, true),
    ;

    /// Move the Z stack of `source` onto the X stack of `destination`.
    fn move_z_to_x(&mut self, source: usize, destination: usize)
        ensures
            Self::moved(*old(self), *final(self), source, destination, true, false),
    ;

    /// Move the Z stack of `source` onto the Z stack of `destination`.
    fn move_z_to_z(&mut self, source: usize, destination: usize)
        ensures
            Self::moved(*old(self), *final(self), source, destination, true, true),
    ;

    /// Remove the Pauli stack of the qubit, if it is present.
    fn measure(&mut self, bit: usize) -> Result<Self::Stack, MissingStack>;
}

} // verus!
