//! A circuit that records its gates and (unspecified) measurements; it does not
//! simulate anything.
use vstd::prelude::*;

use super::CliffordCircuit;

verus! {

/// A subset of the Clifford gates and (unspecified) measurements, each with the qubits
/// it acts on.
#[derive(Clone, Copy, PartialEq, Eq, Structural, PartialOrd, Ord, Debug)]
pub enum Gate {
    /// Pauli X.
    X(usize),
    /// Pauli Y.
    Y(usize),
    /// Pauli Z.
    Z(usize),
    /// Hadamard.
    H(usize),
    /// Phase.
    S(usize),
    /// Control X (Control Not): control, target.
    CX(usize, usize),
    /// Control Z.
    CZ(usize, usize),
    /// Unspecified measurement.
    Measure(usize),
}

/// The recorded gates of a circuit.
#[derive(Debug)]
pub struct SimpleCircuit {
    /// The gates, in order.
    pub gates: Vec<Gate>,
}

impl SimpleCircuit {
    /// An empty circuit.
    pub fn new() -> (r: Self)
        ensures
            r.gates@ == Seq::<Gate>::empty(),
    {
        Self { gates: Vec::new() }
    }
}

impl Default for SimpleCircuit {
    fn default() -> (r: Self)
        ensures
            r.gates@ == Seq::<Gate>::empty(),
    {
        Self::new()
    }
}

impl CliffordCircuit for SimpleCircuit {
    /// `gates` ends with one more entry, which is `gate`.
    open spec fn applied(old: Self, new: Self, gate: Gate) -> bool {
        new.gates@ == old.gates@.push(gate)
    }

    /// The measurement is recorded; there is no outcome.
    open spec fn measured(old: Self, new: Self, bit: usize, outcome: Option<bool>) -> bool {
        new.gates@ == old.gates@.push(Gate::Measure(bit)) && outcome is None
    }

    /// Record an X.
    fn x(&mut self, bit: usize)
        ensures
            final(self).gates@ == old(self).gates@.push(Gate::X(bit)),
    {
        self.gates.push(Gate::X(bit));
    }

    /// Record a Y.
    fn y(&mut self, bit: usize)
        ensures
            final(self).gates@ == old(self).gates@.push(Gate::Y(bit)),
    {
        self.gates.push(Gate::Y(bit));
    }

    /// Record a Z.
    fn z(&mut self, bit: usize)
        ensures
            final(self).gates@ == old(self).gates@.push(Gate::Z(bit)),
    {
        self.gates.push(Gate::Z(bit));
    }

    /// Record an H.
    fn h(&mut self, bit: usize)
        ensures
            final(self).gates@ == old(self).gates@.push(Gate::H(bit)),
    {
        self.gates.push(Gate::H(bit));
    }

    /// Record an S.
    fn s(&mut self, bit: usize)
        ensures
            final(self).gates@ == old(self).gates@.push(Gate::S(bit)),
    {
        self.gates.push(Gate::S(bit));
    }

    /// Record a Control X.
    fn cx(&mut self, control: usize, target: usize)
        ensures
            final(self).gates@ == old(self).gates@.push(Gate::CX(control, target)),
    {
        self.gates.push(Gate::CX(control, target));
    }

    /// Record a Control Z.
    fn cz(&mut self, bit_a: usize, bit_b: usize)
        ensures
            final(self).gates@ == old(self).gates@.push(Gate::CZ(bit_a, bit_b)),
    {
        self.gates.push(Gate::CZ(bit_a, bit_b));
    }

    /// Record a measurement; there is no outcome.
    fn measure(&mut self, bit: usize) -> (r: Option<bool>)
        ensures
            final(self).gates@ == old(self).gates@.push(Gate::Measure(bit)),
            r is None,
    {
        self.gates.push(Gate::Measure(bit));
        None
    }
}

} // verus!
