//! Clifford circuits with (unspecified) measurements, as far as the Pauli tracking needs
//! them: the gates are passed through to the implementing circuit.
use vstd::prelude::*;

use self::simple::Gate;
use crate::pauli_frame::{Frames, PauliStorage};
use crate::tracker::Tracker;

pub mod dense;
pub mod dummy;
pub mod random_measurement;
pub mod simple;

verus! {

/// The interface of a circuit that applies Clifford gates and (unspecified)
/// measurements.
pub trait CliffordCircuit: Sized {
    /// The effect of a gate: how a circuit before it relates to the circuit after it; each
    /// circuit type defines it ([Gate::Measure] is left to [CliffordCircuit::measured]).
    spec fn applied(old: Self, new: Self, gate: Gate) -> bool;

    /// Whether `new` is the circuit `old` after the qubit was measured with `outcome`.
    spec fn measured(old: Self, new: Self, bit: usize, outcome: Option<bool>) -> bool;

    /// Apply the X gate.
    fn x(&mut self, bit: usize)
        ensures
            Self::applied(*old(self), *final(self), Gate::X(bit)),
    ;

    /// Apply the Y gate.
    fn y(&mut self, bit: usize)
        ensures
            Self::applied(*old(self), *final(self), Gate::Y(bit)),
    ;

    /// Apply the Z gate.
    fn z(&mut self, bit: usize)
        ensures
            Self::applied(*old(self), *final(self), Gate::Z(bit)),
    ;

    /// Apply the H gate.
    fn h(&mut self, bit: usize)
        ensures
            Self::applied(*old(self), *final(self), Gate::H(bit)),
    ;

    /// Apply the S gate.
    fn s(&mut self, bit: usize)
        ensures
            Self::applied(*old(self), *final(self), Gate::S(bit)),
    ;

    /// Apply the Control X (Control Not) gate.
    fn cx(&mut self, control: usize, target: usize)
        ensures
            Self::applied(*old(self), *final(self), Gate::CX(control, target)),
    ;

    /// Apply the Control Z gate.
    fn cz(&mut self, bit_a: usize, bit_b: usize)
        ensures
            Self::applied(*old(self), *final(self), Gate::CZ(bit_a, bit_b)),
    ;

    /// Measure the qubit (unspecified); the outcome, if the circuit has one.
    fn measure(&mut self, bit: usize) -> (r: Option<bool>)
        ensures
            Self::measured(*old(self), *final(self), bit, r),
    ;
}

/// A circuit that does nothing and has no measurement outcomes.
#[derive(Clone, Copy, PartialEq, Eq, Structural, Debug)]
pub struct DummyCircuit {}

impl DummyCircuit {
    /// The circuit.
    pub fn new() -> (r: Self)
        ensures
            r == (DummyCircuit {}),
    {
        Self {}
    }
}

impl Default for DummyCircuit {
    fn default() -> (r: Self)
        ensures
            r == (DummyCircuit {}),
    {
        Self {}
    }
}

impl CliffordCircuit for DummyCircuit {
    /// Nothing changes.
    open spec fn applied(old: Self, new: Self, gate: Gate) -> bool {
        new == old
    }

    /// Nothing changes, and there is no outcome.
    open spec fn measured(old: Self, new: Self, bit: usize, outcome: Option<bool>) -> bool {
        new == old && outcome is None
    }

    fn x(&mut self, bit: usize) {
    }

    fn y(&mut self, bit: usize) {
    }

    fn z(&mut self, bit: usize) {
    }

    fn h(&mut self, bit: usize) {
    }

    fn s(&mut self, bit: usize) {
    }

    fn cx(&mut self, control: usize, target: usize) {
    }

    fn cz(&mut self, bit_a: usize, bit_b: usize) {
    }

    /// No outcome.
    fn measure(&mut self, bit: usize) -> (r: Option<bool>)
        ensures
            r is None,
    {
        None
    }
}

/// `rand::random::<bool>()`: a random boolean.
#[verifier::external_body]
pub(crate) fn random_bool() -> bool {
    rand::random::<bool>()
}

/// A circuit whose gates do nothing and whose measurements have random outcomes.
#[derive(Clone, Copy, PartialEq, Eq, Structural, Debug)]
pub struct RandomMeasurementCircuit {}

impl CliffordCircuit for RandomMeasurementCircuit {
    /// Nothing changes.
    open spec fn applied(old: Self, new: Self, gate: Gate) -> bool {
        new == old
    }

    /// Nothing changes, and there is an outcome.
    open spec fn measured(old: Self, new: Self, bit: usize, outcome: Option<bool>) -> bool {
        new == old && outcome is Some
    }

    fn x(&mut self, bit: usize) {
    }

    fn y(&mut self, bit: usize) {
    }

    fn z(&mut self, bit: usize) {
    }

    fn h(&mut self, bit: usize) {
    }

    fn s(&mut self, bit: usize) {
    }

    fn cx(&mut self, control: usize, target: usize) {
    }

    fn cz(&mut self, bit_a: usize, bit_b: usize) {
    }

    /// A random outcome.
    fn measure(&mut self, bit: usize) -> (r: Option<bool>)
        ensures
            r is Some,
    {
        Some(random_bool())
    }
}

/// A Clifford circuit together with a Pauli tracker, so that the circuit can be built up
/// while the Pauli gates that are to be extracted from it (the corrections in
/// measurement-based quantum computing) are tracked; `storage` takes the stacks of the
/// measured qubits.
pub struct TrackedCircuit<Circuit, Tracker, Storage> {
    /// The circuit.
    pub circuit: Circuit,
    /// The tracker of the Pauli frames.
    pub tracker: Tracker,
    /// The stacks of the measured qubits.
    pub storage: Storage,
}

impl<C, T: Tracker, S> TrackedCircuit<C, T, S> {
    /// Track an X on the qubit.
    pub fn track_x(&mut self, bit: usize)
        ensures
            T::pauli_tracked(old(self).tracker, final(self).tracker, bit, (true, false)),
            final(self).circuit == old(self).circuit,
            final(self).storage == old(self).storage,
    {
        self.tracker.track_x(bit);
    }

    /// Track a Y on the qubit.
    pub fn track_y(&mut self, bit: usize)
        ensures
            T::pauli_tracked(old(self).tracker, final(self).tracker, bit, (true, true)),
            final(self).circuit == old(self).circuit,
            final(self).storage == old(self).storage,
    {
        self.tracker.track_y(bit);
    }

    /// Track a Z on the qubit.
    pub fn track_z(&mut self, bit: usize)
        ensures
            T::pauli_tracked(old(self).tracker, final(self).tracker, bit, (false, true)),
            final(self).circuit == old(self).circuit,
            final(self).storage == old(self).storage,
    {
        self.tracker.track_z(bit);
    }

    /// In the tracker, move the Z stack of `source` onto the X stack of `destination`.
    pub fn move_z_to_x(&mut self, source: usize, destination: usize)
        ensures
            T::moved(old(self).tracker, final(self).tracker, source, destination, true, false),
            final(self).circuit == old(self).circuit,
            final(self).storage == old(self).storage,
    {
        self.tracker.move_z_to_x(source, destination);
    }

    /// In the tracker, move the Z stack of `source` onto the Z stack of `destination`.
    pub fn move_z_to_z(&mut self, source: usize, destination: usize)
        ensures
            T::moved(old(self).tracker, final(self).tracker, source, destination, true, true),
            final(self).circuit == old(self).circuit,
            final(self).storage == old(self).storage,
    {
        self.tracker.move_z_to_z(source, destination);
    }
}

impl<C: CliffordCircuit, T, S> TrackedCircuit<C, T, S> {
    /// Apply the X gate on the circuit.
    pub fn x(&mut self, bit: usize)
        ensures
            C::applied(old(self).circuit, final(self).circuit, Gate::X(bit)),
            final(self).tracker == old(self).tracker,
            final(self).storage == old(self).storage,
    {
        self.circuit.x(bit);
    }

    /// Apply the Y gate on the circuit.
    pub fn y(&mut self, bit: usize)
        ensures
            C::applied(old(self).circuit, final(self).circuit, Gate::Y(bit)),
            final(self).tracker == old(self).tracker,
            final(self).storage == old(self).storage,
    {
        self.circuit.y(bit);
    }

    /// Apply the Z gate on the circuit.
    pub fn z(&mut self, bit: usize)
        ensures
            C::applied(old(self).circuit, final(self).circuit, Gate::Z(bit)),
            final(self).tracker == old(self).tracker,
            final(self).storage == old(self).storage,
    {
        self.circuit.z(bit);
    }
}

impl<C: CliffordCircuit, T: Tracker, S> TrackedCircuit<C, T, S> {
    /// Apply the H gate on the circuit and in the tracker.
    pub fn h(&mut self, bit: usize)
        ensures
            C::applied(old(self).circuit, final(self).circuit, Gate::H(bit)),
            T::gate_applied(old(self).tracker, final(self).tracker, Gate::H(bit)),
            final(self).storage == old(self).storage,
    {
        self.circuit.h(bit);
        self.tracker.h(bit);
    }

    /// Apply the S gate on the circuit and in the tracker.
    pub fn s(&mut self, bit: usize)
        ensures
            C::applied(old(self).circuit, final(self).circuit, Gate::S(bit)),
            T::gate_applied(old(self).tracker, final(self).tracker, Gate::S(bit)),
            final(self).storage == old(self).storage,
    {
        self.circuit.s(bit);
        self.tracker.s(bit);
    }

    /// Apply the Control X (Control Not) gate on the circuit and in the tracker.
    pub fn cx(&mut self, control: usize, target: usize)
        ensures
            C::applied(old(self).circuit, final(self).circuit, Gate::CX(control, target)),
            T::gate_applied(old(self).tracker, final(self).tracker, Gate::CX(control, target)),
            final(self).storage == old(self).storage,
    {
        self.circuit.cx(control, target);
        self.tracker.cx(control, target);
    }

    /// Apply the Control Z gate on the circuit and in the tracker.
    pub fn cz(&mut self, control: usize, target: usize)
        ensures
            C::applied(old(self).circuit, final(self).circuit, Gate::CZ(control, target)),
            T::gate_applied(old(self).tracker, final(self).tracker, Gate::CZ(control, target)),
            final(self).storage == old(self).storage,
    {
        self.circuit.cz(control, target);
        self.tracker.cz(control, target);
    }
}

impl<C: CliffordCircuit, A: PauliStorage, S: PauliStorage> TrackedCircuit<C, Frames<A>, S> {
    /// Measure the qubit, which the tracker must hold, on the circuit, and move its stack
    /// from the tracker into `storage`.
    pub fn measure(&mut self, bit: usize)
        requires
            old(self).tracker.stacks().contains_key(bit),
        ensures
            final(self).tracker.num() == old(self).tracker.num(),
            final(self).tracker.stacks() == old(self).tracker.stacks().remove(bit),
            !old(self).storage.stacks().contains_key(bit) ==> final(self).storage.stacks() == old(
                self,
            ).storage.stacks().insert(bit, old(self).tracker.stacks()[bit]),
            exists|outcome: Option<bool>| C::measured(old(self).circuit, final(self).circuit, bit, outcome),
    {
        let outcome = self.circuit.measure(bit);
        let ghost measured_circuit = self.circuit;
        self.tracker.measure_and_store(bit, &mut self.storage);
        proof {
            assert(self.circuit == measured_circuit);
            assert(C::measured(old(self).circuit, self.circuit, bit, outcome));
        }
    }
}

impl<C: CliffordCircuit, A: PauliStorage> TrackedCircuit<C, Frames<A>, ()> {
    /// Measure the qubit on the circuit; the tracker keeps its stack.
    pub fn measure(&mut self, bit: usize)
        ensures
            final(self).tracker == old(self).tracker,
            exists|outcome: Option<bool>| C::measured(old(self).circuit, final(self).circuit, bit, outcome),
    {
        let outcome = self.circuit.measure(bit);
        proof {
            assert(C::measured(old(self).circuit, self.circuit, bit, outcome));
        }
    }
}

} // verus!
