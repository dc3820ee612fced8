//! A circuit that does nothing.
use vstd::prelude::*;

verus! {

/// A circuit whose gates and measurements do nothing.
#[derive(Clone, Copy, PartialEq, Eq, Structural, PartialOrd, Ord, Hash, Debug)]
pub struct DummyCircuit {}

impl Default for DummyCircuit {
    fn default() -> (r: Self)
        ensures
            r == (DummyCircuit {}),
    {
        DummyCircuit {}
    }
}

impl DummyCircuit {
    /// Apply the X gate: nothing happens.
    pub fn x(&mut self, bit: usize) {
    }

    /// Apply the Y gate: nothing happens.
    pub fn y(&mut self, bit: usize) {
    }

    /// Apply the Z gate: nothing happens.
    pub fn z(&mut self, bit: usize) {
    }

    /// Apply the H gate: nothing happens.
    pub fn h(&mut self, bit: usize) {
    }

    /// Apply the S gate: nothing happens.
    pub fn s(&mut self, bit: usize) {
    }

    /// Apply the Control X gate: nothing happens.
    pub fn cx(&mut self, control: usize, target: usize) {
    }

    /// Apply the Control Z gate: nothing happens.
    pub fn cz(&mut self, bit_a: usize, bit_b: usize) {
    }

    /// Measure: nothing happens, and there is no outcome.
    pub fn measure(&mut self, bit: usize) {
    }
}

} // verus!
