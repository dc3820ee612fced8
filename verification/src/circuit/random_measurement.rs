//! A circuit whose measurements have random outcomes.
use vstd::prelude::*;

use super::random_bool;

verus! {

/// A circuit whose gates do nothing and whose measurements return random booleans.
#[derive(Clone, Copy, PartialEq, Eq, Structural, PartialOrd, Ord, Hash, Debug)]
pub struct RandomMeasurementCircuit {}

impl Default for RandomMeasurementCircuit {
    fn default() -> (r: Self)
        ensures
            r == (RandomMeasurementCircuit {}),
    {
        RandomMeasurementCircuit {}
    }
}

impl RandomMeasurementCircuit {
    /// Apply the X gate: nothing happens.
    pub fn x(&mut self, bit: usize) {
    }

    /// Apply the Y gate: nothing happens.
    pub fn y(&mut self, bit: usize) {
    }

    /// Apply the Z gate: nothing happens.
    pub fn z(&mut self, bit: usize) {
    }

    /// Apply the H gate: nothing happens.
    pub fn h(&mut self, bit: usize) {
    }

    /// Apply the S gate: nothing happens.
    pub fn s(&mut self, bit: usize) {
    }

    /// Apply the Control X gate: nothing happens.
    pub fn cx(&mut self, control: usize, target: usize) {
    }

    /// Apply the Control Z gate: nothing happens.
    pub fn cz(&mut self, bit_a: usize, bit_b: usize) {
    }

    /// Measure: a random outcome.
    pub fn measure(&mut self, bit: usize) -> bool {
        random_bool()
    }
}

} // verus!
