//! A Pauli operator as a plain pair of booleans.
use vstd::prelude::*;

use super::{Pauli, PauliDense};

verus! {

/// A Pauli operator stored as the pair (X component, Z component).
#[derive(Clone, Copy, PartialEq, Eq, Structural, PartialOrd, Ord, Hash, Debug)]
pub struct PauliTuple(pub bool, pub bool);

impl Pauli for PauliTuple {
    open spec fn xz(&self) -> (bool, bool) {
        (self.0, self.1)
    }

    fn new(x: bool, z: bool) -> (r: Self) {
        Self(x, z)
    }

    fn new_i() -> (r: Self) {
        Self(false, false)
    }

    fn new_x() -> (r: Self) {
        Self(true, false)
    }

    fn new_y() -> (r: Self) {
        Self(true, true)
    }

    fn new_z() -> (r: Self) {
        Self(false, true)
    }

    fn add(&mut self, other: Self) {
        self.0 ^= other.0;
        self.1 ^= other.1;
    }

    fn h(&mut self) {
        let x = self.0;
        self.0 = self.1;
        self.1 = x;
    }

    fn s(&mut self) {
        self.1 ^= self.0;
    }

    fn xpx(&mut self, other: &Self) {
        self.0 ^= other.0;
    }

    fn xpz(&mut self, other: &Self) {
        self.1 ^= other.0;
    }

    fn zpx(&mut self, other: &Self) {
        self.0 ^= other.1;
    }

    fn zpz(&mut self, other: &Self) {
        self.1 ^= other.1;
    }

    fn get_x(&self) -> (r: bool) {
        self.0
    }

    fn get_z(&self) -> (r: bool) {
        self.1
    }

    fn set_x(&mut self, x: bool) {
        self.0 = x;
    }

    fn set_z(&mut self, z: bool) {
        self.1 = z;
    }
}

impl From<PauliDense> for PauliTuple {
    fn from(pauli: PauliDense) -> (r: Self) {
        Self::new(pauli.get_x(), pauli.get_z())
    }
}

impl vstd::std_specs::convert::FromSpecImpl<PauliDense> for PauliTuple {
    open spec fn obeys_from_spec() -> bool {
        true
    }

    open spec fn from_spec(v: PauliDense) -> Self {
        PauliTuple(v.xz().0, v.xz().1)
    }
}

} // verus!
