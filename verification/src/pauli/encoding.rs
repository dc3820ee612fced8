//! Pauli encoding into two bits: the X bit has value 2, the Z bit value 1.
use vstd::prelude::*;

verus! {

/// Code for the identity.
pub const I: u8 = 0;
/// Code for the Pauli X gate.
pub const X: u8 = 2;
/// Code for the Pauli Y gate.
pub const Y: u8 = 3;
/// Code for the Pauli Z gate.
pub const Z: u8 = 1;

} // verus!
