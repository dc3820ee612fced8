//! Tracking of Pauli frames through Clifford circuits.
//!
//! A Pauli operator (neglecting phases) is a pair of bits: whether it contains an X
//! and whether it contains a Z. Clifford gates map Pauli operators to Pauli operators,
//! so the Paulis produced by non-deterministic measurements can be "pushed" through a
//! Clifford circuit and accounted for in post-processing.
use vstd::prelude::*;

pub mod analyse;
pub mod bits;
pub mod bool_vector;
pub mod boolean_vector;
pub mod circuit;
pub mod collection;
pub mod graph;
pub mod pauli;
pub mod pauli_frame;
pub mod scheduler;
pub mod serialization;
pub mod tracker;

verus! {

} // verus!
