//! Analysis of measurement orders on graph states under a time ordering.
use vstd::prelude::*;

pub mod combinatoric;
pub mod schedule;
pub mod space;

verus! {

/// The time ordering of measurements: layers of bits, each bit with the bits it
/// depends on, which are in earlier layers.
pub type DependencyGraph = Vec<Vec<(usize, Vec<usize>)>>;

} // verus!
