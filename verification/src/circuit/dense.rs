//! A compact circuit description: the gates without their qubits in one vector, the
//! qubits of all gates in another.
use vstd::prelude::*;

use super::simple;

verus! {

/// A subset of the Clifford gates, without the qubits they act on.
#[derive(Clone, Copy, PartialEq, Eq, Structural, Debug)]
pub enum Gate {
    /// Pauli X (one qubit).
    X,
    /// Control Not (two qubits).
    Cnot,
    /// Unspecified measurement (one qubit).
    Measure,
}

/// A circuit: the gates in order, and the qubits they act on, in order.
#[derive(Debug)]
pub struct Circuit {
    gates: Vec<Gate>,
    gate_bits: Vec<usize>,
}

/// A position in a [Circuit]: the next gate and the next of its qubits.
pub struct Iter<'c> {
    circuit: &'c Circuit,
    current_gate: usize,
    current_gate_bit: usize,
    len: usize,
}

/// The number of qubits a gate acts on.
pub open spec fn arity(gate: Gate) -> nat {
    match gate {
        Gate::Cnot => 2,
        _ => 1,
    }
}

/// The number of qubits of all the gates together.
pub open spec fn bits_needed(gates: Seq<Gate>) -> nat
    decreases gates.len(),
{
    if gates.len() == 0 {
        0
    } else {
        bits_needed(gates.drop_last()) + arity(gates.last())
    }
}

/// A gate together with its qubits, which start at `first` among `bits`.
pub open spec fn with_bits(gate: Gate, bits: Seq<usize>, first: int) -> simple::Gate {
    match gate {
        Gate::X => simple::Gate::X(bits[first]),
        Gate::Cnot => simple::Gate::CX(bits[first], bits[first + 1]),
        Gate::Measure => simple::Gate::Measure(bits[first]),
    }
}

/// The gates before a position need no more qubits than all gates.
pub proof fn lemma_bits_needed_prefix(gates: Seq<Gate>, i: int)
    requires
        0 <= i <= gates.len(),
    ensures
        bits_needed(gates.take(i)) <= bits_needed(gates),
        i < gates.len() ==> bits_needed(gates.take(i + 1)) == bits_needed(gates.take(i)) + arity(gates[i]),
    decreases gates.len() - i,
{
    if i < gates.len() {
        assert(gates.take(i + 1).drop_last() =~= gates.take(i));
        lemma_bits_needed_prefix(gates, i + 1);
    } else {
        assert(gates.take(i) =~= gates);
    }
}

impl Circuit {
    /// The gates.
    pub closed spec fn gate_list(&self) -> Seq<Gate> {
        self.gates@
    }

    /// The qubits of the gates.
    pub closed spec fn bit_list(&self) -> Seq<usize> {
        self.gate_bits@
    }

    #[verifier::type_invariant]
    spec fn bits_match(&self) -> bool {
        bits_needed(self.gates@) == self.gate_bits@.len()
    }

    /// An empty circuit.
    pub fn new() -> (r: Self)
        ensures
            r.gate_list() == Seq::<Gate>::empty(),
            r.bit_list() == Seq::<usize>::empty(),
    {
        Self { gates: Vec::new(), gate_bits: Vec::new() }
    }

    /// Append an X on the qubit.
    pub fn x(&mut self, bit: usize)
        ensures
            final(self).gate_list() == old(self).gate_list().push(Gate::X),
            final(self).bit_list() == old(self).bit_list().push(bit),
    {
        let mut this = Self::new();
        std::mem::swap(self, &mut this);
        proof {
            use_type_invariant(&this);
        }
        let Circuit { mut gates, mut gate_bits } = this;
        let ghost before = gates@;
        gates.push(Gate::X);
        gate_bits.push(bit);
        proof {
            assert(gates@.drop_last() =~= before);
        }
        *self = Circuit { gates, gate_bits };
    }

    /// An iterator over the gates with their qubits, from the first.
    pub fn iter(&self) -> (r: Iter<'_>)
        ensures
            r.gates() == self.gate_list(),
            r.bits() == self.bit_list(),
            r.position() == (0nat, 0nat),
            r.remaining_gates() == self.gate_list().len(),
    {
        proof {
            use_type_invariant(self);
            assert(self.gates@.take(0) =~= Seq::<Gate>::empty());
        }
        Iter { circuit: self, current_gate: 0, current_gate_bit: 0, len: self.gates.len() }
    }
}

impl<'c> Iter<'c> {
    /// The gates of the circuit.
    pub closed spec fn gates(&self) -> Seq<Gate> {
        self.circuit.gates@
    }

    /// The qubits of the gates.
    pub closed spec fn bits(&self) -> Seq<usize> {
        self.circuit.gate_bits@
    }

    /// The index of the next gate and of its first qubit.
    pub closed spec fn position(&self) -> (nat, nat) {
        (self.current_gate as nat, self.current_gate_bit as nat)
    }

    /// The number of gates of the circuit.
    pub closed spec fn remaining_gates(&self) -> nat {
        self.len as nat
    }

    #[verifier::type_invariant]
    spec fn at_gate(&self) -> bool {
        &&& self.len == self.circuit.gates@.len()
        &&& self.current_gate <= self.len
        &&& self.current_gate_bit == bits_needed(self.circuit.gates@.take(self.current_gate as int))
    }

    /// The next gate with its qubits; the position moves past that gate and its qubits.
    /// [None] at the end, where nothing changes.
    pub fn next(&mut self) -> (r: Option<simple::Gate>)
        ensures
            final(self).gates() == old(self).gates(),
            final(self).bits() == old(self).bits(),
            final(self).remaining_gates() == old(self).remaining_gates(),
            old(self).position().0 < old(self).gates().len() ==> {
                let (g, b) = old(self).position();
                &&& r == Some(with_bits(old(self).gates()[g as int], old(self).bits(), b as int))
                &&& final(self).position() == (g + 1, b + arity(old(self).gates()[g as int]))
            },
            old(self).position().0 >= old(self).gates().len() ==> r is None && final(self).position()
                == old(self).position(),
    {
        proof {
            use_type_invariant(&*self);
            use_type_invariant(self.circuit);
            lemma_bits_needed_prefix(self.circuit.gates@, self.current_gate as int);
            if self.current_gate < self.len {
                lemma_bits_needed_prefix(self.circuit.gates@, self.current_gate + 1);
            }
        }
        if self.current_gate >= self.len {
            return None;
        }
        let g = self.current_gate;
        let b = self.current_gate_bit;
        let _num_bits = self.circuit.gate_bits.len();
        let gate = match self.circuit.gates[g] {
            Gate::X => simple::Gate::X(self.circuit.gate_bits[b]),
            Gate::Cnot => simple::Gate::CX(self.circuit.gate_bits[b], self.circuit.gate_bits[b + 1]),
            Gate::Measure => simple::Gate::Measure(self.circuit.gate_bits[b]),
        };
        let step = match self.circuit.gates[g] {
            Gate::Cnot => 2,
            _ => 1,
        };
        *self = Iter { circuit: self.circuit, current_gate: g + 1, current_gate_bit: b + step, len: self.len };
        Some(gate)
    }
}

impl Default for Circuit {
    fn default() -> (r: Self)
        ensures
            r.gate_list() == Seq::<Gate>::empty(),
            r.bit_list() == Seq::<usize>::empty(),
    {
        Self::new()
    }
}

} // verus!
