//! The quantum memory required when the qubits of a graph state are measured set by
//! set.
//!
//! Measuring a qubit requires that all its neighbors are in memory; sleeping neighbors
//! are initialized. While a set is measured, the measured qubits occupy memory together
//! with all qubits in memory.
use std::collections::HashMap;

use vstd::prelude::*;

use super::time::{copy_step, Step};
use super::tree::{self, Focus};
use crate::graph::{
    adjacency_without_loops, count_of, edges_in_range, lemma_adjacency_without_loops_shape,
    lemma_count_of_absent, lemma_count_of_bound, lemma_count_of_same_positions,
    lemma_count_of_update,
};

verus! {

broadcast use vstd::std_specs::hash::group_hash_axioms;

/// The state of a qubit.
#[derive(Copy, Clone, PartialEq, Eq, Structural, PartialOrd, Ord, Hash, Debug)]
pub enum State {
    /// Not yet initialized.
    Sleeping,
    /// Initialized.
    InMemory,
    /// Measured.
    Measured,
}

impl Default for State {
    fn default() -> (r: Self)
        ensures
            r == State::Sleeping,
    {
        State::Sleeping
    }
}

/// The operation that met a measured qubit.
#[derive(Debug, Clone, Copy, PartialEq, Eq, Structural)]
pub enum Operation {
    /// The qubit was to be initialized.
    Initialize,
    /// The qubit was to be measured.
    Measure,
}

/// The error when an operation meets a qubit that is already measured.
#[derive(Debug, Clone, Copy, PartialEq, Eq, Structural)]
pub struct AlreadyMeasured {
    bit: usize,
    operation: Operation,
}

impl AlreadyMeasured {
    /// The qubit that is already measured.
    pub closed spec fn measured_bit(&self) -> usize {
        self.bit
    }

    /// The operation that met it.
    pub closed spec fn failed_operation(&self) -> Operation {
        self.operation
    }
}

/// The state after an initialization: sleeping qubits are put into memory.
pub open spec fn initialized(s: State) -> State {
    if s == State::Sleeping {
        State::InMemory
    } else {
        s
    }
}

/// The bit after the renaming `mapping`, if there is one.
pub open spec fn renamed(mapping: Option<Map<usize, usize>>, bit: usize) -> usize {
    match mapping {
        Some(m) => m[bit],
        None => bit,
    }
}

/// Every end of every edge has a new name in the mapping, if there is one.
pub open spec fn all_renamed(edges: Seq<(usize, usize)>, mapping: Option<Map<usize, usize>>) -> bool {
    mapping matches Some(m) ==> forall|i: int|
        0 <= i < edges.len() ==> m.contains_key((#[trigger] edges[i]).0) && m.contains_key(
            edges[i].1,
        )
}

/// The edges after renaming their ends.
pub open spec fn renamed_edges(edges: Seq<(usize, usize)>, mapping: Option<Map<usize, usize>>) -> Seq<
    (usize, usize),
> {
    Seq::new(edges.len(), |i: int| (renamed(mapping, edges[i].0), renamed(mapping, edges[i].1)))
}

/// The states after measuring `bit`: its neighbors are initialized and it is measured.
pub open spec fn measure_states(s: Seq<State>, lists: Seq<Seq<usize>>, bit: usize) -> Seq<State> {
    Seq::new(
        s.len(),
        |n: int|
            if n == bit {
                State::Measured
            } else if lists[bit as int].contains(n as usize) {
                initialized(s[n])
            } else {
                s[n]
            },
    )
}

/// The states after measuring the bits of `set` one after the other, and the first bit
/// that was already measured, at which the measuring stopped (after initializing its
/// neighbors).
pub open spec fn measure_round(s: Seq<State>, lists: Seq<Seq<usize>>, set: Seq<usize>) -> (Seq<
    State,
>, Option<usize>)
    decreases set.len(),
{
    if set.len() == 0 {
        (s, None)
    } else {
        let (prev, err) = measure_round(s, lists, set.drop_last());
        if err is Some {
            (prev, err)
        } else if prev[set.last() as int] == State::Measured {
            (measure_states(prev, lists, set.last()), Some(set.last()))
        } else {
            (measure_states(prev, lists, set.last()), None)
        }
    }
}

/// The larger of two numbers.
pub open spec fn max_of(a: nat, b: nat) -> nat {
    if a >= b { a } else { b }
}

/// The qubits of a graph state with their states, and the currently and maximally
/// required quantum memory.
#[derive(PartialEq, Eq, Debug)]
pub struct Graph {
    space: Vec<(State, Vec<usize>)>,
    current_memory: usize,
    max_memory: usize,
}

impl Graph {
    /// The states of the qubits.
    pub closed spec fn states(&self) -> Seq<State> {
        Seq::new(self.space@.len(), |i: int| self.space@[i].0)
    }

    /// The neighbors of the qubits.
    pub closed spec fn lists(&self) -> Seq<Seq<usize>> {
        Seq::new(self.space@.len(), |i: int| self.space@[i].1@)
    }

    /// The currently required memory.
    pub closed spec fn now(&self) -> nat {
        self.current_memory as nat
    }

    /// The maximally required memory so far.
    pub closed spec fn peak(&self) -> nat {
        self.max_memory as nat
    }

    /// The neighbors are other qubits of the graph, and the current memory counts at
    /// least the qubits in memory.
    pub closed spec fn wf(&self) -> bool {
        &&& forall|i: int, j: int|
            0 <= i < self.space@.len() && 0 <= j < self.space@[i].1@.len() ==> {
                &&& #[trigger] self.space@[i].1@[j] < self.space@.len()
                &&& self.space@[i].1@[j] != i
            }
        &&& self.current_memory >= count_of(self.states(), State::InMemory)
    }

    /// Whether the bits of `set` may be measured: they are qubits of the graph, and the
    /// memory cannot exceed the range of `usize`.
    pub open spec fn can_measure(&self, set: Seq<usize>) -> bool {
        &&& self.wf()
        &&& forall|i: int| 0 <= i < set.len() ==> #[trigger] set[i] < self.states().len()
        &&& self.now() + count_of(self.states(), State::Sleeping) <= usize::MAX
    }

    /// Whether `new` is `old` after measuring the bits of `set` one after the other
    /// (see [measure_round]), with the outcome `result`. On success, the peak takes the
    /// memory at the end of the measurements, and then the measured qubits are
    /// released; after an error, the states are those at the failing bit.
    pub open spec fn updated(old: Self, new: Self, set: Seq<usize>, result: Result<(), AlreadyMeasured>) -> bool {
        let (states, err) = measure_round(old.states(), old.lists(), set);
        let during = old.now() + count_of(old.states(), State::Sleeping) - count_of(
            states,
            State::Sleeping,
        );
        &&& new.wf()
        &&& new.lists() == old.lists()
        &&& new.states() == states
        &&& match result {
            Ok(()) => {
                &&& err is None
                &&& new.peak() == max_of(old.peak(), during as nat)
                &&& new.now() == during - set.len()
            },
            Err(e) => {
                &&& err == Some(e.measured_bit())
                &&& e.failed_operation() == Operation::Measure
                &&& new.peak() == old.peak()
                &&& new.now() == during
            },
        }
    }

    /// Measuring a set of qubits needs, at that moment, the qubits left in memory
    /// afterwards and every measured qubit of the set: the maximal memory becomes the
    /// larger of the one before and that number.
    pub proof fn lemma_updated_counts_measured_qubits(old: Self, new: Self, set: Seq<usize>)
        requires
            Self::updated(old, new, set, Ok(())),
        ensures
            new.peak() >= old.peak(),
            new.peak() >= new.now() + set.len(),
            new.peak() == old.peak() || new.peak() == new.now() + set.len(),
    {
    }

    /// Create a graph with `num_bits` sleeping qubits and the edges, whose ends are
    /// first renamed by `bit_mapping`; edges from a qubit to itself are skipped.
    pub fn new(num_bits: usize, edges: &[(usize, usize)], bit_mapping: Option<&HashMap<usize, usize>>) -> (r: Self)
        requires
            all_renamed(
                edges@,
                match bit_mapping {
                    Some(m) => Some(m@),
                    None => None,
                },
            ),
            edges_in_range(
                renamed_edges(
                    edges@,
                    match bit_mapping {
                        Some(m) => Some(m@),
                        None => None,
                    },
                ),
                num_bits as nat,
            ),
        ensures
            r.wf(),
            r.states() == Seq::new(num_bits as nat, |_i: int| State::Sleeping),
            r.lists() == adjacency_without_loops(
                renamed_edges(
                    edges@,
                    match bit_mapping {
                        Some(m) => Some(m@),
                        None => None,
                    },
                ),
                num_bits as nat,
            ),
            r.now() == 0,
            r.peak() == 0,
    {
        let ghost mapping = match bit_mapping {
            Some(m) => Some(m@),
            None => None,
        };
        let ghost mapped = renamed_edges(edges@, mapping);
        let mut nodes: Vec<(State, Vec<usize>)> = Vec::new();
        let mut i: usize = 0;
        while i < num_bits
            invariant
                i <= num_bits,
                nodes@.len() == i,
                forall|k: int| 0 <= k < i ==> (#[trigger] nodes@[k]).0 == State::Sleeping
                    && nodes@[k].1@.len() == 0,
            decreases num_bits - i,
        {
            nodes.push((State::Sleeping, Vec::new()));
            i += 1;
        }
        let mut k: usize = 0;
        while k < edges.len()
            invariant
                all_renamed(edges@, mapping),
                edges_in_range(mapped, num_bits as nat),
                mapped == renamed_edges(edges@, mapping),
                mapping == (match bit_mapping {
                    Some(m) => Some(m@),
                    None => None,
                }),
                k <= edges@.len(),
                nodes@.len() == num_bits,
                forall|m: int| 0 <= m < num_bits ==> (#[trigger] nodes@[m]).0 == State::Sleeping,
                forall|m: int| 0 <= m < num_bits ==> (#[trigger] nodes@[m]).1@
                    == adjacency_without_loops(mapped.take(k as int), num_bits as nat)[m],
            decreases edges@.len() - k,
        {
            let (l, r) = edges[k];
            let left = match bit_mapping {
                Some(m) => match m.get(&l) {
                    Some(v) => *v,
                    None => {
                        proof {
                            assert(m@.contains_key(edges@[k as int].0));
                        }
                        l
                    },
                },
                None => l,
            };
            let right = match bit_mapping {
                Some(m) => match m.get(&r) {
                    Some(v) => *v,
                    None => {
                        proof {
                            assert(m@.contains_key(edges@[k as int].1));
                        }
                        r
                    },
                },
                None => r,
            };
            proof {
                assert(mapped[k as int] == (left, right));
                assert(mapped.take(k + 1).drop_last() =~= mapped.take(k as int));
                assert(mapped.take(k + 1).last() == (left, right));
                assert(left < num_bits && right < num_bits);
                assert(edges_in_range(mapped.take(k as int), num_bits as nat));
                lemma_adjacency_without_loops_shape(mapped.take(k as int), num_bits as nat);
            }
            if left != right {
                nodes[left].1.push(right);
                nodes[right].1.push(left);
            }
            k += 1;
        }
        let r = Self { space: nodes, current_memory: 0, max_memory: 0 };
        proof {
            assert(mapped.take(edges@.len() as int) =~= mapped);
            lemma_adjacency_without_loops_shape(mapped, num_bits as nat);
            assert(r.states() =~= Seq::new(num_bits as nat, |_i: int| State::Sleeping));
            assert(r.lists() =~= adjacency_without_loops(mapped, num_bits as nat));
            lemma_count_of_absent(r.states(), State::InMemory);
            assert forall|a: int, b: int|
                0 <= a < r.space@.len() && 0 <= b < r.space@[a].1@.len() implies {
                &&& #[trigger] r.space@[a].1@[b] < r.space@.len()
                &&& r.space@[a].1@[b] != a
            } by {
                assert(r.space@[a].1@ == r.lists()[a]);
            }
        }
        r
    }

    /// Measure the bits one after the other, stopping at the first that is already
    /// measured; on success, the maximal memory takes the memory at the end, and the
    /// measured qubits are released.
    pub fn update(&mut self, bits: &[usize]) -> (r: Result<(), AlreadyMeasured>)
        requires
            old(self).can_measure(bits@),
        ensures
            Self::updated(*old(self), *final(self), bits@, r),
    {
        let ghost s0 = self.states();
        let ghost lists = self.lists();
        let ghost total = self.now() + count_of(s0, State::Sleeping);
        let mut i: usize = 0;
        while i < bits.len()
            invariant
                self.wf(),
                self.lists() == lists,
                self.peak() == old(self).peak(),
                s0 == old(self).states(),
                lists == old(self).lists(),
                total == old(self).now() + count_of(s0, State::Sleeping),
                total <= usize::MAX,
                forall|k: int| 0 <= k < bits@.len() ==> #[trigger] bits@[k] < s0.len(),
                i <= bits@.len(),
                self.states().len() == s0.len(),
                measure_round(s0, lists, bits@.take(i as int)) == (self.states(), None::<usize>),
                self.now() + count_of(self.states(), State::Sleeping) == total,
                self.now() - count_of(self.states(), State::InMemory) >= i,
            decreases bits@.len() - i,
        {
            let bit = bits[i];
            proof {
                assert(bits@.take(i + 1).drop_last() =~= bits@.take(i as int));
                assert(bits@.take(i + 1).last() == bit);
            }
            match self.measure(bit) {
                Ok(()) => {},
                Err(e) => {
                    proof {
                        lemma_round_error_sticks(s0, lists, bits@, i + 1);
                    }
                    return Err(e);
                },
            }
            i += 1;
        }
        proof {
            assert(bits@.take(bits@.len() as int) =~= bits@);
            lemma_count_of_bound(self.states(), State::InMemory);
        }
        if self.current_memory > self.max_memory {
            self.max_memory = self.current_memory;
        }
        self.current_memory -= bits.len();
        Ok(())
    }

    /// The maximally required memory so far.
    pub fn max_memory(&self) -> (r: usize)
        ensures
            r == self.peak(),
    {
        self.max_memory
    }

    // a neighbor of a measured qubit is initialized, unless it is measured
    fn initialize(&mut self, bit: usize) -> (r: Result<(), AlreadyMeasured>)
        requires
            old(self).wf(),
            bit < old(self).states().len(),
            old(self).now() + count_of(old(self).states(), State::Sleeping) <= usize::MAX,
        ensures
            final(self).wf(),
            final(self).states() == old(self).states().update(
                bit as int,
                initialized(old(self).states()[bit as int]),
            ),
            forall|i: int| 0 <= i < old(self).space@.len() ==> #[trigger] final(self).space@[i].1
                == old(self).space@[i].1,
            final(self).space@.len() == old(self).space@.len(),
            final(self).peak() == old(self).peak(),
            final(self).now() + count_of(final(self).states(), State::Sleeping) == old(self).now()
                + count_of(old(self).states(), State::Sleeping),
            final(self).now() - count_of(final(self).states(), State::InMemory) == old(self).now()
                - count_of(old(self).states(), State::InMemory),
            r matches Err(e) ==> e.measured_bit() == bit && e.failed_operation()
                == Operation::Initialize,
            r is Err <==> old(self).states()[bit as int] == State::Measured,
    {
        let ghost s0 = self.states();
        let ghost v = initialized(s0[bit as int]);
        proof {
            lemma_count_of_update(s0, bit as int, v, State::InMemory);
            lemma_count_of_update(s0, bit as int, v, State::Sleeping);
            lemma_count_of_bound(s0, State::Sleeping);
            assert(self.space@[bit as int].0 == s0[bit as int]);
        }
        let r = match &mut self.space[bit].0 {
            state @ State::Sleeping => {
                *state = State::InMemory;
                self.current_memory += 1;
                Ok(())
            },
            State::InMemory => Ok(()),
            State::Measured => Err(AlreadyMeasured { bit, operation: Operation::Initialize }),
        };
        proof {
            assert(self.states() =~= s0.update(bit as int, v));
            assert forall|i: int, j: int|
                0 <= i < self.space@.len() && 0 <= j < self.space@[i].1@.len() implies {
                &&& #[trigger] self.space@[i].1@[j] < self.space@.len()
                &&& self.space@[i].1@[j] != i
            } by {
                assert(self.space@[i].1@ == old(self).space@[i].1@);
            }
        }
        r
    }

    // measure a qubit: its neighbors are initialized, then it is measured
    fn measure(&mut self, bit: usize) -> (r: Result<(), AlreadyMeasured>)
        requires
            old(self).wf(),
            bit < old(self).states().len(),
            old(self).now() + count_of(old(self).states(), State::Sleeping) <= usize::MAX,
        ensures
            final(self).wf(),
            final(self).lists() == old(self).lists(),
            final(self).peak() == old(self).peak(),
            final(self).states() == measure_states(old(self).states(), old(self).lists(), bit),
            r is Err <==> old(self).states()[bit as int] == State::Measured,
            r matches Err(e) ==> e.measured_bit() == bit && e.failed_operation() == Operation::Measure,
            final(self).now() + count_of(final(self).states(), State::Sleeping) == old(self).now()
                + count_of(old(self).states(), State::Sleeping),
            r is Ok ==> final(self).now() - count_of(final(self).states(), State::InMemory) == old(
                self).now() - count_of(old(self).states(), State::InMemory) + 1,
    {
        let ghost s0 = self.states();
        let ghost lists = self.lists();
        let len = self.space.len();
        let mut neighbors: Vec<usize> = Vec::new();
        std::mem::swap(&mut neighbors, &mut self.space[bit].1);
        proof {
            assert(neighbors@ == lists[bit as int]);
            assert(self.states() =~= s0);
            assert forall|i: int, j: int|
                0 <= i < self.space@.len() && 0 <= j < self.space@[i].1@.len() implies {
                &&& #[trigger] self.space@[i].1@[j] < self.space@.len()
                &&& self.space@[i].1@[j] != i
            } by {
                assert(self.space@[i].1@ == old(self).space@[i].1@);
            }
            assert forall|k: int| 0 <= k < neighbors@.len() implies #[trigger] neighbors@[k] < len
                && neighbors@[k] != bit by {
                assert(old(self).space@[bit as int].1@[k] == neighbors@[k]);
            }
        }
        let mut j: usize = 0;
        while j < neighbors.len()
            invariant
                self.wf(),
                len == self.space@.len(),
                bit < len,
                s0.len() == len,
                forall|k: int| 0 <= k < neighbors@.len() ==> #[trigger] neighbors@[k] < len
                    && neighbors@[k] != bit,
                forall|i: int| 0 <= i < len && i != bit ==> #[trigger] self.space@[i].1
                    == old(self).space@[i].1,
                self.space@[bit as int].1@.len() == 0,
                j <= neighbors@.len(),
                self.states() == Seq::new(
                    len as nat,
                    |n: int|
                        if neighbors@.take(j as int).contains(n as usize) {
                            initialized(s0[n])
                        } else {
                            s0[n]
                        },
                ),
                self.peak() == old(self).peak(),
                self.now() + count_of(self.states(), State::Sleeping) == old(self).now()
                    + count_of(s0, State::Sleeping),
                self.now() - count_of(self.states(), State::InMemory) == old(self).now()
                    - count_of(s0, State::InMemory),
                old(self).now() + count_of(s0, State::Sleeping) <= usize::MAX,
            decreases neighbors@.len() - j,
        {
            let n = neighbors[j];
            proof {
                lemma_count_of_bound(self.states(), State::Sleeping);
            }
            let _ = self.initialize(n);
            proof {
                assert forall|m: int| 0 <= m < len implies #[trigger] self.states()[m] == (
                if neighbors@.take(j + 1).contains(m as usize) {
                    initialized(s0[m])
                } else {
                    s0[m]
                }) by {
                    assert(neighbors@.take(j + 1) =~= neighbors@.take(j as int).push(n));
                    if neighbors@.take(j as int).contains(m as usize) {
                        let w = choose|w: int| 0 <= w < j && neighbors@.take(j as int)[w] == m as usize;
                        assert(neighbors@.take(j + 1)[w] == m as usize);
                    }
                    if neighbors@.take(j + 1).contains(m as usize) && !neighbors@.take(
                        j as int,
                    ).contains(m as usize) {
                        assert(m == n);
                    }
                    if m == n as int {
                        assert(neighbors@.take(j + 1)[j as int] == n);
                    }
                }
                assert(self.states() =~= Seq::new(
                    len as nat,
                    |m: int|
                        if neighbors@.take(j + 1).contains(m as usize) {
                            initialized(s0[m])
                        } else {
                            s0[m]
                        },
                ));
            }
            j += 1;
        }
        let ghost s_loop = self.states();
        let ghost nb = neighbors@;
        proof {
            assert(nb.take(nb.len() as int) =~= nb);
            assert(!nb.contains(bit));
            assert(nb == lists[bit as int]);
        }
        std::mem::swap(&mut neighbors, &mut self.space[bit].1);
        let ghost s1 = self.states();
        proof {
            assert(s1 =~= s_loop);
            assert(s1[bit as int] == s0[bit as int]);
            assert(self.lists() =~= lists);
            assert forall|i: int, j: int|
                0 <= i < self.space@.len() && 0 <= j < self.space@[i].1@.len() implies {
                &&& #[trigger] self.space@[i].1@[j] < self.space@.len()
                &&& self.space@[i].1@[j] != i
            } by {
                assert(self.space@[i].1@ == old(self).space@[i].1@);
            }
            lemma_count_of_update(s1, bit as int, State::Measured, State::InMemory);
            lemma_count_of_update(s1, bit as int, State::Measured, State::Sleeping);
            lemma_count_of_bound(s1, State::InMemory);
            lemma_count_of_bound(s1, State::Sleeping);
            assert forall|n: int| 0 <= n < len implies #[trigger] s1.update(bit as int, State::Measured)[n]
                == measure_states(s0, lists, bit)[n] by {
                if n != bit {
                    assert(s1[n] == s_loop[n]);
                }
            }
            assert(s1.update(bit as int, State::Measured) =~= measure_states(s0, lists, bit));
            assert(self.space@[bit as int].0 == s1[bit as int]);
        }
        match self.space[bit].0 {
            State::Sleeping => {
                self.current_memory += 1;
                self.space[bit].0 = State::Measured;
            },
            State::InMemory => self.space[bit].0 = State::Measured,
            State::Measured => {
                proof {
                    assert(s1.update(bit as int, State::Measured) =~= s1);
                }
                return Err(AlreadyMeasured { bit, operation: Operation::Measure });
            },
        }
        proof {
            assert(self.states() =~= measure_states(s0, lists, bit));
            assert(self.lists() =~= lists);
            assert forall|i: int, j: int|
                0 <= i < self.space@.len() && 0 <= j < self.space@[i].1@.len() implies {
                &&& #[trigger] self.space@[i].1@[j] < self.space@.len()
                &&& self.space@[i].1@[j] != i
            } by {
                assert(self.space@[i].1@ == old(self).space@[i].1@);
            }
        }
        Ok(())
    }
}

/// Measuring a set has one outcome: two graphs that result from measuring the same set
/// on the same graph have the same states, neighbors and memory, and agree on the error.
pub proof fn lemma_updated_deterministic(
    old: Graph,
    a: Graph,
    b: Graph,
    set: Seq<usize>,
    ra: Result<(), AlreadyMeasured>,
    rb: Result<(), AlreadyMeasured>,
)
    requires
        Graph::updated(old, a, set, ra),
        Graph::updated(old, b, set, rb),
    ensures
        a.states() == b.states(),
        a.lists() == b.lists(),
        a.now() == b.now(),
        a.peak() == b.peak(),
        ra is Ok <==> rb is Ok,
        ra matches Err(ea) ==> (rb matches Err(eb) && ea.measured_bit() == eb.measured_bit()),
{
}

/// Between the updates with two sets, the current memory is exactly the number of
/// qubits in memory: a successful update keeps that so.
pub proof fn lemma_memory_is_qubits_in_memory(old: Graph, new: Graph, set: Seq<usize>)
    requires
        old.can_measure(set),
        old.now() == count_of(old.states(), State::InMemory),
        Graph::updated(old, new, set, Ok(())),
    ensures
        new.now() == count_of(new.states(), State::InMemory),
{
    lemma_round_measured(old.states(), old.lists(), set);
    lemma_counts_sum(old.states());
    lemma_counts_sum(new.states());
}

/// The number of sleeping, in-memory and measured qubits add up to the number of qubits.
proof fn lemma_counts_sum(s: Seq<State>)
    ensures
        count_of(s, State::Sleeping) + count_of(s, State::InMemory) + count_of(s, State::Measured)
            == s.len(),
    decreases s.len(),
{
    if s.len() > 0 {
        lemma_counts_sum(s.drop_last());
    }
}

// a successful round measures one more qubit per bit of the set
proof fn lemma_round_measured(s: Seq<State>, lists: Seq<Seq<usize>>, set: Seq<usize>)
    requires
        measure_round(s, lists, set).1 is None,
        forall|i: int| 0 <= i < set.len() ==> #[trigger] set[i] < s.len(),
    ensures
        measure_round(s, lists, set).0.len() == s.len(),
        count_of(measure_round(s, lists, set).0, State::Measured) == count_of(s, State::Measured)
            + set.len(),
    decreases set.len(),
{
    if set.len() > 0 {
        let p = set.drop_last();
        assert forall|i: int| 0 <= i < p.len() implies #[trigger] p[i] < s.len() by {
            assert(set[i] == p[i]);
        }
        lemma_round_measured(s, lists, p);
        let prev = measure_round(s, lists, p).0;
        let bit = set.last();
        assert(set[set.len() - 1] == bit);
        let next = measure_states(prev, lists, bit);
        assert(prev[bit as int] != State::Measured);
        lemma_count_of_update(prev, bit as int, State::Measured, State::Measured);
        lemma_count_of_same_positions(prev.update(bit as int, State::Measured), next, State::Measured);
    }
}

proof fn lemma_round_error_sticks(s: Seq<State>, lists: Seq<Seq<usize>>, set: Seq<usize>, k: int)
    requires
        0 <= k <= set.len(),
        measure_round(s, lists, set.take(k)).1 is Some,
    ensures
        measure_round(s, lists, set) == measure_round(s, lists, set.take(k)),
    decreases set.len(),
{
    if k == set.len() {
        assert(set.take(k) =~= set);
    } else {
        assert(set.drop_last().take(k) =~= set.take(k));
        lemma_round_error_sticks(s, lists, set.drop_last(), k);
    }
}

impl Clone for Graph {
    fn clone(&self) -> (r: Self)
        ensures
            r.states() == self.states(),
            r.lists() == self.lists(),
            r.now() == self.now(),
            r.peak() == self.peak(),
            self.wf() ==> r.wf(),
    {
        let mut space: Vec<(State, Vec<usize>)> = Vec::new();
        let mut i: usize = 0;
        while i < self.space.len()
            invariant
                i <= self.space@.len(),
                space@.len() == i,
                forall|k: int| 0 <= k < i ==> (#[trigger] space@[k]).0 == self.space@[k].0
                    && space@[k].1@ == self.space@[k].1@,
            decreases self.space@.len() - i,
        {
            space.push((self.space[i].0, self.space[i].1.clone()));
            i += 1;
        }
        let r = Self {
            space,
            current_memory: self.current_memory,
            max_memory: self.max_memory,
        };
        proof {
            assert(r.states() =~= self.states());
            assert(r.lists() =~= self.lists());
            assert forall|i: int, j: int|
                0 <= i < r.space@.len() && 0 <= j < r.space@[i].1@.len() implies r.space@[i].1@[j]
                == #[trigger] self.space@[i].1@[j] by {
                assert(r.space@[i].1@ == self.space@[i].1@);
            }
        }
        r
    }
}

impl<'a> Focus<&'a [usize]> for Graph {
    type Error = AlreadyMeasured;

    open spec fn can_focus(&self, instruction: &'a [usize]) -> bool {
        self.can_measure(instruction@)
    }

    open spec fn focused(
        old: Self,
        after: Self,
        instruction: &'a [usize],
        result: Result<Self, AlreadyMeasured>,
    ) -> bool {
        &&& after == old
        &&& match result {
            Ok(new) => Self::updated(old, new, instruction@, Ok(())),
            Err(e) => exists|new: Self| Self::updated(old, new, instruction@, Err(e)),
        }
    }

    /// A copy of the graph with the set measured (see [Graph::update]); the graph itself
    /// is unchanged.
    fn focus(&mut self, instruction: &'a [usize]) -> (r: Result<Self, AlreadyMeasured>) {
        let mut new = self.clone();
        let ghost copy = new;
        match new.update(instruction) {
            Ok(()) => {
                proof {
                    assert(Self::updated(*old(self), new, instruction@, Ok(())));
                }
                Ok(new)
            },
            Err(e) => {
                proof {
                    assert(Self::updated(*old(self), new, instruction@, Err(e)));
                }
                Err(e)
            },
        }
    }
}

/// What an instructed traversal yields: the bits measured by a step forward, or, by a
/// step back, the largest memory of the path if it was complete.
#[derive(Debug, Clone, PartialEq, Eq)]
pub enum Next {
    /// The bits measured by a step forward.
    Mess(Vec<usize>),
    /// The largest memory of the path that a step back leaves, if it was complete.
    Mem(Option<usize>),
}

/// A traversal of the graph along given steps: a step forward measures bits in a copy
/// of the current graph, a step back returns to the graph before.
pub struct InstructedSweep {
    current: Graph,
    stack: Vec<Graph>,
    instructions: Vec<Step>,
    position: usize,
}

impl Graph {
    /// The traversal of the graph along the steps.
    pub fn into_instructed_iterator(self, instructions: Vec<Step>) -> (r: InstructedSweep)
        ensures
            r.focused() == self,
            r.ancestors() == Seq::<Graph>::empty(),
            r.position() == 0,
            r.steps() == instructions@,
    {
        InstructedSweep { current: self, stack: Vec::new(), instructions, position: 0 }
    }
}

impl InstructedSweep {
    /// The graph of the current position.
    pub closed spec fn focused(&self) -> Graph {
        self.current
    }

    /// The graphs before, the last one first to return to.
    pub closed spec fn ancestors(&self) -> Seq<Graph> {
        self.stack@
    }

    /// The steps.
    pub closed spec fn steps(&self) -> Seq<Step> {
        self.instructions@
    }

    /// The index of the next step.
    pub closed spec fn position(&self) -> nat {
        self.position as nat
    }

    /// Whether the next step, if any, can be taken: a step forward measures bits of the
    /// current graph without meeting a measured one; a step back has a graph to return to.
    pub open spec fn can_advance(&self) -> bool {
        self.position() < self.steps().len() ==> match self.steps()[self.position() as int] {
            tree::Step::Forward(mess) => {
                &&& self.focused().can_measure(mess@)
                &&& forall|e: AlreadyMeasured, g: Graph| !Graph::updated(self.focused(), g, mess@, Err(e))
            },
            tree::Step::Backward(_) => self.ancestors().len() > 0,
        }
    }

    /// Take the next step; [None] after the last one.
    pub fn next(&mut self) -> (r: Option<Next>)
        requires
            old(self).can_advance(),
        ensures
            final(self).steps() == old(self).steps(),
            old(self).position() >= old(self).steps().len() <==> r is None,
            r is Some ==> final(self).position() == old(self).position() + 1,
            r matches Some(Next::Mess(m)) ==> Graph::updated(old(self).focused(), final(self).focused(), m@, Ok(()))
                && final(self).ancestors() == old(self).ancestors().push(old(self).focused()),
            r matches Some(Next::Mem(m)) ==> final(self).focused() == old(self).ancestors().last()
                && final(self).ancestors() == old(self).ancestors().drop_last() && (m is Some ==> m == Some(
                old(self).focused().peak() as usize,
            )),
    {
        if self.position >= self.instructions.len() {
            return None;
        }
        let step = copy_step(&self.instructions[self.position]);
        let ghost instruction = self.instructions@[self.position as int];
        self.position = self.position + 1;
        match step {
            tree::Step::Forward(mess) => {
                let new = match self.current.focus(mess.as_slice()) {
                    Ok(g) => g,
                    Err(e) => {
                        proof {
                            assert(false);
                        }
                        return None;
                    },
                };
                let mut old_current = new;
                std::mem::swap(&mut self.current, &mut old_current);
                self.stack.push(old_current);
                Some(Next::Mess(mess))
            },
            tree::Step::Backward(at_leaf) => {
                let res = match at_leaf {
                    Some(_) => Some(self.current.max_memory()),
                    None => None,
                };
                match self.stack.pop() {
                    Some(g) => {
                        self.current = g;
                    },
                    None => {
                        proof {
                            assert(false);
                        }
                    },
                }
                Some(Next::Mem(res))
            },
        }
    }
}

} // verus!
