//! The spatial part of scheduling: the quantum memory required when the qubits of a
//! graph state are measured set by set.
//!
//! Measuring a qubit requires that all its neighbors are in memory; sleeping neighbors
//! are initialized. The required memory during the measurement of a set is the number
//! of qubits in memory plus the measured ones.
use std::collections::HashMap;

use vstd::prelude::*;

use super::tree::Focus;
use crate::graph::{
    adjacency, count_of, edges_in_range, lemma_count_of_absent, lemma_count_of_bound,
    lemma_count_of_same_positions, lemma_count_of_update,
};

pub mod maybe_better;

verus! {

broadcast use vstd::std_specs::hash::group_hash_axioms;

/// The state of a qubit.
#[derive(Copy, Clone, PartialEq, Eq, Structural, PartialOrd, Ord, Hash, Debug)]
pub enum State {
    /// Not yet initialized.
    Sleeping,
    /// Initialized.
    InMemory,
    /// Measured.
    Measured,
}

impl Default for State {
    fn default() -> (r: Self)
        ensures
            r == State::Sleeping,
    {
        State::Sleeping
    }
}

/// The bit after the optional renaming `mapping`; bits without an entry keep their name.
pub open spec fn mapped(mapping: Option<Map<usize, usize>>, bit: usize) -> usize {
    match mapping {
        Some(m) => if m.contains_key(bit) {
            m[bit]
        } else {
            bit
        },
        None => bit,
    }
}

/// The edges after renaming their ends.
pub open spec fn mapped_edges(edges: Seq<(usize, usize)>, mapping: Option<Map<usize, usize>>) -> Seq<
    (usize, usize),
> {
    Seq::new(edges.len(), |i: int| (mapped(mapping, edges[i].0), mapped(mapping, edges[i].1)))
}

/// The adjacency lists of `num` nodes after adding the `edges` in order, skipping
/// edges from a node to itself and edges that are already present.
pub open spec fn adjacency_checked(edges: Seq<(usize, usize)>, num: nat) -> Seq<Seq<usize>>
    decreases edges.len(),
{
    if edges.len() == 0 {
        Seq::new(num, |_i: int| Seq::<usize>::empty())
    } else {
        let prev = adjacency_checked(edges.drop_last(), num);
        let (l, r) = edges.last();
        if l == r || prev[l as int].contains(r) {
            prev
        } else {
            let with_l = prev.update(l as int, prev[l as int].push(r));
            with_l.update(r as int, with_l[r as int].push(l))
        }
    }
}

/// The adjacency lists of a graph state, shared by the [Graph]s that are created from it.
#[derive(Clone, Debug)]
pub struct GraphBuffer {
    inner: Vec<Vec<usize>>,
}

impl GraphBuffer {
    /// The neighbors of each node.
    pub closed spec fn lists(&self) -> Seq<Seq<usize>> {
        views(self.inner@)
    }

    /// Create the adjacency lists of `num_bits` nodes from the edges, whose ends are
    /// first renamed by `bit_mapping`. With `check_duplicates`, edges from a node to
    /// itself and repeated edges are skipped.
    pub fn new(
        edges: &[(usize, usize)],
        num_bits: usize,
        bit_mapping: Option<&HashMap<usize, usize>>,
        check_duplicates: bool,
    ) -> (r: Self)
        requires
            edges_in_range(
                mapped_edges(
                    edges@,
                    match bit_mapping {
                        Some(m) => Some(m@),
                        None => None,
                    },
                ),
                num_bits as nat,
            ),
        ensures
            ({
                let mapping = match bit_mapping {
                    Some(m) => Some(m@),
                    None => None,
                };
                let mapped = mapped_edges(edges@, mapping);
                r.lists() == if check_duplicates {
                    adjacency_checked(mapped, num_bits as nat)
                } else {
                    adjacency(mapped, num_bits as nat)
                }
            }),
    {
        let ghost mapping = match bit_mapping {
            Some(m) => Some(m@),
            None => None,
        };
        let ghost mapped = mapped_edges(edges@, mapping);
        let ghost target = if check_duplicates {
            adjacency_checked(mapped, num_bits as nat)
        } else {
            adjacency(mapped, num_bits as nat)
        };
        let mut inner: Vec<Vec<usize>> = Vec::new();
        let mut i: usize = 0;
        while i < num_bits
            invariant
                i <= num_bits,
                inner@.len() == i,
                forall|k: int| 0 <= k < i ==> (#[trigger] inner@[k])@ == Seq::<usize>::empty(),
            decreases num_bits - i,
        {
            let empty: Vec<usize> = Vec::new();
            inner.push(empty);
            i += 1;
        }
        assert(views(inner@) =~= adjacency(mapped.take(0), num_bits as nat));
        assert(views(inner@) =~= adjacency_checked(mapped.take(0), num_bits as nat));
        let mut k: usize = 0;
        while k < edges.len()
            invariant
                edges_in_range(mapped, num_bits as nat),
                mapped == mapped_edges(edges@, mapping),
                mapping == (match bit_mapping {
                    Some(m) => Some(m@),
                    None => None,
                }),
                k <= edges@.len(),
                views(inner@) == if check_duplicates {
                    adjacency_checked(mapped.take(k as int), num_bits as nat)
                } else {
                    adjacency(mapped.take(k as int), num_bits as nat)
                },
                views(inner@).len() == num_bits,
            decreases edges@.len() - k,
        {
            let (l, r) = edges[k];
            let left = match bit_mapping {
                Some(m) => match m.get(&l) {
                    Some(v) => *v,
                    None => l,
                },
                None => l,
            };
            let right = match bit_mapping {
                Some(m) => match m.get(&r) {
                    Some(v) => *v,
                    None => r,
                },
                None => r,
            };
            proof {
                assert(mapped[k as int] == (left, right));
                assert(mapped.take(k + 1).drop_last() =~= mapped.take(k as int));
                assert(mapped.take(k + 1).last() == (left, right));
                assert(left < num_bits && right < num_bits);
            }
            let skip = check_duplicates && (left == right || contains(&inner[left], right));
            if !skip {
                inner[left].push(right);
                inner[right].push(left);
            }
            proof {
                let prev = if check_duplicates {
                    adjacency_checked(mapped.take(k as int), num_bits as nat)
                } else {
                    adjacency(mapped.take(k as int), num_bits as nat)
                };
                let next = if check_duplicates {
                    adjacency_checked(mapped.take(k + 1), num_bits as nat)
                } else {
                    adjacency(mapped.take(k + 1), num_bits as nat)
                };
                assert(views(inner@) =~= next);
            }
            k += 1;
        }
        proof {
            assert(mapped.take(edges@.len() as int) =~= mapped);
        }
        Self { inner }
    }
}

/// The views of the vectors.
pub open spec fn views(v: Seq<Vec<usize>>) -> Seq<Seq<usize>> {
    Seq::new(v.len(), |i: int| v[i]@)
}

/// Whether `v` contains `x`.
pub(crate) fn contains(v: &Vec<usize>, x: usize) -> (r: bool)
    ensures
        r == v@.contains(x),
{
    let mut i: usize = 0;
    while i < v.len()
        invariant
            i <= v@.len(),
            forall|j: int| 0 <= j < i ==> v@[j] != x,
        decreases v@.len() - i,
    {
        if v[i] == x {
            return true;
        }
        i += 1;
    }
    false
}

/// The state after an initialization: sleeping qubits are put into memory.
pub open spec fn initialized(s: State) -> State {
    if s == State::Sleeping {
        State::InMemory
    } else {
        s
    }
}

/// The states after measuring `bit`, which must not be measured yet: it is measured
/// and its neighbors are initialized.
pub open spec fn measure_one(s: Seq<State>, lists: Seq<Seq<usize>>, bit: usize) -> Seq<State> {
    Seq::new(
        s.len(),
        |n: int|
            if n == bit {
                State::Measured
            } else if lists[bit as int].contains(n as usize) {
                initialized(s[n])
            } else {
                s[n]
            },
    )
}

/// The states after measuring the bits of `set` one after the other, and the first
/// bit that was already measured, at which the measuring stopped.
pub open spec fn measure_round(s: Seq<State>, lists: Seq<Seq<usize>>, set: Seq<usize>) -> (Seq<
    State,
>, Option<usize>)
    decreases set.len(),
{
    if set.len() == 0 {
        (s, None)
    } else {
        let (prev, err) = measure_round(s, lists, set.drop_last());
        if err is Some {
            (prev, err)
        } else if prev[set.last() as int] == State::Measured {
            (prev, Some(set.last()))
        } else {
            (measure_one(prev, lists, set.last()), None)
        }
    }
}

/// Measuring bits that are not measured yet, each once, meets no measured bit, and every
/// other bit that was not measured stays so.
pub proof fn lemma_measure_round_ok(s: Seq<State>, lists: Seq<Seq<usize>>, set: Seq<usize>)
    requires
        set.no_duplicates(),
        forall|k: int| 0 <= k < set.len() ==> #[trigger] set[k] < s.len() && s[set[k] as int] != State::Measured,
    ensures
        measure_round(s, lists, set).1 is None,
        measure_round(s, lists, set).0.len() == s.len(),
        forall|n: int|
            0 <= n < s.len() && s[n] != State::Measured && !set.contains(n as usize) ==> #[trigger] measure_round(
                s,
                lists,
                set,
            ).0[n] != State::Measured,
    decreases set.len(),
{
    if set.len() > 0 {
        let prev_set = set.drop_last();
        let last = set.last();
        assert(set[set.len() - 1] == last);
        assert forall|i: int, j: int| 0 <= i < j < prev_set.len() implies prev_set[i] != prev_set[j] by {
            assert(set[i] != set[j]);
        }
        assert forall|k: int| 0 <= k < prev_set.len() implies #[trigger] prev_set[k] < s.len() && s[prev_set[k] as int]
            != State::Measured by {
            assert(set[k] == prev_set[k]);
        }
        lemma_measure_round_ok(s, lists, prev_set);
        assert(!prev_set.contains(last)) by {
            if prev_set.contains(last) {
                let i = choose|i: int| 0 <= i < prev_set.len() && prev_set[i] == last;
                assert(set[i] == set[set.len() - 1]);
            }
        }
        assert forall|n: int|
            0 <= n < s.len() && s[n] != State::Measured && !set.contains(n as usize) implies #[trigger] measure_round(
                s,
                lists,
                set,
            ).0[n] != State::Measured by {
            assert(!prev_set.contains(n as usize)) by {
                if prev_set.contains(n as usize) {
                    let i = choose|i: int| 0 <= i < prev_set.len() && prev_set[i] == n as usize;
                    assert(set[i] == n as usize);
                }
            }
            assert(n as usize != last);
        }
    }
}

/// The larger of two numbers.
pub open spec fn max_of(a: nat, b: nat) -> nat {
    if a >= b { a } else { b }
}

/// Measuring a set of qubits needs, at that moment, the qubits left in memory afterwards
/// and every measured qubit of the set: the maximal memory becomes the larger of the
/// one before and that number.
pub proof fn lemma_measured_set_counts_measured_qubits<'l>(old: Graph<'l>, new: Graph<'l>, set: Seq<usize>)
    requires
        Graph::measured_set(old, new, set, Ok(())),
    ensures
        new.peak() >= old.peak(),
        new.peak() >= new.now() + set.len(),
        new.peak() == old.peak() || new.peak() == new.now() + set.len(),
{
}

/// The error when a bit is measured that is already measured.
#[derive(Debug, Clone, Copy, PartialEq, Eq, Structural, PartialOrd, Ord, Hash)]
pub struct AlreadyMeasured {
    bit: usize,
}

impl AlreadyMeasured {
    /// The bit that is already measured.
    pub closed spec fn measured_bit(&self) -> usize {
        self.bit
    }

    /// The bit that is already measured.
    pub fn bit(&self) -> (r: usize)
        ensures
            r == self.measured_bit(),
    {
        self.bit
    }
}

/// The qubits of a graph state with their states, and the currently and maximally
/// required quantum memory.
#[derive(PartialEq, Eq, Debug)]
pub struct Graph<'l> {
    nodes: Vec<(State, &'l Vec<usize>)>,
    current_memory: usize,
    max_memory: usize,
}

impl<'l> Graph<'l> {
    /// The states of the nodes.
    pub closed spec fn states(&self) -> Seq<State> {
        Seq::new(self.nodes@.len(), |i: int| self.nodes@[i].0)
    }

    /// The neighbors of the nodes.
    pub closed spec fn lists(&self) -> Seq<Seq<usize>> {
        Seq::new(self.nodes@.len(), |i: int| self.nodes@[i].1@)
    }

    /// The currently required memory.
    pub closed spec fn now(&self) -> nat {
        self.current_memory as nat
    }

    /// The maximally required memory so far.
    pub closed spec fn peak(&self) -> nat {
        self.max_memory as nat
    }

    /// The neighbors are nodes, and the current memory counts at least the nodes in
    /// memory.
    pub closed spec fn wf(&self) -> bool {
        &&& forall|i: int, j: int|
            0 <= i < self.nodes@.len() && 0 <= j < self.nodes@[i].1@.len() ==> #[trigger] self.nodes@[i].1@[j]
                < self.nodes@.len()
        &&& self.current_memory >= count_of(self.states(), State::InMemory)
    }

    /// The graph has at most `usize::MAX` nodes.
    pub proof fn lemma_states_fit(&self)
        ensures
            self.states().len() <= usize::MAX,
    {
        broadcast use vstd::std_specs::vec::axiom_spec_len;

        assert(self.nodes.len() == self.nodes@.len());
    }

    /// Create a graph whose nodes are all sleeping, with the neighbors in the buffer.
    pub fn new(graph_buffer: &'l GraphBuffer) -> (r: Self)
        requires
            forall|i: int, j: int|
                0 <= i < graph_buffer.lists().len() && 0 <= j < graph_buffer.lists()[i].len()
                    ==> #[trigger] graph_buffer.lists()[i][j] < graph_buffer.lists().len(),
        ensures
            r.wf(),
            r.states() == Seq::new(graph_buffer.lists().len(), |_i: int| State::Sleeping),
            r.lists() == graph_buffer.lists(),
            r.now() == 0,
            r.peak() == 0,
    {
        let mut nodes: Vec<(State, &'l Vec<usize>)> = Vec::new();
        let mut i: usize = 0;
        while i < graph_buffer.inner.len()
            invariant
                i <= graph_buffer.inner@.len(),
                nodes@.len() == i,
                forall|k: int| 0 <= k < i ==> (#[trigger] nodes@[k]).0 == State::Sleeping
                    && nodes@[k].1@ == graph_buffer.inner@[k]@,
            decreases graph_buffer.inner@.len() - i,
        {
            nodes.push((State::Sleeping, &graph_buffer.inner[i]));
            i += 1;
        }
        let r = Self { nodes, current_memory: 0, max_memory: 0 };
        proof {
            assert(r.states() =~= Seq::new(graph_buffer.lists().len(), |_i: int| State::Sleeping));
            assert(r.lists() =~= graph_buffer.lists());
            lemma_count_of_absent(r.states(), State::InMemory);
            assert forall|i: int, j: int|
                0 <= i < r.nodes@.len() && 0 <= j < r.nodes@[i].1@.len() implies #[trigger] r.nodes@[i].1@[j]
                < r.nodes@.len() by {
                assert(r.nodes@[i].1@ == graph_buffer.lists()[i]);
            }
        }
        r
    }

    /// The nodes: their states and neighbors.
    pub fn nodes(&self) -> (r: &[(State, &'l Vec<usize>)])
        ensures
            r@.len() == self.states().len(),
            forall|i: int| 0 <= i < r@.len() ==> (#[trigger] r@[i]).0 == self.states()[i] && r@[i].1@
                == self.lists()[i],
    {
        self.nodes.as_slice()
    }

    /// The currently required memory.
    pub fn current_memory(&self) -> (r: usize)
        ensures
            r == self.now(),
    {
        self.current_memory
    }

    /// The maximally required memory so far.
    pub fn max_memory(&self) -> (r: usize)
        ensures
            r == self.peak(),
    {
        self.max_memory
    }


    // measure a qubit: it is measured, then its neighbors are initialized
    fn measure(&mut self, bit: usize) -> (r: Result<(), AlreadyMeasured>)
        requires
            old(self).wf(),
            bit < old(self).states().len(),
            old(self).now() + count_of(old(self).states(), State::Sleeping) <= usize::MAX,
        ensures
            final(self).wf(),
            final(self).lists() == old(self).lists(),
            final(self).peak() == old(self).peak(),
            r is Err <==> old(self).states()[bit as int] == State::Measured,
            r matches Err(e) ==> e.measured_bit() == bit && final(self).states() == old(self).states()
                && final(self).now() == old(self).now(),
            r is Ok ==> final(self).states() == measure_one(old(self).states(), old(self).lists(), bit),
            final(self).now() + count_of(final(self).states(), State::Sleeping) == old(self).now()
                + count_of(old(self).states(), State::Sleeping),
            r is Ok ==> final(self).now() - count_of(final(self).states(), State::InMemory) == old(
                self).now() - count_of(old(self).states(), State::InMemory) + 1,
    {
        let ghost s0 = self.states();
        let ghost lists = self.lists();
        let len = self.nodes.len();
        proof {
            lemma_count_of_update(s0, bit as int, State::Measured, State::Sleeping);
            lemma_count_of_update(s0, bit as int, State::Measured, State::InMemory);
            lemma_count_of_bound(s0, State::Sleeping);
            assert(self.nodes@[bit as int].0 == s0[bit as int]);
        }
        let neighbors: &'l Vec<usize> = self.nodes[bit].1;
        match self.nodes[bit].0 {
            State::Sleeping => {
                self.current_memory += 1;
                self.nodes[bit].0 = State::Measured;
            },
            State::InMemory => self.nodes[bit].0 = State::Measured,
            State::Measured => {
                return Err(AlreadyMeasured { bit });
            },
        }
        let ghost s1 = s0.update(bit as int, State::Measured);
        proof {
            assert(self.states() =~= s1);
            assert(self.lists() =~= lists);
            assert(neighbors@ == lists[bit as int]);
            assert forall|i: int, j: int|
                0 <= i < self.nodes@.len() && 0 <= j < self.nodes@[i].1@.len() implies #[trigger] self.nodes@[i].1@[j]
                < self.nodes@.len() by {
                assert(self.nodes@[i].1 == old(self).nodes@[i].1);
            }
        }
        let mut j: usize = 0;
        while j < neighbors.len()
            invariant
                self.wf(),
                len == self.states().len(),
                bit < len,
                self.lists() == lists,
                neighbors@ == lists[bit as int],
                forall|k: int| 0 <= k < neighbors@.len() ==> #[trigger] neighbors@[k] < len,
                j <= neighbors@.len(),
                self.states() == Seq::new(
                    len as nat,
                    |n: int|
                        if n == bit {
                            State::Measured
                        } else if neighbors@.take(j as int).contains(n as usize) {
                            initialized(s0[n])
                        } else {
                            s0[n]
                        },
                ),
                s0.len() == len,
                self.peak() == old(self).peak(),
                self.now() + count_of(self.states(), State::Sleeping) == old(self).now()
                    + count_of(s0, State::Sleeping),
                self.now() - count_of(self.states(), State::InMemory) == old(self).now()
                    - count_of(s0, State::InMemory) + 1,
                old(self).now() + count_of(s0, State::Sleeping) <= usize::MAX,
            decreases neighbors@.len() - j,
        {
            let n = neighbors[j];
            let ghost before = self.states();
            proof {
                lemma_count_of_bound(self.states(), State::Sleeping);
            }
            self.initialize(n);
            proof {
                assert forall|m: int| 0 <= m < len implies #[trigger] self.states()[m] == (if m == bit {
                    State::Measured
                } else if neighbors@.take(j + 1).contains(m as usize) {
                    initialized(s0[m])
                } else {
                    s0[m]
                }) by {
                    assert(neighbors@.take(j + 1) =~= neighbors@.take(j as int).push(n));
                    if neighbors@.take(j as int).contains(m as usize) {
                        let w = choose|w: int| 0 <= w < j && neighbors@.take(j as int)[w] == m as usize;
                        assert(neighbors@.take(j + 1)[w] == m as usize);
                    }
                    if neighbors@.take(j + 1).contains(m as usize) && !neighbors@.take(j as int).contains(m as usize) {
                        assert(m == n);
                    }
                    if m == n as int && m != bit {
                        assert(neighbors@.take(j + 1)[j as int] == n);
                    }
                }
                assert(self.states() =~= Seq::new(
                    len as nat,
                    |m: int|
                        if m == bit {
                            State::Measured
                        } else if neighbors@.take(j + 1).contains(m as usize) {
                            initialized(s0[m])
                        } else {
                            s0[m]
                        },
                ));
            }
            j += 1;
        }
        proof {
            assert(neighbors@.take(neighbors@.len() as int) =~= neighbors@);
            assert(self.states() =~= measure_one(s0, lists, bit));
        }
        Ok(())
    }

    fn initialize(&mut self, bit: usize)
        requires
            old(self).wf(),
            bit < old(self).states().len(),
            old(self).now() + count_of(old(self).states(), State::Sleeping) <= usize::MAX,
        ensures
            final(self).wf(),
            final(self).states() == old(self).states().update(
                bit as int,
                initialized(old(self).states()[bit as int]),
            ),
            final(self).lists() == old(self).lists(),
            final(self).peak() == old(self).peak(),
            final(self).now() + count_of(final(self).states(), State::Sleeping) == old(self).now()
                + count_of(old(self).states(), State::Sleeping),
            final(self).now() - count_of(final(self).states(), State::InMemory) == old(self).now()
                - count_of(old(self).states(), State::InMemory),
    {
        let ghost s0 = self.states();
        let ghost v = initialized(s0[bit as int]);
        proof {
            lemma_count_of_update(s0, bit as int, v, State::Sleeping);
            lemma_count_of_update(s0, bit as int, v, State::InMemory);
            assert(self.nodes@[bit as int].0 == s0[bit as int]);
        }
        match &mut self.nodes[bit].0 {
            state @ State::Sleeping => {
                *state = State::InMemory;
                self.current_memory += 1;
            },
            State::InMemory => (),
            State::Measured => {},
        }
        proof {
            assert(self.states() =~= s0.update(bit as int, v));
            assert(self.lists() =~= old(self).lists());
            assert forall|i: int, j: int|
                0 <= i < self.nodes@.len() && 0 <= j < self.nodes@[i].1@.len() implies #[trigger] self.nodes@[i].1@[j]
                < self.nodes@.len() by {
                assert(self.nodes@[i].1 == old(self).nodes@[i].1);
            }
        }
    }
}

impl<'l> Graph<'l> {
    // the measurement of a set is done: remember the peak, then release the measured
    // qubits
    fn update_memory(&mut self, len: usize)
        requires
            old(self).wf(),
            old(self).now() - count_of(old(self).states(), State::InMemory) >= len,
        ensures
            final(self).wf(),
            final(self).states() == old(self).states(),
            final(self).lists() == old(self).lists(),
            final(self).peak() == max_of(old(self).peak(), old(self).now()),
            final(self).now() == old(self).now() - len,
    {
        if self.current_memory > self.max_memory {
            self.max_memory = self.current_memory;
        }
        self.current_memory -= len;
    }

    /// Whether `new` is `old` after measuring the bits of `set` one after the other
    /// (see [measure_round]), with the outcome `result`. On success, the peak takes the
    /// memory at the end of the measurements, and then the measured qubits are
    /// released; after an error, the states are those at the failing bit.
    pub open spec fn measured_set(old: Self, new: Self, set: Seq<usize>, result: Result<(), AlreadyMeasured>) -> bool {
        let (states, err) = measure_round(old.states(), old.lists(), set);
        let during = old.now() + count_of(old.states(), State::Sleeping) - count_of(
            states,
            State::Sleeping,
        );
        &&& new.wf()
        &&& new.lists() == old.lists()
        &&& new.states() == states
        &&& match result {
            Ok(()) => {
                &&& err is None
                &&& new.peak() == max_of(old.peak(), during as nat)
                &&& new.now() == during - set.len()
            },
            Err(e) => {
                &&& err == Some(e.measured_bit())
                &&& new.peak() == old.peak()
                &&& new.now() == during
            },
        }
    }

    /// Whether measuring the bits of `set` one after the other (see [measure_round]) fails
    /// with `e`.
    pub open spec fn fails_with(old: Self, set: Seq<usize>, e: AlreadyMeasured) -> bool {
        exists|after: Self| Self::measured_set(old, after, set, Err(e))
    }

    /// Whether the bits of `set` may be measured: they are nodes of the graph, and the
    /// memory cannot exceed the range of `usize`.
    pub open spec fn can_measure(&self, set: Seq<usize>) -> bool {
        &&& self.wf()
        &&& forall|i: int| 0 <= i < set.len() ==> #[trigger] set[i] < self.states().len()
        &&& self.now() + count_of(self.states(), State::Sleeping) <= usize::MAX
    }
}

impl<'l> Clone for Graph<'l> {
    fn clone(&self) -> (r: Self)
        ensures
            r.states() == self.states(),
            r.lists() == self.lists(),
            r.now() == self.now(),
            r.peak() == self.peak(),
            self.wf() ==> r.wf(),
    {
        let mut nodes: Vec<(State, &'l Vec<usize>)> = Vec::new();
        let mut i: usize = 0;
        while i < self.nodes.len()
            invariant
                i <= self.nodes@.len(),
                nodes@.len() == i,
                forall|k: int| 0 <= k < i ==> #[trigger] nodes@[k] == self.nodes@[k],
            decreases self.nodes@.len() - i,
        {
            nodes.push((self.nodes[i].0, self.nodes[i].1));
            i += 1;
        }
        let r = Self { nodes, current_memory: self.current_memory, max_memory: self.max_memory };
        proof {
            assert(r.nodes@ =~= self.nodes@);
        }
        r
    }
}

impl<'l, 'a> Focus<&'a [usize]> for Graph<'l> {
    type Error = AlreadyMeasured;

    open spec fn can_focus(&self, instruction: &'a [usize]) -> bool {
        self.can_measure(instruction@)
    }

    open spec fn focused(
        old: Self,
        new: Self,
        instruction: &'a [usize],
        result: Result<(), AlreadyMeasured>,
    ) -> bool {
        Self::measured_set(old, new, instruction@, result)
    }

    /// Measure the bits of the set one after the other; stop at the first bit that is
    /// already measured.
    fn focus_inplace(&mut self, measure_set: &'a [usize]) -> (r: Result<(), AlreadyMeasured>) {
        let ghost s0 = self.states();
        let ghost lists = self.lists();
        let ghost total = self.now() + count_of(s0, State::Sleeping);
        proof {
            lemma_count_of_bound(s0, State::InMemory);
        }
        let mut i: usize = 0;
        while i < measure_set.len()
            invariant
                self.wf(),
                self.lists() == lists,
                self.peak() == old(self).peak(),
                s0 == old(self).states(),
                lists == old(self).lists(),
                total == old(self).now() + count_of(s0, State::Sleeping),
                total <= usize::MAX,
                forall|k: int| 0 <= k < measure_set@.len() ==> #[trigger] measure_set@[k] < s0.len(),
                i <= measure_set@.len(),
                self.states().len() == s0.len(),
                measure_round(s0, lists, measure_set@.take(i as int)) == (self.states(), None::<usize>),
                self.now() + count_of(self.states(), State::Sleeping) == total,
                self.now() - count_of(self.states(), State::InMemory) >= i,
            decreases measure_set@.len() - i,
        {
            let bit = measure_set[i];
            proof {
                assert(measure_set@.take(i + 1).drop_last() =~= measure_set@.take(i as int));
                assert(measure_set@.take(i + 1).last() == bit);
            }
            match self.measure(bit) {
                Ok(()) => {},
                Err(e) => {
                    proof {
                        lemma_round_error_sticks(s0, lists, measure_set@, i + 1);
                    }
                    return Err(e);
                },
            }
            proof {
                assert(measure_one(old(self).states(), lists, bit).len() == s0.len());
            }
            i += 1;
        }
        proof {
            assert(measure_set@.take(measure_set@.len() as int) =~= measure_set@);
        }
        let ghost mid = *self;
        self.update_memory(measure_set.len());
        proof {
            let (states, err) = measure_round(s0, lists, measure_set@);
            assert(states == mid.states());
            assert(err is None);
            assert(mid.now() == total - count_of(states, State::Sleeping));
        }
        Ok(())
    }

    /// A copy of the graph with the set measured; the graph itself is unchanged.
    fn focus(&mut self, instruction: &'a [usize]) -> (r: Result<Self, AlreadyMeasured>)
        ensures
            *final(self) == *old(self),
            r matches Err(e) ==> Self::fails_with(*old(self), instruction@, e),
    {
        let mut new = self.clone();
        let ghost copy = new;
        match new.focus_inplace(instruction) {
            Ok(()) => {
                proof {
                    assert(Self::measured_set(*old(self), new, instruction@, Ok(())));
                }
                Ok(new)
            },
            Err(e) => {
                proof {
                    assert(Self::measured_set(copy, new, instruction@, Err(e)));
                    assert(Self::measured_set(*old(self), new, instruction@, Err(e)));
                    assert(Self::fails_with(*old(self), instruction@, e));
                }
                Err(e)
            },
        }
    }
}

/// Measuring a set has one outcome: two graphs that result from measuring the same set
/// on the same graph have the same states, neighbors and memory, and agree on whether it
/// failed (so [Focus::focus] and [Focus::focus_inplace] give the same graph).
pub proof fn lemma_measured_set_deterministic<'l>(
    old: Graph<'l>,
    a: Graph<'l>,
    b: Graph<'l>,
    set: Seq<usize>,
    ra: Result<(), AlreadyMeasured>,
    rb: Result<(), AlreadyMeasured>,
)
    requires
        Graph::measured_set(old, a, set, ra),
        Graph::measured_set(old, b, set, rb),
    ensures
        a.states() == b.states(),
        a.lists() == b.lists(),
        a.now() == b.now(),
        a.peak() == b.peak(),
        ra is Ok <==> rb is Ok,
{
}

/// Between the measurements of two sets, the current memory is exactly the number of
/// qubits in memory: measuring a set successfully keeps that so.
pub proof fn lemma_memory_is_qubits_in_memory<'l>(old: Graph<'l>, new: Graph<'l>, set: Seq<usize>)
    requires
        old.can_measure(set),
        old.now() == count_of(old.states(), State::InMemory),
        Graph::measured_set(old, new, set, Ok(())),
    ensures
        new.now() == count_of(new.states(), State::InMemory),
{
    let s0 = old.states();
    let s1 = new.states();
    lemma_round_measured(s0, old.lists(), set);
    lemma_counts_sum(s0);
    lemma_counts_sum(s1);
}

/// The number of sleeping, in-memory and measured qubits add up to the number of qubits.
proof fn lemma_counts_sum(s: Seq<State>)
    ensures
        count_of(s, State::Sleeping) + count_of(s, State::InMemory) + count_of(s, State::Measured)
            == s.len(),
    decreases s.len(),
{
    if s.len() > 0 {
        lemma_counts_sum(s.drop_last());
    }
}

// a successful round measures one more qubit per bit of the set
proof fn lemma_round_measured(s: Seq<State>, lists: Seq<Seq<usize>>, set: Seq<usize>)
    requires
        measure_round(s, lists, set).1 is None,
        forall|i: int| 0 <= i < set.len() ==> #[trigger] set[i] < s.len(),
    ensures
        measure_round(s, lists, set).0.len() == s.len(),
        count_of(measure_round(s, lists, set).0, State::Measured) == count_of(s, State::Measured)
            + set.len(),
    decreases set.len(),
{
    if set.len() > 0 {
        let p = set.drop_last();
        assert forall|i: int| 0 <= i < p.len() implies #[trigger] p[i] < s.len() by {
            assert(set[i] == p[i]);
        }
        lemma_round_measured(s, lists, p);
        let prev = measure_round(s, lists, p).0;
        let bit = set.last();
        assert(set[set.len() - 1] == bit);
        let next = measure_one(prev, lists, bit);
        assert(prev[bit as int] != State::Measured);
        lemma_count_of_update(prev, bit as int, State::Measured, State::Measured);
        lemma_count_of_same_positions(prev.update(bit as int, State::Measured), next, State::Measured);
    }
}

proof fn lemma_round_error_sticks(s: Seq<State>, lists: Seq<Seq<usize>>, set: Seq<usize>, k: int)
    requires
        0 <= k <= set.len(),
        measure_round(s, lists, set.take(k)).1 is Some,
    ensures
        measure_round(s, lists, set) == measure_round(s, lists, set.take(k)),
    decreases set.len(),
{
    if k == set.len() {
        assert(set.take(k) =~= set);
    } else {
        assert(set.drop_last().take(k) =~= set.take(k));
        lemma_round_error_sticks(s, lists, set.drop_last(), k);
    }
}

} // verus!
