//! A graph of qubits that tracks the required quantum memory while measuring qubits
//! one by one, and can undo measurements.
//!
//! Measuring a qubit requires that all its neighbors are in memory (they are
//! initialized if they are still sleeping). Every node counts how many of its
//! neighbors caused its initialization, so that a measurement can be reversed.
use vstd::prelude::*;

use crate::analyse::combinatoric::{permutations, permutations_of};
use crate::graph::{
    adjacency, edges_in_range, lemma_adjacency_shape, lemma_occurrences_prefix,
    lemma_occurrences_step, occurrences,
};

verus! {

/// The state of a node; the counts are the number of initializations by neighbors.
#[derive(Debug, Clone, Copy, PartialEq, Eq, Structural, PartialOrd, Ord, Hash)]
pub enum State {
    /// Not yet initialized.
    Sleeping,
    /// Initialized, by the given number of neighbor measurements.
    InMemory(usize),
    /// Measured, after the given number of neighbor measurements.
    Measured(usize),
}

impl Default for State {
    fn default() -> (r: Self)
        ensures
            r == State::Sleeping,
    {
        State::Sleeping
    }
}

/// A node: its state and its neighbors.
#[derive(Debug, PartialEq, Eq, PartialOrd, Ord, Hash)]
pub struct Node {
    state: State,
    neighbors: Vec<usize>,
}

/// A graph of qubits with the currently and maximally required quantum memory.
#[derive(PartialEq, Eq, PartialOrd, Ord, Hash, Debug)]
pub struct Graph {
    nodes: Vec<Node>,
    current: usize,
    max: usize,
    // the maximum is not recovered from the current memory, so its history is kept
    max_history: Vec<usize>,
}

/// The number of neighbor initializations recorded in a state that is in memory.
pub open spec fn counter(s: State) -> nat {
    match s {
        State::InMemory(k) => k as nat,
        _ => 0,
    }
}

/// The state after being initialized `c` times by neighbors.
pub open spec fn after_inits(s: State, c: nat) -> State {
    match s {
        State::Sleeping => if c == 0 {
            State::Sleeping
        } else {
            State::InMemory(c as usize)
        },
        State::InMemory(k) => State::InMemory((k + c) as usize),
        State::Measured(k) => State::Measured(k),
    }
}

/// The state after `c` reversed initializations by neighbors.
pub open spec fn after_reverse_inits(s: State, c: nat) -> State {
    match s {
        State::Sleeping => State::Sleeping,
        State::InMemory(k) => if c >= k {
            State::Sleeping
        } else {
            State::InMemory((k - c) as usize)
        },
        State::Measured(k) => State::Measured(k),
    }
}

/// Whether the state is in memory (`in_memory`) or measured (otherwise).
pub open spec fn in_class(s: State, in_memory: bool) -> bool {
    if in_memory {
        s is InMemory
    } else {
        s is Measured
    }
}

/// The number of states in memory (`in_memory`) or measured (otherwise).
pub open spec fn count_class(s: Seq<State>, in_memory: bool) -> nat
    decreases s.len(),
{
    if s.len() == 0 {
        0
    } else {
        count_class(s.drop_last(), in_memory) + (if in_class(s.last(), in_memory) {
            1nat
        } else {
            0nat
        })
    }
}

/// The larger of two numbers.
pub open spec fn max_nat(a: nat, b: nat) -> nat {
    if a >= b { a } else { b }
}

proof fn lemma_count_update(s: Seq<State>, i: int, v: State, in_memory: bool)
    requires
        0 <= i < s.len(),
    ensures
        count_class(s.update(i, v), in_memory) + (if in_class(s[i], in_memory) { 1nat } else { 0nat })
            == count_class(s, in_memory) + (if in_class(v, in_memory) { 1nat } else { 0nat }),
    decreases s.len(),
{
    let u = s.update(i, v);
    if i == s.len() - 1 {
        assert(u.drop_last() =~= s.drop_last());
    } else {
        assert(u.drop_last() =~= s.drop_last().update(i, v));
        lemma_count_update(s.drop_last(), i, v, in_memory);
    }
}

proof fn lemma_count_bound(s: Seq<State>, i: int, in_memory: bool)
    requires
        0 <= i < s.len(),
    ensures
        count_class(s, in_memory) <= s.len(),
        !in_class(s[i], in_memory) ==> count_class(s, in_memory) < s.len(),
        in_class(s[i], in_memory) ==> count_class(s, in_memory) >= 1,
    decreases s.len(),
{
    assert(s.last() == s[s.len() - 1]);
    if i < s.len() - 1 {
        assert(s.drop_last()[i] == s[i]);
        lemma_count_bound(s.drop_last(), i, in_memory);
    } else if s.len() > 1 {
        lemma_count_bound(s.drop_last(), 0, in_memory);
    } else {
        assert(count_class(s.drop_last(), in_memory) == 0);
    }
}


/// The states after measuring `bit` (which stays unchanged if already measured) after
/// initializing its neighbors.
pub open spec fn measure_states(states: Seq<State>, lists: Seq<Seq<usize>>, bit: usize) -> Seq<
    State,
> {
    Seq::new(
        states.len(),
        |n: int|
            if n == bit {
                if states[n] is Measured {
                    states[n]
                } else {
                    State::Measured(counter(states[n]) as usize)
                }
            } else {
                after_inits(states[n], occurrences(lists[bit as int], n as usize))
            },
    )
}

/// The maximal memory after measuring `bit` in a graph with `states` and maximum `peak`.
pub open spec fn measure_peak(states: Seq<State>, lists: Seq<Seq<usize>>, peak: nat, bit: usize) -> nat {
    if states[bit as int] is Measured {
        peak
    } else {
        max_nat(peak, count_class(measure_states(states, lists, bit), true) + 1)
    }
}

/// The maximal memory after measuring the nodes of `order` one after the other.
pub open spec fn peak_after(states: Seq<State>, lists: Seq<Seq<usize>>, peak: nat, order: Seq<usize>) -> nat
    decreases order.len(),
{
    if order.len() == 0 {
        peak
    } else {
        peak_after(
            measure_states(states, lists, order[0]),
            lists,
            measure_peak(states, lists, peak, order[0]),
            order.drop_first(),
        )
    }
}

/// The smallest maximal memory over the `orders`, starting from `init`.
pub open spec fn min_peak(states: Seq<State>, lists: Seq<Seq<usize>>, peak: nat, orders: Seq<Seq<usize>>, init: nat) -> nat
    decreases orders.len(),
{
    if orders.len() == 0 {
        init
    } else {
        let acc = min_peak(states, lists, peak, orders.drop_last(), init);
        let p = peak_after(states, lists, peak, orders.last());
        if p < acc {
            p
        } else {
            acc
        }
    }
}

/// Every node of the order is one of the `len` nodes, and there are at most `len`.
pub open spec fn fits_graph(order: Seq<usize>, len: nat) -> bool {
    &&& order.len() <= len
    &&& forall|i: int| 0 <= i < order.len() ==> #[trigger] order[i] < len
}

/// The length of the longest neighbor list.
pub open spec fn max_degree(lists: Seq<Seq<usize>>) -> nat
    decreases lists.len(),
{
    if lists.len() == 0 {
        0
    } else {
        max_nat(max_degree(lists.drop_last()), lists.last().len())
    }
}

proof fn lemma_max_degree(lists: Seq<Seq<usize>>, m: int)
    requires
        0 <= m < lists.len(),
    ensures
        lists[m].len() <= max_degree(lists),
    decreases lists.len(),
{
    if m < lists.len() - 1 {
        lemma_max_degree(lists.drop_last(), m);
        assert(lists.drop_last()[m] == lists[m]);
    }
}

proof fn lemma_occurrences_bound(s: Seq<usize>, n: usize)
    ensures
        occurrences(s, n) <= s.len(),
    decreases s.len(),
{
    if s.len() > 0 {
        lemma_occurrences_bound(s.drop_last(), n);
    }
}

impl Node {
    /// The state of the node.
    pub closed spec fn state_of(&self) -> State {
        self.state
    }

    /// The neighbors of the node.
    pub closed spec fn neighbors_of(&self) -> Seq<usize> {
        self.neighbors@
    }
}

impl Clone for Node {
    fn clone(&self) -> (r: Self)
        ensures
            r.state_of() == self.state_of(),
            r.neighbors_of() == self.neighbors_of(),
    {
        Node { state: self.state, neighbors: self.neighbors.clone() }
    }
}

impl Clone for Graph {
    fn clone(&self) -> (r: Self)
        ensures
            r.states() == self.states(),
            r.neighbor_lists() == self.neighbor_lists(),
            r.now() == self.now(),
            r.peak() == self.peak(),
            r.history() == self.history(),
            r.wf() == self.wf(),
    {
        let r = Graph {
            nodes: self.nodes.clone(),
            current: self.current,
            max: self.max,
            max_history: self.max_history.clone(),
        };
        proof {
            assert(r.nodes@.len() == self.nodes@.len());
            assert forall|i: int| 0 <= i < self.nodes@.len() implies #[trigger] r.nodes@[i].state
                == self.nodes@[i].state && r.nodes@[i].neighbors@ == self.nodes@[i].neighbors@ by {
                assert(cloned::<Node>(self.nodes@[i], r.nodes@[i]));
            }
            assert(r.states() =~= self.states());
            assert(r.neighbor_lists() =~= self.neighbor_lists());
            assert(r.max_history@ =~= self.max_history@);
        }
        r
    }
}

impl Graph {
    /// The states of the nodes.
    pub closed spec fn states(&self) -> Seq<State> {
        Seq::new(self.nodes@.len(), |i: int| self.nodes@[i].state)
    }

    /// The neighbors of the nodes.
    pub closed spec fn neighbor_lists(&self) -> Seq<Seq<usize>> {
        Seq::new(self.nodes@.len(), |i: int| self.nodes@[i].neighbors@)
    }

    /// The currently required memory.
    pub closed spec fn now(&self) -> nat {
        self.current as nat
    }

    /// The maximally required memory so far.
    pub closed spec fn peak(&self) -> nat {
        self.max as nat
    }

    /// The maxima before each measurement that has not been reversed.
    pub closed spec fn history(&self) -> Seq<usize> {
        self.max_history@
    }

    /// The graph is consistent: neighbors are other nodes, the current memory is the
    /// number of nodes in memory, nodes in memory were initialized at least once, and
    /// there is one remembered maximum per measured node.
    pub closed spec fn wf(&self) -> bool {
        &&& forall|i: int, j: int|
            0 <= i < self.nodes@.len() && 0 <= j < self.nodes@[i].neighbors@.len() ==> {
                &&& #[trigger] self.nodes@[i].neighbors@[j] < self.nodes@.len()
                &&& self.nodes@[i].neighbors@[j] != i
            }
        &&& self.current as nat == count_class(self.states(), true)
        &&& forall|i: int| 0 <= i < self.nodes@.len() ==> (#[trigger] self.nodes@[i].state matches State::InMemory(k) ==> k >= 1)
        &&& self.max_history@.len() == count_class(self.states(), false)
    }

    /// Measuring `bit` cannot overflow any counter of its neighbors.
    pub open spec fn increments_fit(&self, bit: usize) -> bool {
        forall|n: int|
            0 <= n < self.states().len() ==> counter(#[trigger] self.states()[n]) + occurrences(
                self.neighbor_lists()[bit as int],
                n as usize,
            ) <= usize::MAX
    }

    /// `new` is `old` after measuring `bit`, which was not measured yet.
    pub open spec fn measured(old: Graph, new: Graph, bit: usize) -> bool {
        &&& !(old.states()[bit as int] is Measured)
        &&& new.neighbor_lists() == old.neighbor_lists()
        &&& new.states().len() == old.states().len()
        &&& forall|n: int|
            0 <= n < old.states().len() && n != bit ==> #[trigger] new.states()[n] == after_inits(
                old.states()[n],
                occurrences(old.neighbor_lists()[bit as int], n as usize),
            )
        &&& new.states()[bit as int] == State::Measured(counter(old.states()[bit as int]) as usize)
        &&& new.history() == old.history().push(old.peak() as usize)
        &&& new.now() == count_class(new.states(), true)
        &&& new.peak() == max_nat(old.peak(), new.now() + 1)
    }

    /// `new` is `old` after reversing the measurement of `bit`.
    pub open spec fn reverse_measured(old: Graph, new: Graph, bit: usize) -> bool {
        &&& new.neighbor_lists() == old.neighbor_lists()
        &&& new.states().len() == old.states().len()
        &&& forall|n: int|
            0 <= n < old.states().len() && n != bit ==> #[trigger] new.states()[n]
                == after_reverse_inits(
                old.states()[n],
                occurrences(old.neighbor_lists()[bit as int], n as usize),
            )
        &&& new.states()[bit as int] == (match old.states()[bit as int] {
            State::Measured(k) => if k == 0 {
                State::Sleeping
            } else {
                State::InMemory(k)
            },
            _ => State::Sleeping,
        })
        &&& old.history().len() > 0
        &&& new.peak() == old.history().last()
        &&& new.history() == old.history().drop_last()
        &&& new.now() == count_class(new.states(), true)
    }

    /// Create a graph with `num` sleeping nodes and the given edges.
    pub fn new(num: usize, edges: &[(usize, usize)]) -> (r: Self)
        requires
            edges_in_range(edges@, num as nat),
            forall|i: int| 0 <= i < edges@.len() ==> (#[trigger] edges@[i]).0 != edges@[i].1,
        ensures
            r.wf(),
            r.states() == Seq::new(num as nat, |_i: int| State::Sleeping),
            r.neighbor_lists() == adjacency(edges@, num as nat),
            r.now() == 0,
            r.peak() == 0,
            r.history() == Seq::<usize>::empty(),
    {
        let mut nodes: Vec<Node> = Vec::new();
        let mut i: usize = 0;
        while i < num
            invariant
                i <= num,
                nodes@.len() == i,
                forall|k: int| 0 <= k < i ==> (#[trigger] nodes@[k]).state == State::Sleeping
                    && nodes@[k].neighbors@.len() == 0,
            decreases num - i,
        {
            nodes.push(Node { state: State::Sleeping, neighbors: Vec::new() });
            i += 1;
        }
        let mut k: usize = 0;
        while k < edges.len()
            invariant
                edges_in_range(edges@, num as nat),
                forall|i: int| 0 <= i < edges@.len() ==> (#[trigger] edges@[i]).0 != edges@[i].1,
                k <= edges@.len(),
                nodes@.len() == num,
                forall|m: int| 0 <= m < num ==> (#[trigger] nodes@[m]).state == State::Sleeping,
                forall|m: int| 0 <= m < num ==> (#[trigger] nodes@[m]).neighbors@ == adjacency(
                    edges@.take(k as int),
                    num as nat,
                )[m],
            decreases edges@.len() - k,
        {
            let (left, right) = edges[k];
            assert(edges@[k as int].0 < num && edges@[k as int].1 < num);
            proof {
                assert(edges@.take(k + 1).drop_last() =~= edges@.take(k as int));
                assert(edges@.take(k + 1).last() == edges@[k as int]);
                assert(edges_in_range(edges@.take(k as int), num as nat));
                lemma_adjacency_shape(edges@.take(k as int), num as nat, false);
            }
            nodes[left].neighbors.push(right);
            nodes[right].neighbors.push(left);
            k += 1;
        }
        let r = Self { nodes, current: 0, max: 0, max_history: Vec::new() };
        proof {
            assert(edges@.take(edges@.len() as int) =~= edges@);
            lemma_adjacency_shape(edges@, num as nat, true);
            assert(r.states() =~= Seq::new(num as nat, |_i: int| State::Sleeping));
            assert(r.neighbor_lists() =~= adjacency(edges@, num as nat));
            lemma_count_sleeping(num as nat);
            assert(r.states() =~= Seq::new(num as nat, |_i: int| State::Sleeping));
            assert forall|a: int, b: int|
                0 <= a < r.nodes@.len() && 0 <= b < r.nodes@[a].neighbors@.len() implies {
                &&& #[trigger] r.nodes@[a].neighbors@[b] < r.nodes@.len()
                &&& r.nodes@[a].neighbors@[b] != a
            } by {
                assert(r.nodes@[a].neighbors@ == r.neighbor_lists()[a]);
            }
        }
        r
    }

    /// The currently required memory.
    pub fn current(&self) -> (r: usize)
        ensures
            r == self.now(),
    {
        self.current
    }

    /// The maximally required memory so far.
    pub fn max_memory(&self) -> (r: usize)
        ensures
            r == self.peak(),
    {
        self.max
    }

    /// The number of nodes.
    pub fn len(&self) -> (r: usize)
        ensures
            r == self.states().len(),
    {
        self.nodes.len()
    }


    /// Measure `bit`: all its neighbors are initialized (unless already measured),
    /// then the node is measured. Errors, after initializing the neighbors, if the node
    /// is already measured.
    #[verifier::spinoff_prover]
    pub fn measure(&mut self, bit: usize) -> (r: Result<(), ()>)
        requires
            old(self).wf(),
            bit < old(self).states().len(),
            old(self).increments_fit(bit),
        ensures
            final(self).wf(),
            r is Err <==> old(self).states()[bit as int] is Measured,
            r is Ok ==> Graph::measured(*old(self), *final(self), bit),
            final(self).states() == measure_states(old(self).states(), old(self).neighbor_lists(), bit),
            final(self).peak() == measure_peak(old(self).states(), old(self).neighbor_lists(), old(self).peak(), bit),
            final(self).neighbor_lists() == old(self).neighbor_lists(),
            r is Err ==> {
                &&& final(self).neighbor_lists() == old(self).neighbor_lists()
                &&& final(self).states().len() == old(self).states().len()
                &&& forall|n: int|
                    0 <= n < old(self).states().len() && n != bit ==> #[trigger] final(self).states()[n] == after_inits(
                        old(self).states()[n],
                        occurrences(old(self).neighbor_lists()[bit as int], n as usize),
                    )
                &&& final(self).states()[bit as int] == old(self).states()[bit as int]
                &&& final(self).peak() == old(self).peak()
                &&& final(self).history() == old(self).history()
            },
    {
        let ghost g0 = *self;
        let len = self.nodes.len();
        let mut neighbors: Vec<usize> = Vec::new();
        std::mem::swap(&mut neighbors, &mut self.nodes[bit].neighbors);
        proof {
            assert(neighbors@ == g0.neighbor_lists()[bit as int]);
            assert(self.states() =~= g0.states());
            assert(self.neighbor_lists() =~= g0.neighbor_lists().update(bit as int, Seq::empty()));
            assert forall|i: int, j: int|
                0 <= i < self.nodes@.len() && 0 <= j < self.nodes@[i].neighbors@.len() implies {
                &&& #[trigger] self.nodes@[i].neighbors@[j] < self.nodes@.len()
                &&& self.nodes@[i].neighbors@[j] != i
            } by {
                assert(i != bit);
                assert(self.nodes@[i].neighbors@ == g0.nodes@[i].neighbors@);
            }
            assert forall|i: int| 0 <= i < self.nodes@.len() implies (
            #[trigger] self.nodes@[i].state matches State::InMemory(k) ==> k >= 1) by {
                assert(self.nodes@[i].state == g0.nodes@[i].state);
            }
        }
        let mut j: usize = 0;
        while j < neighbors.len()
            invariant
                self.wf(),
                len == self.states().len(),
                len == g0.states().len(),
                bit < len,
                g0.wf(),
                g0.increments_fit(bit),
                neighbors@ == g0.neighbor_lists()[bit as int],
                j <= neighbors@.len(),
                self.neighbor_lists() == g0.neighbor_lists().update(bit as int, Seq::empty()),
                forall|n: int|
                    0 <= n < len && n != bit ==> #[trigger] self.states()[n] == after_inits(
                        g0.states()[n],
                        occurrences(neighbors@.take(j as int), n as usize),
                    ),
                self.states()[bit as int] == g0.states()[bit as int],
                self.peak() == g0.peak(),
                self.history() == g0.history(),
            decreases neighbors@.len() - j,
        {
            let m = neighbors[j];
            proof {
                assert(g0.neighbor_lists()[bit as int][j as int] == g0.nodes@[bit as int].neighbors@[j as int]);
                assert(m < len && m != bit);
                lemma_occurrences_step(neighbors@, j as int, m);
                lemma_occurrences_prefix(neighbors@, j + 1, m);
                assert(counter(g0.states()[m as int]) + occurrences(neighbors@, m) <= usize::MAX);
            }
            let ghost before = self.states();
            let _ = self.initialize(m);
            proof {
                assert forall|n: int| 0 <= n < len && n != bit implies #[trigger] self.states()[n]
                    == after_inits(g0.states()[n], occurrences(neighbors@.take(j + 1), n as usize)) by {
                    lemma_occurrences_step(neighbors@, j as int, n as usize);
                    lemma_occurrences_prefix(neighbors@, j + 1, n as usize);
                    if n == m {
                        assert(self.states()[n] == after_inits(before[n], 1));
                    } else {
                        assert(self.states()[n] == before[n]);
                    }
                }
            }
            j += 1;
        }
        let ghost taken = neighbors@;
        let ghost pre_swap = *self;
        std::mem::swap(&mut neighbors, &mut self.nodes[bit].neighbors);
        let ghost mid = *self;
        proof {
            assert(taken.take(taken.len() as int) =~= taken);
            assert(self.states()[bit as int] == g0.states()[bit as int]);
            assert forall|i: int| 0 <= i < len implies #[trigger] self.neighbor_lists()[i]
                == g0.neighbor_lists()[i] by {
                if i != bit {
                    assert(self.nodes@[i] == pre_swap.nodes@[i]);
                    assert(pre_swap.neighbor_lists()[i] == g0.neighbor_lists()[i]);
                }
            }
            assert(self.neighbor_lists() =~= g0.neighbor_lists());
            assert forall|i: int| 0 <= i < len implies #[trigger] self.states()[i] == pre_swap.states()[i] by {
                if i != bit {
                    assert(self.nodes@[i] == pre_swap.nodes@[i]);
                }
            }
            assert(self.states() =~= pre_swap.states());
            assert(self.current == count_class(self.states(), true));
            assert(self.max_history@.len() == count_class(self.states(), false));
            assert(self.states() =~= mid.states());
            assert forall|i: int, j: int|
                0 <= i < self.nodes@.len() && 0 <= j < self.nodes@[i].neighbors@.len() implies {
                &&& #[trigger] self.nodes@[i].neighbors@[j] < self.nodes@.len()
                &&& self.nodes@[i].neighbors@[j] != i
            } by {
                assert(self.nodes@[i].neighbors@ == g0.neighbor_lists()[i]);
                assert(g0.nodes@[i].neighbors@ == g0.neighbor_lists()[i]);
            }
            lemma_count_bound(mid.states(), bit as int, true);
        }
        let ghost measured_state = State::Measured(counter(mid.states()[bit as int]) as usize);
        proof {
            lemma_count_update(mid.states(), bit as int, measured_state, true);
            lemma_count_update(mid.states(), bit as int, measured_state, false);
        }
        match self.nodes[bit].state {
            State::Sleeping => {
                self.current += 1;
                self.nodes[bit].state = State::Measured(0);
            },
            State::InMemory(i) => self.nodes[bit].state = State::Measured(i),
            State::Measured(_) => {
                return Err(());
            },
        }
        proof {
            assert(self.states() =~= mid.states().update(bit as int, measured_state));
            assert(self.neighbor_lists() =~= mid.neighbor_lists());
        }
        let ghost during = self.current;
        self.max_history.push(self.max);
        if self.current > self.max {
            self.max = self.current;
        }
        self.current -= 1;
        proof {
            assert(self.states() == measure_states(g0.states(), g0.neighbor_lists(), bit));
            assert(self.current == count_class(self.states(), true));
            assert(during == self.current + 1);
            assert(self.peak() == max_nat(g0.peak(), count_class(self.states(), true) + 1));
            assert forall|i: int| 0 <= i < self.nodes@.len() implies (
            #[trigger] self.nodes@[i].state matches State::InMemory(k) ==> k >= 1) by {
                if i != bit {
                    assert(self.nodes@[i].state == mid.nodes@[i].state);
                }
            }
            assert forall|i: int, j: int|
                0 <= i < self.nodes@.len() && 0 <= j < self.nodes@[i].neighbors@.len() implies {
                &&& #[trigger] self.nodes@[i].neighbors@[j] < self.nodes@.len()
                &&& self.nodes@[i].neighbors@[j] != i
            } by {
                assert(self.nodes@[i].neighbors@ == mid.nodes@[i].neighbors@);
            }
        }
        Ok(())
    }

    /// Reverse the measurement of `bit`: the initializations of its neighbors are
    /// reversed, the maximum memory before the measurement is restored, and the node is
    /// in memory again if a neighbor had initialized it. Errors, changing nothing, if
    /// the node is not measured.
    pub fn reverse_measure(&mut self, bit: usize) -> (r: Result<(), ()>)
        requires
            old(self).wf(),
            bit < old(self).states().len(),
        ensures
            final(self).wf(),
            r is Err <==> !(old(self).states()[bit as int] is Measured),
            r is Ok ==> Graph::reverse_measured(*old(self), *final(self), bit),
            r is Err ==> *final(self) == *old(self),
    {
        let ghost g0 = *self;
        let len = self.nodes.len();
        let inits = match self.nodes[bit].state {
            State::Sleeping => {
                return Err(());
            },
            State::InMemory(_) => {
                return Err(());
            },
            State::Measured(i) => i,
        };
        let mut neighbors: Vec<usize> = Vec::new();
        std::mem::swap(&mut neighbors, &mut self.nodes[bit].neighbors);
        proof {
            assert(neighbors@ == g0.neighbor_lists()[bit as int]);
            assert(self.states() =~= g0.states());
            assert(self.neighbor_lists() =~= g0.neighbor_lists().update(bit as int, Seq::empty()));
            assert forall|i: int, j: int|
                0 <= i < self.nodes@.len() && 0 <= j < self.nodes@[i].neighbors@.len() implies {
                &&& #[trigger] self.nodes@[i].neighbors@[j] < self.nodes@.len()
                &&& self.nodes@[i].neighbors@[j] != i
            } by {
                assert(i != bit);
                assert(self.nodes@[i].neighbors@ == g0.nodes@[i].neighbors@);
            }
            assert forall|i: int| 0 <= i < self.nodes@.len() implies (
            #[trigger] self.nodes@[i].state matches State::InMemory(k) ==> k >= 1) by {
                assert(self.nodes@[i].state == g0.nodes@[i].state);
            }
        }
        let mut j: usize = 0;
        while j < neighbors.len()
            invariant
                self.wf(),
                len == self.states().len(),
                len == g0.states().len(),
                bit < len,
                g0.wf(),
                neighbors@ == g0.neighbor_lists()[bit as int],
                j <= neighbors@.len(),
                self.neighbor_lists() == g0.neighbor_lists().update(bit as int, Seq::empty()),
                forall|n: int|
                    0 <= n < len && n != bit ==> #[trigger] self.states()[n] == after_reverse_inits(
                        g0.states()[n],
                        occurrences(neighbors@.take(j as int), n as usize),
                    ),
                self.states()[bit as int] == g0.states()[bit as int],
                self.peak() == g0.peak(),
                self.history() == g0.history(),
            decreases neighbors@.len() - j,
        {
            let m = neighbors[j];
            proof {
                assert(g0.neighbor_lists()[bit as int][j as int] == g0.nodes@[bit as int].neighbors@[j as int]);
                assert(m < len && m != bit);
            }
            let ghost before = self.states();
            let _ = self.reverse_initialization(m);
            proof {
                assert forall|n: int| 0 <= n < len && n != bit implies #[trigger] self.states()[n]
                    == after_reverse_inits(g0.states()[n], occurrences(neighbors@.take(j + 1), n as usize)) by {
                    lemma_occurrences_step(neighbors@, j as int, n as usize);
                    if n == m {
                        assert(self.states()[n] == after_reverse_inits(before[n], 1));
                    } else {
                        assert(self.states()[n] == before[n]);
                    }
                }
            }
            j += 1;
        }
        let ghost taken = neighbors@;
        let ghost pre_swap = *self;
        std::mem::swap(&mut neighbors, &mut self.nodes[bit].neighbors);
        let ghost mid = *self;
        proof {
            assert(taken.take(taken.len() as int) =~= taken);
            assert(self.states()[bit as int] == g0.states()[bit as int]);
            assert forall|i: int| 0 <= i < len implies #[trigger] self.neighbor_lists()[i]
                == g0.neighbor_lists()[i] by {
                if i != bit {
                    assert(self.nodes@[i] == pre_swap.nodes@[i]);
                    assert(pre_swap.neighbor_lists()[i] == g0.neighbor_lists()[i]);
                }
            }
            assert(self.neighbor_lists() =~= g0.neighbor_lists());
            assert forall|i: int| 0 <= i < len implies #[trigger] self.states()[i] == pre_swap.states()[i] by {
                if i != bit {
                    assert(self.nodes@[i] == pre_swap.nodes@[i]);
                }
            }
            assert(self.states() =~= pre_swap.states());
            assert(self.current == count_class(self.states(), true));
            assert(self.max_history@.len() == count_class(self.states(), false));
            assert(self.states() =~= mid.states());
            assert forall|i: int, j: int|
                0 <= i < self.nodes@.len() && 0 <= j < self.nodes@[i].neighbors@.len() implies {
                &&& #[trigger] self.nodes@[i].neighbors@[j] < self.nodes@.len()
                &&& self.nodes@[i].neighbors@[j] != i
            } by {
                assert(self.nodes@[i].neighbors@ == g0.neighbor_lists()[i]);
                assert(g0.nodes@[i].neighbors@ == g0.neighbor_lists()[i]);
            }
            lemma_count_bound(mid.states(), bit as int, true);
            lemma_count_bound(mid.states(), bit as int, false);
        }
        assert(g0.states()[bit as int] == State::Measured(inits));
        assert(mid.states()[bit as int] == State::Measured(inits));
        let ghost new_state = if inits == 0 { State::Sleeping } else { State::InMemory(inits) };
        proof {
            lemma_count_update(mid.states(), bit as int, new_state, true);
            lemma_count_update(mid.states(), bit as int, new_state, false);
        }
        self.max = match self.max_history.pop() {
            Some(m) => m,
            None => {
                proof {
                    assert(false);
                }
                return Err(());
            },
        };
        if inits == 0 {
            self.nodes[bit].state = State::Sleeping;
        } else {
            self.nodes[bit].state = State::InMemory(inits);
            self.current += 1;
        }
        proof {
            assert(self.states() =~= mid.states().update(bit as int, new_state));
            assert(self.neighbor_lists() =~= mid.neighbor_lists());
            assert forall|i: int| 0 <= i < self.nodes@.len() implies (
            #[trigger] self.nodes@[i].state matches State::InMemory(k) ==> k >= 1) by {
                if i != bit {
                    assert(self.nodes@[i].state == mid.nodes@[i].state);
                }
            }
            assert forall|i: int, j: int|
                0 <= i < self.nodes@.len() && 0 <= j < self.nodes@[i].neighbors@.len() implies {
                &&& #[trigger] self.nodes@[i].neighbors@[j] < self.nodes@.len()
                &&& self.nodes@[i].neighbors@[j] != i
            } by {
                assert(self.nodes@[i].neighbors@ == mid.nodes@[i].neighbors@);
            }
        }
        Ok(())
    }


    /// The smallest maximal memory over all orders in which all nodes can be measured,
    /// starting from a copy of this graph for each order (at most the number of nodes).
    pub fn shortest(&mut self) -> (r: usize)
        requires
            old(self).wf(),
            forall|n: int|
                0 <= n < old(self).states().len() ==> counter(#[trigger] old(self).states()[n])
                    + old(self).states().len() * max_degree(old(self).neighbor_lists()) <= usize::MAX,
        ensures
            r == min_peak(
                old(self).states(),
                old(self).neighbor_lists(),
                old(self).peak(),
                permutations_of(old(self).states().len() as usize),
                old(self).states().len(),
            ),
            *final(self) == *old(self),
    {
        let orders = permutations(self.nodes.len());
        self.shortest_over(&orders)
    }

    /// The smallest maximal memory over the given measurement orders, each measured
    /// on a copy of this graph, and at most the number of nodes. Every order may hold
    /// at most as many nodes as the graph has.
    pub fn shortest_over(&self, orders: &Vec<Vec<usize>>) -> (r: usize)
        requires
            self.wf(),
            forall|n: int|
                0 <= n < self.states().len() ==> counter(#[trigger] self.states()[n])
                    + self.states().len() * max_degree(self.neighbor_lists()) <= usize::MAX,
            forall|k: int| 0 <= k < orders.deep_view().len() ==> fits_graph(
                #[trigger] orders.deep_view()[k],
                self.states().len(),
            ),
        ensures
            r == min_peak(
                self.states(),
                self.neighbor_lists(),
                self.peak(),
                orders.deep_view(),
                self.states().len(),
            ),
    {
        let len = self.nodes.len();
        let ghost d = max_degree(self.neighbor_lists());
        let mut shortest = len;
        let mut i: usize = 0;
        while i < orders.len()
            invariant
                self.wf(),
                len == self.states().len(),
                d == max_degree(self.neighbor_lists()),
                forall|n: int|
                    0 <= n < len ==> counter(#[trigger] self.states()[n]) + len * d <= usize::MAX,
                forall|k: int| 0 <= k < orders.deep_view().len() ==> fits_graph(
                    #[trigger] orders.deep_view()[k],
                    len as nat,
                ),
                i <= orders@.len(),
                shortest == min_peak(
                    self.states(),
                    self.neighbor_lists(),
                    self.peak(),
                    orders.deep_view().take(i as int),
                    len as nat,
                ),
            decreases orders@.len() - i,
        {
            let order = &orders[i];
            let ghost s = order@;
            proof {
                assert(orders.deep_view()[i as int] =~= s);
                assert(fits_graph(s, len as nat));
            }
            let mut copy = self.clone();
            assert(s.skip(0) =~= s);
            let mut j: usize = 0;
            while j < order.len()
                invariant
                    copy.wf(),
                    self.wf(),
                    len == self.states().len(),
                    len == copy.states().len(),
                    s == order@,
                    fits_graph(s, len as nat),
                    d == max_degree(self.neighbor_lists()),
                    copy.neighbor_lists() == self.neighbor_lists(),
                    j <= s.len(),
                    forall|n: int|
                        0 <= n < len ==> counter(#[trigger] self.states()[n]) + len * d <= usize::MAX,
                    forall|n: int|
                        0 <= n < len ==> counter(#[trigger] copy.states()[n]) <= counter(
                            self.states()[n],
                        ) + j * d,
                    peak_after(copy.states(), copy.neighbor_lists(), copy.peak(), s.skip(j as int))
                        == peak_after(self.states(), self.neighbor_lists(), self.peak(), s),
                decreases s.len() - j,
            {
                let bit = order[j];
                proof {
                    assert(bit < len);
                    assert(copy.increments_fit(bit)) by {
                        assert forall|n: int| 0 <= n < copy.states().len() implies counter(
                            #[trigger] copy.states()[n],
                        ) + occurrences(copy.neighbor_lists()[bit as int], n as usize)
                            <= usize::MAX by {
                            lemma_occurrences_bound(copy.neighbor_lists()[bit as int], n as usize);
                            lemma_max_degree(self.neighbor_lists(), bit as int);
                            assert((j + 1) * d <= len * d) by (nonlinear_arith)
                                requires
                                    j + 1 <= len,
                            ;
                            assert(j * d + d == (j + 1) * d) by (nonlinear_arith);
                        }
                    }
                }
                let ghost before = copy;
                let _ = copy.measure(bit);
                proof {
                    assert(s.skip(j as int)[0] == bit);
                    assert(s.skip(j as int).drop_first() =~= s.skip(j + 1));
                    assert forall|n: int| 0 <= n < len implies counter(#[trigger] copy.states()[n])
                        <= counter(self.states()[n]) + (j + 1) * d by {
                        lemma_occurrences_bound(before.neighbor_lists()[bit as int], n as usize);
                        lemma_max_degree(self.neighbor_lists(), bit as int);
                        assert(j * d + d == (j + 1) * d) by (nonlinear_arith);
                    }
                }
                j += 1;
            }
            proof {
                assert(s.skip(s.len() as int) =~= Seq::<usize>::empty());
                assert(orders.deep_view().take(i + 1).drop_last() =~= orders.deep_view().take(i as int));
                assert(orders.deep_view().take(i + 1).last() == s);
            }
            if copy.max < shortest {
                shortest = copy.max;
            }
            i += 1;
        }
        proof {
            assert(orders.deep_view().take(orders@.len() as int) =~= orders.deep_view());
        }
        shortest
    }

    // a neighbor of a measured node is initialized, unless it is already measured
    fn initialize(&mut self, bit: usize) -> (r: Result<(), ()>)
        requires
            old(self).wf(),
            bit < old(self).states().len(),
            counter(old(self).states()[bit as int]) < usize::MAX,
        ensures
            final(self).wf(),
            final(self).states() == old(self).states().update(
                bit as int,
                after_inits(old(self).states()[bit as int], 1),
            ),
            final(self).neighbor_lists() == old(self).neighbor_lists(),
            final(self).peak() == old(self).peak(),
            final(self).history() == old(self).history(),
            r is Err <==> old(self).states()[bit as int] is Measured,
    {
        let len = self.nodes.len();
        let ghost s0 = self.states();
        let ghost new_state = after_inits(s0[bit as int], 1);
        proof {
            lemma_count_update(s0, bit as int, new_state, true);
            lemma_count_update(s0, bit as int, new_state, false);
            lemma_count_bound(s0, bit as int, true);
        }
        match &mut self.nodes[bit].state {
            state @ State::Sleeping => {
                *state = State::InMemory(1);
                self.current += 1;
            },
            State::InMemory(i) => *i += 1,
            State::Measured(_) => {
                assert(self.states() =~= s0.update(bit as int, new_state));
                return Err(());
            },
        }
        proof {
            assert(self.states() =~= s0.update(bit as int, new_state));
            assert(self.neighbor_lists() =~= old(self).neighbor_lists());
            assert forall|i: int| 0 <= i < self.nodes@.len() implies (
            #[trigger] self.nodes@[i].state matches State::InMemory(k) ==> k >= 1) by {
                if i != bit {
                    assert(self.nodes@[i].state == old(self).nodes@[i].state);
                }
            }
            assert forall|i: int, j: int|
                0 <= i < self.nodes@.len() && 0 <= j < self.nodes@[i].neighbors@.len() implies {
                &&& #[trigger] self.nodes@[i].neighbors@[j] < self.nodes@.len()
                &&& self.nodes@[i].neighbors@[j] != i
            } by {
                assert(self.nodes@[i].neighbors@ == old(self).nodes@[i].neighbors@);
            }
        }
        Ok(())
    }

    // the reverse of `initialize`
    fn reverse_initialization(&mut self, bit: usize) -> (r: Result<(), ()>)
        requires
            old(self).wf(),
            bit < old(self).states().len(),
        ensures
            final(self).wf(),
            final(self).states() == old(self).states().update(
                bit as int,
                after_reverse_inits(old(self).states()[bit as int], 1),
            ),
            final(self).neighbor_lists() == old(self).neighbor_lists(),
            final(self).peak() == old(self).peak(),
            final(self).history() == old(self).history(),
            r is Err <==> !(old(self).states()[bit as int] is InMemory),
    {
        let ghost s0 = self.states();
        let ghost new_state = after_reverse_inits(s0[bit as int], 1);
        proof {
            lemma_count_update(s0, bit as int, new_state, true);
            lemma_count_update(s0, bit as int, new_state, false);
            lemma_count_bound(s0, bit as int, true);
            assert(self.nodes@[bit as int].state == s0[bit as int]);
        }
        match &mut self.nodes[bit].state {
            State::Sleeping => {
                assert(self.states() =~= s0.update(bit as int, new_state));
                return Err(());
            },
            state @ State::InMemory(1) => {
                *state = State::Sleeping;
                self.current -= 1;
            },
            State::InMemory(i) => *i -= 1,
            State::Measured(_) => {
                assert(self.states() =~= s0.update(bit as int, new_state));
                return Err(());
            },
        }
        proof {
            assert(self.states() =~= s0.update(bit as int, new_state));
            assert(self.neighbor_lists() =~= old(self).neighbor_lists());
            assert forall|i: int| 0 <= i < self.nodes@.len() implies (
            #[trigger] self.nodes@[i].state matches State::InMemory(k) ==> k >= 1) by {
                if i != bit {
                    assert(self.nodes@[i].state == old(self).nodes@[i].state);
                }
            }
            assert forall|i: int, j: int|
                0 <= i < self.nodes@.len() && 0 <= j < self.nodes@[i].neighbors@.len() implies {
                &&& #[trigger] self.nodes@[i].neighbors@[j] < self.nodes@.len()
                &&& self.nodes@[i].neighbors@[j] != i
            } by {
                assert(self.nodes@[i].neighbors@ == old(self).nodes@[i].neighbors@);
            }
        }
        Ok(())
    }
}

/// Reversing a measurement undoes it: measuring a node and then reversing that
/// measurement gives back the same states, neighbors, current and maximal memory, and
/// history.
pub proof fn lemma_reverse_measure_undoes_measure(g0: Graph, g1: Graph, g2: Graph, bit: usize)
    requires
        g0.wf(),
        bit < g0.states().len(),
        g0.increments_fit(bit),
        Graph::measured(g0, g1, bit),
        Graph::reverse_measured(g1, g2, bit),
    ensures
        g2.states() == g0.states(),
        g2.neighbor_lists() == g0.neighbor_lists(),
        g2.now() == g0.now(),
        g2.peak() == g0.peak(),
        g2.history() == g0.history(),
{
    assert forall|n: int| 0 <= n < g0.states().len() implies #[trigger] g2.states()[n]
        == g0.states()[n] by {
        if n != bit {
            assert(g0.nodes@[n].state == g0.states()[n]);
        } else {
            assert(g0.nodes@[n].state == g0.states()[n]);
        }
    }
    assert(g2.states() =~= g0.states());
    assert(g0.history().push(g0.peak() as usize).drop_last() =~= g0.history());
}

proof fn lemma_count_sleeping(j: nat)
    ensures
        count_class(Seq::new(j, |_i: int| State::Sleeping), true) == 0,
        count_class(Seq::new(j, |_i: int| State::Sleeping), false) == 0,
    decreases j,
{
    if j > 0 {
        assert(Seq::new(j, |_i: int| State::Sleeping).drop_last() =~= Seq::new(
            (j - 1) as nat,
            |_i: int| State::Sleeping,
        ));
        lemma_count_sleeping((j - 1) as nat);
    }
}

} // verus!
