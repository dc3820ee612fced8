//! The quantum memory required when the qubits of a graph state are measured one by
//! one, and the search for measurement orders that need little of it.
//!
//! Measuring a qubit requires that all its neighbors are in memory: sleeping neighbors
//! are initialized first. While a qubit is measured, it occupies memory together with
//! all qubits in memory.
use std::collections::HashMap;

use vstd::prelude::*;

use crate::analyse::combinatoric::{is_permutation, lex_less, permutations, permutations_of};
use crate::analyse::DependencyGraph;
use crate::scheduler::space::contains;
use crate::graph::{
    adjacency, count_of, edges_in_range, lemma_adjacency_shape, lemma_count_of_absent,
    lemma_count_of_bound, lemma_count_of_update,
};

verus! {

broadcast use vstd::std_specs::hash::group_hash_axioms;

/// The state of a qubit.
#[derive(Copy, Clone, PartialEq, Eq, Structural, PartialOrd, Ord, Hash, Debug)]
pub enum State {
    /// Not yet initialized.
    Sleeping,
    /// Initialized.
    InMemory,
    /// Measured.
    Measured,
}

impl Default for State {
    fn default() -> (r: Self)
        ensures
            r == State::Sleeping,
    {
        State::Sleeping
    }
}

/// A qubit: its state and its neighbors.
#[derive(PartialEq, Eq, PartialOrd, Ord, Hash, Debug)]
pub struct Node {
    state: State,
    neighbors: Vec<usize>,
}

impl Node {
    /// The state of the qubit.
    pub closed spec fn state_of(&self) -> State {
        self.state
    }

    /// The neighbors of the qubit.
    pub closed spec fn neighbors_of(&self) -> Seq<usize> {
        self.neighbors@
    }
}

impl Default for Node {
    fn default() -> (r: Self)
        ensures
            r.state_of() == State::Sleeping,
            r.neighbors_of() == Seq::<usize>::empty(),
    {
        Node { state: State::Sleeping, neighbors: Vec::new() }
    }
}

impl Clone for Node {
    fn clone(&self) -> (r: Self)
        ensures
            r.state_of() == self.state_of(),
            r.neighbors_of() == self.neighbors_of(),
    {
        Node { state: self.state, neighbors: self.neighbors.clone() }
    }
}

/// The qubits of a graph state, with the currently and maximally required memory.
#[derive(PartialEq, Eq, PartialOrd, Ord, Hash, Debug)]
pub struct Graph {
    nodes: Vec<Node>,
    current: usize,
    max: usize,
}

/// The state after an initialization: sleeping qubits are put into memory.
pub open spec fn initialized(s: State) -> State {
    if s == State::Sleeping {
        State::InMemory
    } else {
        s
    }
}

/// The states after measuring `bit`: its neighbors are initialized and it is measured
/// (if it was already, the neighbors are initialized all the same).
pub open spec fn measure_states(s: Seq<State>, lists: Seq<Seq<usize>>, bit: usize) -> Seq<State> {
    Seq::new(
        s.len(),
        |n: int|
            if n == bit {
                State::Measured
            } else if lists[bit as int].contains(n as usize) {
                initialized(s[n])
            } else {
                s[n]
            },
    )
}

/// The maximal memory after measuring `bit`: while it is measured, it is in memory
/// together with all qubits in memory. Measuring a measured qubit takes no memory.
pub open spec fn measure_peak(s: Seq<State>, lists: Seq<Seq<usize>>, peak: nat, bit: usize) -> nat {
    if s[bit as int] == State::Measured {
        peak
    } else {
        max_of(peak, count_of(measure_states(s, lists, bit), State::InMemory) + 1)
    }
}

/// The larger of two numbers.
pub open spec fn max_of(a: nat, b: nat) -> nat {
    if a >= b { a } else { b }
}

/// Measuring a qubit that is not measured yet needs, at that moment, the qubits that
/// are in memory once its neighbors are initialized, and the measured qubit itself,
/// whether it was sleeping or already in memory: the maximal memory becomes the larger
/// of the one before and that number. Measuring a measured qubit changes nothing.
pub proof fn lemma_measure_counts_measured_qubit(s: Seq<State>, lists: Seq<Seq<usize>>, peak: nat, bit: usize)
    requires
        bit < s.len(),
    ensures
        s[bit as int] == State::Measured ==> measure_peak(s, lists, peak, bit) == peak,
        s[bit as int] != State::Measured ==> {
            let after = measure_states(s, lists, bit);
            let needed = count_of(after, State::InMemory) + 1;
            &&& after[bit as int] == State::Measured
            &&& measure_peak(s, lists, peak, bit) >= peak
            &&& measure_peak(s, lists, peak, bit) >= needed
            &&& measure_peak(s, lists, peak, bit) == peak || measure_peak(s, lists, peak, bit) == needed
        },
{
}

/// The maximal memory after measuring the bits of `order` one after the other,
/// starting with the states `s` and the maximum `peak`.
pub open spec fn run_peak(s: Seq<State>, lists: Seq<Seq<usize>>, peak: nat, order: Seq<usize>) -> nat
    decreases order.len(),
{
    if order.len() == 0 {
        peak
    } else {
        run_peak(
            measure_states(s, lists, order[0]),
            lists,
            measure_peak(s, lists, peak, order[0]),
            order.drop_first(),
        )
    }
}

impl Graph {
    /// The states of the qubits.
    pub closed spec fn states(&self) -> Seq<State> {
        Seq::new(self.nodes@.len(), |i: int| self.nodes@[i].state)
    }

    /// The neighbors of the qubits.
    pub closed spec fn lists(&self) -> Seq<Seq<usize>> {
        Seq::new(self.nodes@.len(), |i: int| self.nodes@[i].neighbors@)
    }

    /// The currently required memory.
    pub closed spec fn now(&self) -> nat {
        self.current as nat
    }

    /// The maximally required memory so far.
    pub closed spec fn peak(&self) -> nat {
        self.max as nat
    }

    /// The neighbors are other qubits of the graph, and the current memory is the
    /// number of qubits in memory.
    pub closed spec fn wf(&self) -> bool {
        &&& forall|i: int, j: int|
            0 <= i < self.nodes@.len() && 0 <= j < self.nodes@[i].neighbors@.len() ==> {
                &&& #[trigger] self.nodes@[i].neighbors@[j] < self.nodes@.len()
                &&& self.nodes@[i].neighbors@[j] != i
            }
        &&& self.current as nat == count_of(self.states(), State::InMemory)
    }

    /// Create a graph with `num` sleeping qubits and the given edges, none of which may
    /// connect a qubit with itself.
    pub fn new(num: usize, edges: &[(usize, usize)]) -> (r: Self)
        requires
            edges_in_range(edges@, num as nat),
            forall|i: int| 0 <= i < edges@.len() ==> (#[trigger] edges@[i]).0 != edges@[i].1,
        ensures
            r.wf(),
            r.states() == Seq::new(num as nat, |_i: int| State::Sleeping),
            r.lists() == adjacency(edges@, num as nat),
            r.now() == 0,
            r.peak() == 0,
    {
        let mut nodes: Vec<Node> = Vec::new();
        let mut i: usize = 0;
        while i < num
            invariant
                i <= num,
                nodes@.len() == i,
                forall|k: int| 0 <= k < i ==> (#[trigger] nodes@[k]).state == State::Sleeping
                    && nodes@[k].neighbors@.len() == 0,
            decreases num - i,
        {
            nodes.push(Node::default());
            i += 1;
        }
        let mut k: usize = 0;
        while k < edges.len()
            invariant
                edges_in_range(edges@, num as nat),
                forall|i: int| 0 <= i < edges@.len() ==> (#[trigger] edges@[i]).0 != edges@[i].1,
                k <= edges@.len(),
                nodes@.len() == num,
                forall|m: int| 0 <= m < num ==> (#[trigger] nodes@[m]).state == State::Sleeping,
                forall|m: int| 0 <= m < num ==> (#[trigger] nodes@[m]).neighbors@ == adjacency(
                    edges@.take(k as int),
                    num as nat,
                )[m],
            decreases edges@.len() - k,
        {
            let (left, right) = edges[k];
            assert(edges@[k as int].0 < num && edges@[k as int].1 < num);
            proof {
                assert(edges@.take(k + 1).drop_last() =~= edges@.take(k as int));
                assert(edges@.take(k + 1).last() == edges@[k as int]);
                assert(edges_in_range(edges@.take(k as int), num as nat));
                lemma_adjacency_shape(edges@.take(k as int), num as nat, false);
            }
            nodes[left].neighbors.push(right);
            nodes[right].neighbors.push(left);
            k += 1;
        }
        let r = Self { nodes, current: 0, max: 0 };
        proof {
            assert(edges@.take(edges@.len() as int) =~= edges@);
            lemma_adjacency_shape(edges@, num as nat, true);
            assert(r.states() =~= Seq::new(num as nat, |_i: int| State::Sleeping));
            assert(r.lists() =~= adjacency(edges@, num as nat));
            lemma_count_of_absent(r.states(), State::InMemory);
            assert forall|a: int, b: int|
                0 <= a < r.nodes@.len() && 0 <= b < r.nodes@[a].neighbors@.len() implies {
                &&& #[trigger] r.nodes@[a].neighbors@[b] < r.nodes@.len()
                &&& r.nodes@[a].neighbors@[b] != a
            } by {
                assert(r.nodes@[a].neighbors@ == r.lists()[a]);
            }
        }
        r
    }

    // a neighbor of a measured qubit is initialized, unless it is measured
    fn initialize(&mut self, bit: usize) -> (r: Result<(), ()>)
        requires
            old(self).wf(),
            bit < old(self).states().len(),
        ensures
            final(self).wf(),
            final(self).states() == old(self).states().update(
                bit as int,
                initialized(old(self).states()[bit as int]),
            ),
            forall|i: int| 0 <= i < old(self).nodes@.len() ==> #[trigger] final(self).nodes@[i].neighbors
                == old(self).nodes@[i].neighbors,
            final(self).nodes@.len() == old(self).nodes@.len(),
            final(self).peak() == old(self).peak(),
            r is Err <==> old(self).states()[bit as int] == State::Measured,
    {
        let ghost s0 = self.states();
        let ghost v = initialized(s0[bit as int]);
        let _len = self.nodes.len();
        proof {
            lemma_count_of_update(s0, bit as int, v, State::InMemory);
            lemma_count_of_bound(s0, State::InMemory);
            assert(self.nodes@[bit as int].state == s0[bit as int]);
        }
        let r = match &mut self.nodes[bit].state {
            state @ State::Sleeping => {
                *state = State::InMemory;
                self.current += 1;
                Ok(())
            },
            State::InMemory => Ok(()),
            State::Measured => Err(()),
        };
        proof {
            assert(self.states() =~= s0.update(bit as int, v));
            assert forall|i: int, j: int|
                0 <= i < self.nodes@.len() && 0 <= j < self.nodes@[i].neighbors@.len() implies {
                &&& #[trigger] self.nodes@[i].neighbors@[j] < self.nodes@.len()
                &&& self.nodes@[i].neighbors@[j] != i
            } by {
                assert(self.nodes@[i].neighbors@ == old(self).nodes@[i].neighbors@);
            }
        }
        r
    }

    /// Measure `bit`: its neighbors are initialized, then it is measured; the maximal
    /// memory is updated with the memory during the measurement. Errors, after the
    /// neighbors are initialized, if the qubit is already measured.
    pub fn measure(&mut self, bit: usize) -> (r: Result<(), ()>)
        requires
            old(self).wf(),
            bit < old(self).states().len(),
        ensures
            final(self).wf(),
            final(self).lists() == old(self).lists(),
            final(self).states() == measure_states(old(self).states(), old(self).lists(), bit),
            final(self).peak() == measure_peak(old(self).states(), old(self).lists(), old(self).peak(), bit),
            final(self).now() == count_of(final(self).states(), State::InMemory),
            r is Err <==> old(self).states()[bit as int] == State::Measured,
            r is Err ==> final(self).peak() == old(self).peak(),
            r is Ok ==> final(self).states()[bit as int] == State::Measured,
            r is Ok ==> final(self).peak() >= old(self).peak(),
            r is Ok ==> final(self).peak() >= count_of(final(self).states(), State::InMemory) + 1,
            r is Ok ==> final(self).peak() == old(self).peak() || final(self).peak() == count_of(
                final(self).states(),
                State::InMemory,
            ) + 1,
    {
        let ghost s0 = self.states();
        let ghost lists = self.lists();
        let len = self.nodes.len();
        let mut neighbors: Vec<usize> = Vec::new();
        std::mem::swap(&mut neighbors, &mut self.nodes[bit].neighbors);
        proof {
            assert(neighbors@ == lists[bit as int]);
            assert(self.states() =~= s0);
            assert forall|i: int, j: int|
                0 <= i < self.nodes@.len() && 0 <= j < self.nodes@[i].neighbors@.len() implies {
                &&& #[trigger] self.nodes@[i].neighbors@[j] < self.nodes@.len()
                &&& self.nodes@[i].neighbors@[j] != i
            } by {
                assert(self.nodes@[i].neighbors@ == old(self).nodes@[i].neighbors@);
            }
            assert forall|k: int| 0 <= k < neighbors@.len() implies #[trigger] neighbors@[k] < len
                && neighbors@[k] != bit by {
                assert(old(self).nodes@[bit as int].neighbors@[k] == neighbors@[k]);
            }
        }
        let mut j: usize = 0;
        while j < neighbors.len()
            invariant
                self.wf(),
                len == self.nodes@.len(),
                bit < len,
                s0.len() == len,
                forall|k: int| 0 <= k < neighbors@.len() ==> #[trigger] neighbors@[k] < len
                    && neighbors@[k] != bit,
                forall|i: int| 0 <= i < len && i != bit ==> #[trigger] self.nodes@[i].neighbors
                    == old(self).nodes@[i].neighbors,
                self.nodes@[bit as int].neighbors@.len() == 0,
                j <= neighbors@.len(),
                self.states() == Seq::new(
                    len as nat,
                    |n: int|
                        if neighbors@.take(j as int).contains(n as usize) {
                            initialized(s0[n])
                        } else {
                            s0[n]
                        },
                ),
                self.peak() == old(self).peak(),
            decreases neighbors@.len() - j,
        {
            let n = neighbors[j];
            let _ = self.initialize(n);
            proof {
                assert forall|m: int| 0 <= m < len implies #[trigger] self.states()[m] == (
                if neighbors@.take(j + 1).contains(m as usize) {
                    initialized(s0[m])
                } else {
                    s0[m]
                }) by {
                    assert(neighbors@.take(j + 1) =~= neighbors@.take(j as int).push(n));
                    if neighbors@.take(j as int).contains(m as usize) {
                        let w = choose|w: int| 0 <= w < j && neighbors@.take(j as int)[w] == m as usize;
                        assert(neighbors@.take(j + 1)[w] == m as usize);
                    }
                    if neighbors@.take(j + 1).contains(m as usize) && !neighbors@.take(
                        j as int,
                    ).contains(m as usize) {
                        assert(m == n);
                    }
                    if m == n as int {
                        assert(neighbors@.take(j + 1)[j as int] == n);
                    }
                }
                assert(self.states() =~= Seq::new(
                    len as nat,
                    |m: int|
                        if neighbors@.take(j + 1).contains(m as usize) {
                            initialized(s0[m])
                        } else {
                            s0[m]
                        },
                ));
            }
            j += 1;
        }
        let ghost s_loop = self.states();
        let ghost nb = neighbors@;
        proof {
            assert(nb.take(nb.len() as int) =~= nb);
            assert(!nb.contains(bit));
            assert(nb == lists[bit as int]);
        }
        std::mem::swap(&mut neighbors, &mut self.nodes[bit].neighbors);
        let ghost s1 = self.states();
        proof {
            assert(s1 =~= s_loop);
            assert(s1[bit as int] == s0[bit as int]);
            assert(self.lists() =~= lists);
            assert forall|i: int, j: int|
                0 <= i < self.nodes@.len() && 0 <= j < self.nodes@[i].neighbors@.len() implies {
                &&& #[trigger] self.nodes@[i].neighbors@[j] < self.nodes@.len()
                &&& self.nodes@[i].neighbors@[j] != i
            } by {
                assert(self.nodes@[i].neighbors@ == old(self).nodes@[i].neighbors@);
            }
            lemma_count_of_update(s1, bit as int, State::Measured, State::InMemory);
            lemma_count_of_bound(s1, State::InMemory);
            assert forall|n: int| 0 <= n < len implies #[trigger] s1.update(bit as int, State::Measured)[n]
                == measure_states(s0, lists, bit)[n] by {
                if n != bit {
                    assert(s1[n] == s_loop[n]);
                }
            }
            assert(s1.update(bit as int, State::Measured) =~= measure_states(s0, lists, bit));
            assert(self.nodes@[bit as int].state == s1[bit as int]);
        }
        match self.nodes[bit].state {
            State::Sleeping => {
                self.current += 1;
                self.nodes[bit].state = State::Measured;
            },
            State::InMemory => self.nodes[bit].state = State::Measured,
            State::Measured => {
                return Err(());
            },
        }
        if self.current > self.max {
            self.max = self.current;
        }
        self.current -= 1;
        proof {
            assert(self.states() =~= measure_states(s0, lists, bit));
            assert(self.lists() =~= lists);
            assert forall|i: int, j: int|
                0 <= i < self.nodes@.len() && 0 <= j < self.nodes@[i].neighbors@.len() implies {
                &&& #[trigger] self.nodes@[i].neighbors@[j] < self.nodes@.len()
                &&& self.nodes@[i].neighbors@[j] != i
            } by {
                assert(self.nodes@[i].neighbors@ == old(self).nodes@[i].neighbors@);
            }
        }
        Ok(())
    }
}

/// The dependencies of the bits as sequences.
pub open spec fn deps_view(m: Map<usize, Vec<usize>>) -> Map<usize, Seq<usize>> {
    Map::new(|k: usize| m.contains_key(k), |k: usize| m[k]@)
}

/// Whether the order measures every bit only after all its dependencies.
pub open spec fn valid_order(order: Seq<usize>, deps: Map<usize, Seq<usize>>) -> bool {
    forall|i: int, j: int|
        0 <= i < order.len() && 0 <= j < deps[order[i]].len() ==> order.take(i).contains(
            #[trigger] deps[order[i]][j],
        )
}

/// Every bit of the order is one of the `len` qubits.
pub open spec fn fits(order: Seq<usize>, len: nat) -> bool {
    forall|i: int| 0 <= i < order.len() ==> #[trigger] order[i] < len
}

/// The best order among `orders`, starting from `init`: an order that is valid and
/// needs less memory than the best so far replaces it, with its memory.
pub open spec fn best_order(
    s: Seq<State>,
    lists: Seq<Seq<usize>>,
    peak: nat,
    deps: Map<usize, Seq<usize>>,
    orders: Seq<Seq<usize>>,
    init: (nat, Seq<usize>),
) -> (nat, Seq<usize>)
    decreases orders.len(),
{
    if orders.len() == 0 {
        init
    } else {
        let acc = best_order(s, lists, peak, deps, orders.drop_last(), init);
        let o = orders.last();
        let p = run_peak(s, lists, peak, o);
        if valid_order(o, deps) && p < acc.0 {
            (p, o)
        } else {
            acc
        }
    }
}

/// What [Graph::min_bits] promises of its result: the memory is at most that of the
/// start, and if it is less, the order is one of the given orders, respects the
/// dependencies and needs exactly that memory.
pub proof fn lemma_best_order(
    s: Seq<State>,
    lists: Seq<Seq<usize>>,
    peak: nat,
    deps: Map<usize, Seq<usize>>,
    orders: Seq<Seq<usize>>,
    init: (nat, Seq<usize>),
)
    ensures
        ({
            let r = best_order(s, lists, peak, deps, orders, init);
            &&& r.0 <= init.0
            &&& r.0 < init.0 ==> {
                &&& orders.contains(r.1)
                &&& valid_order(r.1, deps)
                &&& run_peak(s, lists, peak, r.1) == r.0
            }
            &&& forall|k: int|
                0 <= k < orders.len() && valid_order(#[trigger] orders[k], deps) ==> r.0 <= run_peak(
                    s,
                    lists,
                    peak,
                    orders[k],
                )
        }),
    decreases orders.len(),
{
    if orders.len() > 0 {
        let prev = orders.drop_last();
        lemma_best_order(s, lists, peak, deps, prev, init);
        let acc = best_order(s, lists, peak, deps, prev, init);
        let r = best_order(s, lists, peak, deps, orders, init);
        if acc.0 < init.0 {
            assert(prev.contains(acc.1));
            let w = choose|w: int| 0 <= w < prev.len() && prev[w] == acc.1;
            assert(orders[w] == acc.1);
        }
        assert(orders[orders.len() - 1] == orders.last());
        assert forall|k: int|
            0 <= k < orders.len() && valid_order(#[trigger] orders[k], deps) implies r.0 <= run_peak(
            s,
            lists,
            peak,
            orders[k],
        ) by {
            if k < orders.len() - 1 {
                assert(prev[k] == orders[k]);
            }
        }
    }
}

/// The best order is the first of the given orders that is valid and needs its memory:
/// every valid order before it needs more.
pub proof fn lemma_best_order_first(
    s: Seq<State>,
    lists: Seq<Seq<usize>>,
    peak: nat,
    deps: Map<usize, Seq<usize>>,
    orders: Seq<Seq<usize>>,
    init: (nat, Seq<usize>),
)
    ensures
        ({
            let r = best_order(s, lists, peak, deps, orders, init);
            r.0 < init.0 ==> exists|i: int|
                0 <= i < orders.len() && orders[i] == r.1 && forall|k: int|
                    0 <= k < i && valid_order(#[trigger] orders[k], deps) ==> run_peak(s, lists, peak, orders[k]) > r.0
        }),
    decreases orders.len(),
{
    if orders.len() > 0 {
        let prev = orders.drop_last();
        lemma_best_order_first(s, lists, peak, deps, prev, init);
        lemma_best_order(s, lists, peak, deps, prev, init);
        let acc = best_order(s, lists, peak, deps, prev, init);
        let r = best_order(s, lists, peak, deps, orders, init);
        let o = orders.last();
        let last = orders.len() - 1;
        assert(orders[last] == o);
        if valid_order(o, deps) && run_peak(s, lists, peak, o) < acc.0 {
            assert forall|k: int|
                0 <= k < last && valid_order(#[trigger] orders[k], deps) implies run_peak(s, lists, peak, orders[k]) > r.0 by {
                assert(prev[k] == orders[k]);
            }
        } else if r.0 < init.0 {
            let i = choose|i: int|
                0 <= i < prev.len() && prev[i] == acc.1 && forall|k: int|
                    0 <= k < i && valid_order(#[trigger] prev[k], deps) ==> run_peak(s, lists, peak, prev[k]) > acc.0;
            assert(orders[i] == r.1);
            assert forall|k: int|
                0 <= k < i && valid_order(#[trigger] orders[k], deps) implies run_peak(s, lists, peak, orders[k]) > r.0 by {
                assert(prev[k] == orders[k]);
            }
        }
    }
}

/// Over all orderings of the qubits in lexicographic order, the best order is the
/// lexicographically first valid ordering that needs no more memory than it.
pub proof fn lemma_first_best_permutation(
    s: Seq<State>,
    lists: Seq<Seq<usize>>,
    peak: nat,
    deps: Map<usize, Seq<usize>>,
    os: Seq<Seq<usize>>,
)
    requires
        forall|p: Seq<usize>| is_permutation(p, s.len()) ==> os.contains(p),
        forall|i: int, j: int| 0 <= i < j < os.len() ==> lex_less(#[trigger] os[i], #[trigger] os[j]),
    ensures
        ({
            let r = best_order(s, lists, peak, deps, os, ((s.len() + 1) as nat, Seq::new(s.len(), |i: int| i as usize)));
            r.0 < s.len() + 1 ==> forall|p: Seq<usize>|
                is_permutation(p, s.len()) && valid_order(p, deps) && run_peak(s, lists, peak, p) <= r.0 ==> p
                    == r.1 || lex_less(r.1, p)
        }),
{
    let init: (nat, Seq<usize>) = ((s.len() + 1) as nat, Seq::new(s.len(), |i: int| i as usize));
    let r = best_order(s, lists, peak, deps, os, init);
    lemma_best_order_first(s, lists, peak, deps, os, init);
    if r.0 < s.len() + 1 {
        let i = choose|i: int|
            0 <= i < os.len() && os[i] == r.1 && forall|k: int|
                0 <= k < i && valid_order(#[trigger] os[k], deps) ==> run_peak(s, lists, peak, os[k]) > r.0;
        assert forall|p: Seq<usize>|
            is_permutation(p, s.len()) && valid_order(p, deps) && run_peak(s, lists, peak, p) <= r.0 implies p == r.1
                || lex_less(r.1, p) by {
            assert(os.contains(p));
            let k = choose|k: int| 0 <= k < os.len() && os[k] == p;
            if k < i {
                assert(valid_order(os[k], deps));
            } else if k > i {
                assert(lex_less(os[i], os[k]));
            }
        }
    }
}

/// Whether `order` measures every bit only after its dependencies in `deps`, each of
/// which must be listed there.
fn valid_path(path: &Vec<usize>, deps: &HashMap<usize, Vec<usize>>) -> (r: bool)
    requires
        forall|i: int| 0 <= i < path@.len() ==> deps@.contains_key(#[trigger] path@[i]),
    ensures
        r == valid_order(path@, deps_view(deps@)),
{
    let ghost dv = deps_view(deps@);
    let mut measured: Vec<usize> = Vec::new();
    let mut i: usize = 0;
    while i < path.len()
        invariant
            i <= path@.len(),
            measured@ == path@.take(i as int),
            dv == deps_view(deps@),
            forall|k: int| 0 <= k < path@.len() ==> deps@.contains_key(#[trigger] path@[k]),
            forall|a: int, b: int|
                0 <= a < i && 0 <= b < dv[path@[a]].len() ==> path@.take(a).contains(
                    #[trigger] dv[path@[a]][b],
                ),
        decreases path@.len() - i,
    {
        let node = path[i];
        let node_deps = match deps.get(&node) {
            Some(d) => d,
            None => {
                proof {
                    assert(deps@.contains_key(path@[i as int]));
                }
                return false;
            },
        };
        proof {
            assert(node_deps@ == dv[path@[i as int]]);
        }
        let mut j: usize = 0;
        while j < node_deps.len()
            invariant
                j <= node_deps@.len(),
                i < path@.len(),
                dv == deps_view(deps@),
                node_deps@ == dv[path@[i as int]],
                measured@ == path@.take(i as int),
                forall|b: int| 0 <= b < j ==> measured@.contains(#[trigger] node_deps@[b]),
            decreases node_deps@.len() - j,
        {
            if !contains(&measured, node_deps[j]) {
                proof {
                    assert(node_deps@[j as int] == dv[path@[i as int]][j as int]);
                    assert(!path@.take(i as int).contains(dv[path@[i as int]][j as int]));
                }
                return false;
            }
            j += 1;
        }
        proof {
            assert forall|a: int, b: int|
                0 <= a < i + 1 && 0 <= b < dv[path@[a]].len() implies path@.take(a).contains(
                #[trigger] dv[path@[a]][b],
            ) by {
                if a == i {
                    assert(dv[path@[a]][b] == node_deps@[b]);
                }
            }
        }
        measured.push(node);
        proof {
            assert(path@.take(i + 1) =~= path@.take(i as int).push(node));
        }
        i += 1;
    }
    true
}

impl Clone for Graph {
    fn clone(&self) -> (r: Self)
        ensures
            r.states() == self.states(),
            r.lists() == self.lists(),
            r.now() == self.now(),
            r.peak() == self.peak(),
            r.wf() == self.wf(),
    {
        let r = Graph { nodes: self.nodes.clone(), current: self.current, max: self.max };
        proof {
            assert forall|i: int| 0 <= i < self.nodes@.len() implies #[trigger] r.nodes@[i].state
                == self.nodes@[i].state && r.nodes@[i].neighbors@ == self.nodes@[i].neighbors@ by {
                assert(cloned::<Node>(self.nodes@[i], r.nodes@[i]));
            }
            assert(r.states() =~= self.states());
            assert(r.lists() =~= self.lists());
        }
        r
    }
}

impl Graph {
    // the maximal memory when the bits of `order` are measured one after the other on a
    // copy of the graph
    fn peak_of(&self, order: &Vec<usize>) -> (r: usize)
        requires
            self.wf(),
            fits(order@, self.states().len()),
        ensures
            r == run_peak(self.states(), self.lists(), self.peak(), order@),
    {
        let len = self.nodes.len();
        let ghost s = order@;
        let mut copy = self.clone();
        assert(s.skip(0) =~= s);
        let mut j: usize = 0;
        while j < order.len()
            invariant
                copy.wf(),
                len == copy.states().len(),
                s == order@,
                fits(s, len as nat),
                copy.lists() == self.lists(),
                j <= s.len(),
                run_peak(copy.states(), copy.lists(), copy.peak(), s.skip(j as int)) == run_peak(
                    self.states(),
                    self.lists(),
                    self.peak(),
                    s,
                ),
            decreases s.len() - j,
        {
            let bit = order[j];
            let _ = copy.measure(bit);
            proof {
                assert(s.skip(j as int)[0] == bit);
                assert(s.skip(j as int).drop_first() =~= s.skip(j + 1));
            }
            j += 1;
        }
        proof {
            assert(s.skip(s.len() as int) =~= Seq::<usize>::empty());
        }
        copy.max
    }

    /// The measurement order of all qubits that respects the dependencies and needs the
    /// least memory, with that memory: each order is measured on a copy of the graph, and
    /// the first one with the least memory wins. If no order respects the dependencies,
    /// the result is the number of qubits plus one with the order `0, 1, ...`.
    pub fn min_bits(&mut self, deps: &HashMap<usize, Vec<usize>>) -> (r: (usize, Vec<usize>))
        requires
            old(self).wf(),
            old(self).states().len() < usize::MAX,
            forall|b: usize| b < old(self).states().len() ==> #[trigger] deps@.contains_key(b),
        ensures
            (r.0 as nat, r.1@) == best_order(
                old(self).states(),
                old(self).lists(),
                old(self).peak(),
                deps_view(deps@),
                permutations_of(old(self).states().len() as usize),
                (
                    old(self).states().len() + 1,
                    Seq::new(old(self).states().len(), |i: int| i as usize),
                ),
            ),
            *final(self) == *old(self),
            r.0 < old(self).states().len() + 1 ==> forall|p: Seq<usize>|
                is_permutation(p, old(self).states().len()) && valid_order(p, deps_view(deps@)) && run_peak(
                    old(self).states(),
                    old(self).lists(),
                    old(self).peak(),
                    p,
                ) <= r.0 ==> p == r.1@ || lex_less(r.1@, p),
    {
        let orders = permutations(self.nodes.len());
        let r = self.min_bits_over(deps, &orders);
        proof {
            lemma_first_best_permutation(
                self.states(),
                self.lists(),
                self.peak(),
                deps_view(deps@),
                orders.deep_view(),
            );
        }
        r
    }

    /// The best of the given measurement orders (see [best_order]): each order that
    /// respects the dependencies is measured on a copy of the graph, and the first one
    /// with the least memory wins; the start is the number of qubits plus one with the
    /// order `0, 1, ...`.
    pub fn min_bits_over(&self, deps: &HashMap<usize, Vec<usize>>, orders: &Vec<Vec<usize>>) -> (r: (
        usize,
        Vec<usize>,
    ))
        requires
            self.wf(),
            self.states().len() < usize::MAX,
            forall|b: usize| b < self.states().len() ==> #[trigger] deps@.contains_key(b),
            forall|k: int| 0 <= k < orders.deep_view().len() ==> fits(
                #[trigger] orders.deep_view()[k],
                self.states().len(),
            ),
        ensures
            (r.0 as nat, r.1@) == best_order(
                self.states(),
                self.lists(),
                self.peak(),
                deps_view(deps@),
                orders.deep_view(),
                (self.states().len() + 1, Seq::new(self.states().len(), |i: int| i as usize)),
            ),
    {
        let len = self.nodes.len();
        let ghost init: (nat, Seq<usize>) = ((len + 1) as nat, Seq::new(len as nat, |i: int| i as usize));
        let mut max = len + 1;
        let mut path: Vec<usize> = Vec::new();
        let mut b: usize = 0;
        while b < len
            invariant
                b <= len,
                path@ == Seq::new(b as nat, |i: int| i as usize),
            decreases len - b,
        {
            path.push(b);
            proof {
                assert(path@ =~= Seq::new((b + 1) as nat, |i: int| i as usize));
            }
            b += 1;
        }
        let mut i: usize = 0;
        while i < orders.len()
            invariant
                self.wf(),
                len == self.states().len(),
                len < usize::MAX,
                init == ((len + 1) as nat, Seq::new(len as nat, |i: int| i as usize)),
                forall|b: usize| b < len ==> #[trigger] deps@.contains_key(b),
                forall|k: int| 0 <= k < orders.deep_view().len() ==> fits(
                    #[trigger] orders.deep_view()[k],
                    len as nat,
                ),
                i <= orders@.len(),
                (max as nat, path@) == best_order(
                    self.states(),
                    self.lists(),
                    self.peak(),
                    deps_view(deps@),
                    orders.deep_view().take(i as int),
                    init,
                ),
            decreases orders@.len() - i,
        {
            let order = &orders[i];
            proof {
                assert(orders.deep_view()[i as int] =~= order@);
                assert(orders.deep_view().take(i + 1).drop_last() =~= orders.deep_view().take(
                    i as int,
                ));
                assert(orders.deep_view().take(i + 1).last() == order@);
                assert forall|k: int| 0 <= k < order@.len() implies deps@.contains_key(
                    #[trigger] order@[k],
                ) by {
                    assert(fits(order@, len as nat));
                    assert(order@[k] < len);
                }
            }
            if valid_path(order, deps) {
                let peak = self.peak_of(order);
                if peak < max {
                    max = peak;
                    path = order.clone();
                }
            }
            i += 1;
        }
        proof {
            assert(orders.deep_view().take(orders@.len() as int) =~= orders.deep_view());
        }
        (max, path)
    }
}

/// The bit-dependency pairs of all layers, layer after layer.
pub open spec fn flat(dg: Seq<Seq<(usize, Seq<usize>)>>) -> Seq<(usize, Seq<usize>)>
    decreases dg.len(),
{
    if dg.len() == 0 {
        Seq::empty()
    } else {
        flat(dg.drop_last()) + dg.last()
    }
}

/// The dependencies of each bit, from the pairs in order; a later pair of a bit
/// replaces an earlier one.
pub open spec fn deps_map(pairs: Seq<(usize, Seq<usize>)>) -> Map<usize, Seq<usize>>
    decreases pairs.len(),
{
    if pairs.len() == 0 {
        Map::empty()
    } else {
        deps_map(pairs.drop_last()).insert(pairs.last().0, pairs.last().1)
    }
}

/// Whether the layer holds a pair of `bit`.
pub open spec fn in_layer(layer: Seq<(usize, Seq<usize>)>, bit: usize) -> bool {
    exists|j: int| 0 <= j < layer.len() && (#[trigger] layer[j]).0 == bit
}

/// The index of the first layer that holds `bit`, if any.
pub open spec fn layer_of(dg: Seq<Seq<(usize, Seq<usize>)>>, bit: usize) -> Option<usize>
    decreases dg.len(),
{
    if dg.len() == 0 {
        None
    } else {
        match layer_of(dg.drop_last(), bit) {
            Some(i) => Some(i),
            None => if in_layer(dg.last(), bit) {
                Some((dg.len() - 1) as usize)
            } else {
                None
            },
        }
    }
}

/// The order split into consecutive sets, with the index of the last set: the first bit
/// opens the first set; a later bit joins the last set if its layer is not after the
/// last layer seen, else it opens a new set and its layer is the last one seen.
pub open spec fn schedule_state(order: Seq<usize>, dg: Seq<Seq<(usize, Seq<usize>)>>) -> (Seq<
    Seq<usize>,
>, usize)
    decreases order.len(),
{
    if order.len() <= 1 {
        (seq![seq![order[0]]], 0)
    } else {
        let (path, last) = schedule_state(order.drop_last(), dg);
        let bit = order.last();
        let layer = layer_of(dg, bit).unwrap();
        if layer <= last {
            (path.update(last as int, path[last as int].push(bit)), last)
        } else {
            (path.push(seq![bit]), layer)
        }
    }
}

/// Whether the order can be split into sets (see [schedule_state]): it is not empty,
/// each later bit is in some layer, and a new set opens only for the layer right after
/// the last one seen.
pub open spec fn schedulable(order: Seq<usize>, dg: Seq<Seq<(usize, Seq<usize>)>>) -> bool
    decreases order.len(),
{
    if order.len() <= 1 {
        order.len() == 1
    } else {
        &&& schedulable(order.drop_last(), dg)
        &&& layer_of(dg, order.last()) is Some
        &&& {
            let last = schedule_state(order.drop_last(), dg).1;
            let layer = layer_of(dg, order.last()).unwrap();
            layer <= last || layer == last + 1
        }
    }
}

/// The schedules of `present`, which all have the same length, together with `path`:
/// a longer `path` is dropped, one of the same length is appended, a shorter one
/// replaces them.
pub open spec fn compared(present: Seq<Seq<Seq<usize>>>, path: Seq<Seq<usize>>) -> Seq<Seq<Seq<usize>>> {
    if present[0].len() < path.len() {
        present
    } else if present[0].len() == path.len() {
        present.push(path)
    } else {
        seq![path]
    }
}

/// The schedules found so far, by memory; the shortest schedules among those outside
/// the bounds; and the memory of those.
pub type MixedState = (Map<usize, Seq<Seq<Seq<usize>>>>, Option<Seq<Seq<Seq<usize>>>>, nat);

/// One step of [mixed_fold]: an order with memory `p` and schedule `sched` joins the
/// schedules of its memory if `lower <= p < upper`; else, if the shortest schedules are
/// asked for and `p` is at most the memory of those so far, it joins them.
pub open spec fn mixed_step(
    acc: MixedState,
    p: nat,
    sched: Seq<Seq<usize>>,
    lower: nat,
    upper: nat,
    get_shortest: bool,
) -> MixedState {
    if lower <= p < upper {
        let key = p as usize;
        let entry = if acc.0.contains_key(key) {
            compared(acc.0[key], sched)
        } else {
            seq![sched]
        };
        (acc.0.insert(key, entry), acc.1, acc.2)
    } else if get_shortest && p <= acc.2 {
        let m = match acc.1 {
            Some(present) => compared(present, sched),
            None => seq![sched],
        };
        (acc.0, Some(m), p)
    } else {
        acc
    }
}

/// The number of sets of the schedule of an order.
pub open spec fn order_layers(o: Seq<usize>, dg: Seq<Seq<(usize, Seq<usize>)>>) -> nat {
    schedule_state(o, dg).0.len()
}

/// The valid orders among `orders` that need the memory `k`, in their order.
pub open spec fn orders_with_memory(
    s: Seq<State>,
    lists: Seq<Seq<usize>>,
    peak: nat,
    dg: Seq<Seq<(usize, Seq<usize>)>>,
    orders: Seq<Seq<usize>>,
    k: nat,
) -> Seq<Seq<usize>> {
    orders.filter(|o: Seq<usize>| valid_order(o, deps_map(flat(dg))) && run_peak(s, lists, peak, o) == k)
}

/// The fewest sets that the schedule of one of the orders has (0 for no orders).
pub open spec fn fewest_layers(os: Seq<Seq<usize>>, dg: Seq<Seq<(usize, Seq<usize>)>>) -> nat
    decreases os.len(),
{
    if os.len() == 0 {
        0
    } else {
        let rest = os.drop_last();
        let l = order_layers(os.last(), dg);
        if rest.len() == 0 || l < fewest_layers(rest, dg) {
            l
        } else {
            fewest_layers(rest, dg)
        }
    }
}

/// The schedules of those of the orders whose schedules have the fewest sets, in the
/// order of the orders.
pub open spec fn shortest_schedules(os: Seq<Seq<usize>>, dg: Seq<Seq<(usize, Seq<usize>)>>) -> Seq<
    Seq<Seq<usize>>,
> {
    os.filter(|o: Seq<usize>| order_layers(o, dg) == fewest_layers(os, dg)).map_values(
        |o: Seq<usize>| schedule_state(o, dg).0,
    )
}

/// Filtering after a push: the pushed element joins if it meets the predicate.
proof fn lemma_filter_push(c: Seq<Seq<usize>>, o: Seq<usize>, pred: spec_fn(Seq<usize>) -> bool)
    ensures
        c.push(o).filter(pred) == (if pred(o) {
            c.filter(pred).push(o)
        } else {
            c.filter(pred)
        }),
{
    reveal(Seq::filter);
    assert(c.push(o).drop_last() =~= c);
}

/// Every order's schedule has at least the fewest sets, and some order's has exactly
/// that many.
proof fn lemma_fewest_layers(os: Seq<Seq<usize>>, dg: Seq<Seq<(usize, Seq<usize>)>>)
    ensures
        forall|i: int| 0 <= i < os.len() ==> order_layers(#[trigger] os[i], dg) >= fewest_layers(os, dg),
        os.len() > 0 ==> exists|i: int| 0 <= i < os.len() && order_layers(#[trigger] os[i], dg) == fewest_layers(os, dg),
    decreases os.len(),
{
    if os.len() > 0 {
        let rest = os.drop_last();
        lemma_fewest_layers(rest, dg);
        assert forall|i: int| 0 <= i < os.len() implies order_layers(#[trigger] os[i], dg) >= fewest_layers(os, dg) by {
            if i < rest.len() {
                assert(rest[i] == os[i]);
            }
        }
        if rest.len() > 0 && fewest_layers(os, dg) == fewest_layers(rest, dg) {
            let i = choose|i: int| 0 <= i < rest.len() && order_layers(#[trigger] rest[i], dg) == fewest_layers(rest, dg);
            assert(os[i] == rest[i]);
        } else {
            assert(os[os.len() - 1] == os.last());
        }
    }
}

/// The schedules of [Graph::mixed] in direct terms: a memory `k` has schedules exactly
/// when it is within the bounds and some valid order needs it; they are then the
/// schedules with the fewest sets among the valid orders that need `k`, in the order
/// of the orders.
pub proof fn lemma_mixed_schedules(
    s: Seq<State>,
    lists: Seq<Seq<usize>>,
    peak: nat,
    dg: Seq<Seq<(usize, Seq<usize>)>>,
    orders: Seq<Seq<usize>>,
    lower: nat,
    upper: nat,
    get_shortest: bool,
    init: nat,
)
    requires
        upper <= usize::MAX + 1,
    ensures
        ({
            let f = mixed_fold(s, lists, peak, dg, orders, lower, upper, get_shortest, init);
            &&& forall|k: usize|
                #[trigger] f.0.contains_key(k) <==> lower <= k < upper && orders_with_memory(
                    s,
                    lists,
                    peak,
                    dg,
                    orders,
                    k as nat,
                ).len() > 0
            &&& forall|k: usize|
                #[trigger] f.0.contains_key(k) ==> f.0[k] == shortest_schedules(
                    orders_with_memory(s, lists, peak, dg, orders, k as nat),
                    dg,
                )
        }),
    decreases orders.len(),
{
    let f = mixed_fold(s, lists, peak, dg, orders, lower, upper, get_shortest, init);
    let cands = |os: Seq<Seq<usize>>, k: nat| orders_with_memory(s, lists, peak, dg, os, k);
    if orders.len() == 0 {
        reveal(Seq::filter);
        assert forall|k: usize| !#[trigger] f.0.contains_key(k) && orders_with_memory(s, lists, peak, dg, orders, k as nat).len() == 0 by {
        }
    } else {
        let prev = orders.drop_last();
        let o = orders.last();
        assert(prev.push(o) =~= orders);
        lemma_mixed_schedules(s, lists, peak, dg, prev, lower, upper, get_shortest, init);
        let acc = mixed_fold(s, lists, peak, dg, prev, lower, upper, get_shortest, init);
        let valid = valid_order(o, deps_map(flat(dg)));
        let p = run_peak(s, lists, peak, o);
        assert forall|k: usize| #![trigger f.0.contains_key(k)]
            (f.0.contains_key(k) <==> lower <= k < upper && orders_with_memory(s, lists, peak, dg, orders, k as nat).len() > 0)
            && (f.0.contains_key(k) ==> f.0[k] == shortest_schedules(orders_with_memory(s, lists, peak, dg, orders, k as nat), dg)) by {
            let pred = |x: Seq<usize>| valid_order(x, deps_map(flat(dg))) && run_peak(s, lists, peak, x) == k as nat;
            lemma_filter_push(prev, o, pred);
            let c0 = orders_with_memory(s, lists, peak, dg, prev, k as nat);
            let c1 = orders_with_memory(s, lists, peak, dg, orders, k as nat);
            assert(c0 == prev.filter(pred));
            assert(c1 == orders.filter(pred));
            if valid && p == k as nat && lower <= p < upper {
                assert(c1 == c0.push(o));
                assert(f.0 == acc.0.insert(k, if acc.0.contains_key(k) {
                    compared(acc.0[k], schedule_state(o, dg).0)
                } else {
                    seq![schedule_state(o, dg).0]
                }));
                let lp = |x: Seq<usize>| order_layers(x, dg) == fewest_layers(c1, dg);
                let l0 = |x: Seq<usize>| order_layers(x, dg) == fewest_layers(c0, dg);
                let sched = |x: Seq<usize>| schedule_state(x, dg).0;
                lemma_filter_push(c0, o, lp);
                assert(c1.drop_last() =~= c0);
                assert(c1.last() == o);
                if acc.0.contains_key(k) {
                    lemma_fewest_layers(c0, dg);
                    let present = acc.0[k];
                    let w = choose|i: int| 0 <= i < c0.len() && order_layers(#[trigger] c0[i], dg) == fewest_layers(c0, dg);
                    c0.lemma_filter_contains(l0, w);
                    assert(c0.filter(l0).len() > 0);
                    c0.lemma_filter_pred(l0, 0);
                    assert(present == c0.filter(l0).map_values(sched));
                    assert(present[0] == schedule_state(c0.filter(l0)[0], dg).0);
                    assert(present[0].len() == fewest_layers(c0, dg));
                    let lo = order_layers(o, dg);
                    if fewest_layers(c0, dg) < lo {
                        assert(fewest_layers(c1, dg) == fewest_layers(c0, dg));
                        assert(c0.filter(lp) =~= c0.filter(l0));
                    } else if fewest_layers(c0, dg) == lo {
                        assert(fewest_layers(c1, dg) == fewest_layers(c0, dg));
                        assert(c0.filter(lp) =~= c0.filter(l0));
                        assert(c0.filter(l0).push(o).map_values(sched) =~= present.push(schedule_state(o, dg).0));
                    } else {
                        assert(fewest_layers(c1, dg) == lo);
                        assert(c0.filter(lp).len() == 0) by {
                            if c0.filter(lp).len() > 0 {
                                c0.lemma_filter_pred(lp, 0);
                                c0.lemma_filter_contains_rev(lp, c0.filter(lp)[0]);
                                let j = choose|j: int| 0 <= j < c0.len() && c0[j] == c0.filter(lp)[0];
                                assert(order_layers(c0[j], dg) >= fewest_layers(c0, dg));
                            }
                        }
                        assert(c0.filter(lp).push(o).map_values(sched) =~= seq![schedule_state(o, dg).0]);
                    }
                } else {
                    assert(c0.len() == 0);
                    reveal(Seq::filter);
                    assert(c0.filter(lp) =~= c0);
                    assert(fewest_layers(c1, dg) == order_layers(o, dg));
                    assert(c0.filter(lp).push(o).map_values(sched) =~= seq![schedule_state(o, dg).0]);
                }
            } else {
                if valid && p == k as nat {
                    assert(c1 == c0.push(o));
                    assert(!(lower <= k < upper));
                    assert(!f.0.contains_key(k)) by {
                        if f.0.contains_key(k) {
                            assert(acc.0.contains_key(k));
                        }
                    }
                } else {
                    assert(c1 == c0);
                    if valid && lower <= p < upper {
                        assert((p as usize) as nat == p);
                        assert(p as usize != k);
                    }
                }
            }
        }
    }
}

/// The schedules of the valid `orders` (see [mixed_step]), starting with no schedules
/// and the memory `init`.
pub open spec fn mixed_fold(
    s: Seq<State>,
    lists: Seq<Seq<usize>>,
    peak: nat,
    dg: Seq<Seq<(usize, Seq<usize>)>>,
    orders: Seq<Seq<usize>>,
    lower: nat,
    upper: nat,
    get_shortest: bool,
    init: nat,
) -> MixedState
    decreases orders.len(),
{
    if orders.len() == 0 {
        (Map::empty(), None, init)
    } else {
        let acc = mixed_fold(s, lists, peak, dg, orders.drop_last(), lower, upper, get_shortest, init);
        let o = orders.last();
        if valid_order(o, deps_map(flat(dg))) {
            mixed_step(
                acc,
                run_peak(s, lists, peak, o),
                schedule_state(o, dg).0,
                lower,
                upper,
                get_shortest,
            )
        } else {
            acc
        }
    }
}

/// The schedules of a map by their views.
pub open spec fn schedules_view(m: Map<usize, Vec<Vec<Vec<usize>>>>) -> Map<usize, Seq<Seq<Seq<usize>>>> {
    Map::new(|k: usize| m.contains_key(k), |k: usize| m[k].deep_view())
}

proof fn lemma_schedule_shape(order: Seq<usize>, dg: Seq<Seq<(usize, Seq<usize>)>>)
    requires
        schedulable(order, dg),
    ensures
        schedule_state(order, dg).0.len() == schedule_state(order, dg).1 + 1,
    decreases order.len(),
{
    if order.len() > 1 {
        lemma_schedule_shape(order.drop_last(), dg);
    }
}

// the index of the first layer that holds `bit`
fn find_layer(bit: usize, deps: &DependencyGraph) -> (r: Option<usize>)
    ensures
        r == layer_of(deps.deep_view(), bit),
{
    let ghost dg = deps.deep_view();
    let mut i: usize = 0;
    while i < deps.len()
        invariant
            i <= deps@.len(),
            dg == deps.deep_view(),
            layer_of(dg.take(i as int), bit) is None,
        decreases deps@.len() - i,
    {
        let layer = &deps[i];
        proof {
            assert(dg.take(i + 1).drop_last() =~= dg.take(i as int));
            assert(dg.take(i + 1).last() == dg[i as int]);
            assert(dg[i as int] =~= layer.deep_view());
        }
        let mut j: usize = 0;
        while j < layer.len()
            invariant
                j <= layer@.len(),
                i < deps@.len(),
                dg == deps.deep_view(),
                dg[i as int] == layer.deep_view(),
                layer_of(dg.take(i as int), bit) is None,
                forall|k: int| 0 <= k < j ==> (#[trigger] layer@[k]).0 != bit,
            decreases layer@.len() - j,
        {
            if layer[j].0 == bit {
                proof {
                    assert(layer.deep_view()[j as int].0 == bit);
                    assert(dg.take(i + 1).drop_last() =~= dg.take(i as int));
                    assert(dg.take(i + 1).last() == dg[i as int]);
                    assert(in_layer(dg.take(i + 1).last(), bit));
                    lemma_layer_of_prefix(dg, i + 1, bit);
                }
                return Some(i);
            }
            j += 1;
        }
        proof {
            assert forall|k: int| 0 <= k < layer.deep_view().len() implies (
            #[trigger] layer.deep_view()[k]).0 != bit by {
                assert(layer.deep_view()[k].0 == layer@[k].0);
            }
            assert(!in_layer(dg.take(i + 1).last(), bit));
        }
        i += 1;
    }
    proof {
        assert(dg.take(deps@.len() as int) =~= dg);
    }
    None
}

proof fn lemma_layer_of_prefix(dg: Seq<Seq<(usize, Seq<usize>)>>, k: int, bit: usize)
    requires
        0 <= k <= dg.len(),
        layer_of(dg.take(k), bit) is Some,
    ensures
        layer_of(dg, bit) == layer_of(dg.take(k), bit),
    decreases dg.len(),
{
    if k == dg.len() {
        assert(dg.take(k) =~= dg);
    } else {
        assert(dg.drop_last().take(k) =~= dg.take(k));
        lemma_layer_of_prefix(dg.drop_last(), k, bit);
    }
}

// split the order into sets of bits that may be measured together
fn schedule(s: &Vec<usize>, deps_graph: &DependencyGraph) -> (r: Vec<Vec<usize>>)
    requires
        schedulable(s@, deps_graph.deep_view()),
    ensures
        r.deep_view() == schedule_state(s@, deps_graph.deep_view()).0,
{
    let ghost dg = deps_graph.deep_view();
    let mut path: Vec<Vec<usize>> = Vec::new();
    let bit = s[0];
    let mut last_layer: usize = 0;
    let mut first: Vec<usize> = Vec::new();
    first.push(bit);
    path.push(first);
    proof {
        assert(s@.take(1).len() == 1);
        assert(s@.take(1)[0] == bit);
        assert(path.deep_view()[0] =~= seq![bit]);
        assert(path.deep_view() =~= schedule_state(s@.take(1), dg).0);
    }
    let mut i: usize = 1;
    while i < s.len()
        invariant
            1 <= i <= s@.len(),
            dg == deps_graph.deep_view(),
            schedulable(s@, dg),
            path.deep_view() == schedule_state(s@.take(i as int), dg).0,
            last_layer == schedule_state(s@.take(i as int), dg).1,
        decreases s@.len() - i,
    {
        let bit = s[i];
        proof {
            lemma_schedulable_prefix(s@, i + 1, dg);
            assert(s@.take(i + 1).drop_last() =~= s@.take(i as int));
            assert(s@.take(i + 1).last() == bit);
            lemma_schedulable_prefix(s@, i as int, dg);
            lemma_schedule_shape(s@.take(i as int), dg);
        }
        let layer = find_layer(bit, deps_graph).unwrap();
        let ghost prev = path.deep_view();
        let ghost prev_raw = path@;
        if layer <= last_layer {
            path[last_layer].push(bit);
            proof {
                assert(path@.len() == prev_raw.len());
                assert forall|k: int| 0 <= k < prev.len() implies #[trigger] path.deep_view()[k]
                    == prev.update(last_layer as int, prev[last_layer as int].push(bit))[k] by {
                    if k == last_layer {
                        assert(path@[k]@ == prev_raw[k]@.push(bit));
                        assert(path.deep_view()[k] =~= prev[k].push(bit));
                    } else {
                        assert(path@[k] == prev_raw[k]);
                    }
                }
                assert(path.deep_view() =~= prev.update(
                    last_layer as int,
                    prev[last_layer as int].push(bit),
                ));
            }
        } else {
            let mut opened: Vec<usize> = Vec::new();
            opened.push(bit);
            path.push(opened);
            last_layer = layer;
            proof {
                assert(path.deep_view()[prev.len() as int] =~= seq![bit]);
                assert(path.deep_view() =~= prev.push(seq![bit]));
            }
        }
        i += 1;
    }
    proof {
        assert(s@.take(s@.len() as int) =~= s@);
    }
    path
}

proof fn lemma_schedulable_prefix(order: Seq<usize>, k: int, dg: Seq<Seq<(usize, Seq<usize>)>>)
    requires
        1 <= k <= order.len(),
        schedulable(order, dg),
    ensures
        schedulable(order.take(k), dg),
    decreases order.len(),
{
    if k == order.len() {
        assert(order.take(k) =~= order);
    } else {
        assert(order.drop_last().take(k) =~= order.take(k));
        lemma_schedulable_prefix(order.drop_last(), k, dg);
    }
}

// add `path` to the schedules that are present (see [compared])
fn compare(present: &mut Vec<Vec<Vec<usize>>>, path: Vec<Vec<usize>>)
    requires
        old(present)@.len() > 0,
    ensures
        final(present).deep_view() == compared(old(present).deep_view(), path.deep_view()),
        final(present)@.len() > 0,
{
    let first_len = present[0].len();
    if first_len < path.len() {
    } else if first_len == path.len() {
        present.push(path);
        proof {
            assert(final(present).deep_view() =~= old(present).deep_view().push(path.deep_view()));
        }
    } else {
        let ghost pv = path.deep_view();
        *present = vec![path];
        proof {
            assert(present.deep_view() =~= seq![pv]);
        }
    }
}

// one schedule
fn single(path: Vec<Vec<usize>>) -> (r: Vec<Vec<Vec<usize>>>)
    ensures
        r.deep_view() == seq![path.deep_view()],
        r@.len() == 1,
{
    let ghost pv = path.deep_view();
    let mut r: Vec<Vec<Vec<usize>>> = Vec::new();
    r.push(path);
    proof {
        assert(r.deep_view() =~= seq![pv]);
    }
    r
}

impl Graph {
    /// The measurement orders of all qubits that respect the dependencies of the
    /// `deps_graph`, split into sets by its layers, grouped by the memory that they need
    /// (see [mixed_fold]): those with `lower_bound <= memory < upper_bound` by their
    /// memory; with `get_shortest`, the shortest of those outside the bounds that need
    /// the least memory so far. The orders are measured on copies of the graph.
    pub fn mixed(
        &mut self,
        deps_graph: &DependencyGraph,
        lower_bound: usize,
        upper_bound: usize,
        get_shortest: bool,
    ) -> (r: (HashMap<usize, Vec<Vec<Vec<usize>>>>, Option<Vec<Vec<Vec<usize>>>>))
        requires
            old(self).wf(),
            old(self).states().len() < usize::MAX,
            forall|b: usize|
                b < old(self).states().len() ==> #[trigger] deps_map(
                    flat(deps_graph.deep_view()),
                ).contains_key(b),
            forall|o: Seq<usize>|
                is_permutation(o, old(self).states().len()) && valid_order(
                    o,
                    deps_map(flat(deps_graph.deep_view())),
                ) ==> #[trigger] schedulable(o, deps_graph.deep_view()),
        ensures
            ({
                let f = mixed_fold(
                    old(self).states(),
                    old(self).lists(),
                    old(self).peak(),
                    deps_graph.deep_view(),
                    permutations_of(old(self).states().len() as usize),
                    lower_bound as nat,
                    upper_bound as nat,
                    get_shortest,
                    old(self).states().len() + 1,
                );
                &&& schedules_view(r.0@) == f.0
                &&& r.1.deep_view() == f.1
            }),
            forall|k: usize|
                #[trigger] schedules_view(r.0@).contains_key(k) <==> lower_bound <= k < upper_bound
                    && orders_with_memory(
                    old(self).states(),
                    old(self).lists(),
                    old(self).peak(),
                    deps_graph.deep_view(),
                    permutations_of(old(self).states().len() as usize),
                    k as nat,
                ).len() > 0,
            forall|k: usize|
                #[trigger] schedules_view(r.0@).contains_key(k) ==> schedules_view(r.0@)[k] == shortest_schedules(
                    orders_with_memory(
                        old(self).states(),
                        old(self).lists(),
                        old(self).peak(),
                        deps_graph.deep_view(),
                        permutations_of(old(self).states().len() as usize),
                        k as nat,
                    ),
                    deps_graph.deep_view(),
                ),
            *final(self) == *old(self),
    {
        let orders = permutations(self.nodes.len());
        let r = self.mixed_over(deps_graph, &orders, lower_bound, upper_bound, get_shortest);
        proof {
            lemma_mixed_schedules(
                self.states(),
                self.lists(),
                self.peak(),
                deps_graph.deep_view(),
                orders.deep_view(),
                lower_bound as nat,
                upper_bound as nat,
                get_shortest,
                self.states().len() + 1,
            );
        }
        r
    }

    /// Like [Graph::mixed], over the given measurement orders (see [mixed_fold]).
    pub fn mixed_over(
        &self,
        deps_graph: &DependencyGraph,
        orders: &Vec<Vec<usize>>,
        lower_bound: usize,
        upper_bound: usize,
        get_shortest: bool,
    ) -> (r: (HashMap<usize, Vec<Vec<Vec<usize>>>>, Option<Vec<Vec<Vec<usize>>>>))
        requires
            self.wf(),
            self.states().len() < usize::MAX,
            forall|b: usize|
                b < self.states().len() ==> #[trigger] deps_map(
                    flat(deps_graph.deep_view()),
                ).contains_key(b),
            forall|k: int|
                0 <= k < orders.deep_view().len() ==> fits(
                    #[trigger] orders.deep_view()[k],
                    self.states().len(),
                ) && (valid_order(orders.deep_view()[k], deps_map(flat(deps_graph.deep_view())))
                    ==> schedulable(orders.deep_view()[k], deps_graph.deep_view())),
        ensures
            ({
                let f = mixed_fold(
                    self.states(),
                    self.lists(),
                    self.peak(),
                    deps_graph.deep_view(),
                    orders.deep_view(),
                    lower_bound as nat,
                    upper_bound as nat,
                    get_shortest,
                    self.states().len() + 1,
                );
                &&& schedules_view(r.0@) == f.0
                &&& r.1.deep_view() == f.1
            }),
    {
        let ghost dg = deps_graph.deep_view();
        let ghost dm = deps_map(flat(dg));
        let deps = dependencies(deps_graph);
        let len = self.nodes.len();
        let ghost init: nat = (len + 1) as nat;
        let mut max: usize = len + 1;
        let mut min_bits_path: Option<Vec<Vec<Vec<usize>>>> = None;
        let mut res: HashMap<usize, Vec<Vec<Vec<usize>>>> = HashMap::new();
        proof {
            assert(schedules_view(res@) =~= Map::empty());
        }
        let mut i: usize = 0;
        while i < orders.len()
            invariant
                self.wf(),
                len == self.states().len(),
                len < usize::MAX,
                dg == deps_graph.deep_view(),
                dm == deps_map(flat(dg)),
                deps_view(deps@) == dm,
                init == len + 1,
                forall|b: usize| b < len ==> #[trigger] dm.contains_key(b),
                forall|k: int|
                    0 <= k < orders.deep_view().len() ==> fits(
                        #[trigger] orders.deep_view()[k],
                        len as nat,
                    ) && (valid_order(orders.deep_view()[k], dm) ==> schedulable(
                        orders.deep_view()[k],
                        dg,
                    )),
                i <= orders@.len(),
                ({
                    let f = mixed_fold(
                        self.states(),
                        self.lists(),
                        self.peak(),
                        dg,
                        orders.deep_view().take(i as int),
                        lower_bound as nat,
                        upper_bound as nat,
                        get_shortest,
                        init,
                    );
                    &&& schedules_view(res@) == f.0
                    &&& min_bits_path.deep_view() == f.1
                    &&& max as nat == f.2
                }),
                forall|k: usize| res@.contains_key(k) ==> (#[trigger] res@[k])@.len() > 0,
                min_bits_path matches Some(m) ==> m@.len() > 0,
            decreases orders@.len() - i,
        {
            let order = &orders[i];
            let ghost o = order@;
            let ghost prev = mixed_fold(
                self.states(),
                self.lists(),
                self.peak(),
                dg,
                orders.deep_view().take(i as int),
                lower_bound as nat,
                upper_bound as nat,
                get_shortest,
                init,
            );
            proof {
                assert(orders.deep_view()[i as int] =~= o);
                assert(orders.deep_view().take(i + 1).drop_last() =~= orders.deep_view().take(
                    i as int,
                ));
                assert(orders.deep_view().take(i + 1).last() == o);
                assert forall|k: int| 0 <= k < o.len() implies deps@.contains_key(#[trigger] o[k]) by {
                    assert(fits(o, len as nat));
                    assert(o[k] < len);
                    assert(dm.contains_key(o[k]));
                }
            }
            if valid_path(order, &deps) {
                let p = self.peak_of(order);
                if lower_bound <= p && p < upper_bound {
                    let path = schedule(order, deps_graph);
                    let ghost pv = path.deep_view();
                    match res.remove(&p) {
                        Some(mut present) => {
                            compare(&mut present, path);
                            let ghost pr = present.deep_view();
                            res.insert(p, present);
                            proof {
                                assert(schedules_view(res@) =~= prev.0.insert(p, pr));
                            }
                        },
                        None => {
                            let v = single(path);
                            let ghost vv = v.deep_view();
                            res.insert(p, v);
                            proof {
                                assert(schedules_view(res@) =~= prev.0.insert(p, vv));
                            }
                        },
                    }
                } else if get_shortest && p <= max {
                    max = p;
                    let path = schedule(order, deps_graph);
                    min_bits_path = match min_bits_path {
                        Some(mut present) => {
                            compare(&mut present, path);
                            Some(present)
                        },
                        None => Some(single(path)),
                    };
                }
            }
            i += 1;
        }
        proof {
            assert(orders.deep_view().take(orders@.len() as int) =~= orders.deep_view());
        }
        (res, min_bits_path)
    }
}

// the dependencies of each bit in the layers; a later entry of a bit replaces an earlier
// one
fn dependencies(deps_graph: &DependencyGraph) -> (r: HashMap<usize, Vec<usize>>)
    ensures
        deps_view(r@) == deps_map(flat(deps_graph.deep_view())),
{
    let ghost dg = deps_graph.deep_view();
    let mut deps: HashMap<usize, Vec<usize>> = HashMap::new();
    proof {
        assert(deps_view(deps@) =~= deps_map(flat(dg.take(0))));
    }
    let mut i: usize = 0;
    while i < deps_graph.len()
        invariant
            i <= deps_graph@.len(),
            dg == deps_graph.deep_view(),
            deps_view(deps@) == deps_map(flat(dg.take(i as int))),
        decreases deps_graph@.len() - i,
    {
        let layer = &deps_graph[i];
        let ghost before = flat(dg.take(i as int));
        proof {
            assert(dg.take(i + 1).drop_last() =~= dg.take(i as int));
            assert(dg.take(i + 1).last() == dg[i as int]);
            assert(dg[i as int] =~= layer.deep_view());
            assert(before + layer.deep_view().take(0) =~= before);
        }
        let mut j: usize = 0;
        while j < layer.len()
            invariant
                j <= layer@.len(),
                deps_view(deps@) == deps_map(before + layer.deep_view().take(j as int)),
            decreases layer@.len() - j,
        {
            let entry = &layer[j];
            let ghost pairs = before + layer.deep_view().take(j + 1);
            proof {
                assert(pairs.drop_last() =~= before + layer.deep_view().take(j as int));
                assert(pairs.last() == layer.deep_view()[j as int]);
            }
            let d = entry.1.clone();
            let ghost dv = d@;
            deps.insert(entry.0, d);
            proof {
                assert(layer.deep_view()[j as int].1 =~= dv);
                assert(deps_view(deps@) =~= deps_map(pairs));
            }
            j += 1;
        }
        proof {
            assert(layer.deep_view().take(layer@.len() as int) =~= layer.deep_view());
            assert(flat(dg.take(i + 1)) == before + layer.deep_view());
        }
        i += 1;
    }
    proof {
        assert(dg.take(deps_graph@.len() as int) =~= dg);
    }
    deps
}

} // verus!
