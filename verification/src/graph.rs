//! Facts about adjacency lists built from edge lists, shared by the graph types of the
//! scheduling modules.
use vstd::prelude::*;

verus! {

/// The number of times `n` occurs in `s`.
pub open spec fn occurrences(s: Seq<usize>, n: usize) -> nat
    decreases s.len(),
{
    if s.len() == 0 {
        0
    } else {
        occurrences(s.drop_last(), n) + (if s.last() == n { 1nat } else { 0nat })
    }
}

/// Occurrences in a prefix that is one element longer.
pub proof fn lemma_occurrences_step(s: Seq<usize>, j: int, n: usize)
    requires
        0 <= j < s.len(),
    ensures
        occurrences(s.take(j + 1), n) == occurrences(s.take(j), n) + (if s[j] == n {
            1nat
        } else {
            0nat
        }),
{
    assert(s.take(j + 1).drop_last() =~= s.take(j));
}

/// There are at most as many occurrences in a prefix as in the whole sequence.
pub proof fn lemma_occurrences_prefix(s: Seq<usize>, j: int, n: usize)
    requires
        0 <= j <= s.len(),
    ensures
        occurrences(s.take(j), n) <= occurrences(s, n),
    decreases s.len() - j,
{
    if j < s.len() {
        lemma_occurrences_step(s, j, n);
        lemma_occurrences_prefix(s, j + 1, n);
    } else {
        assert(s.take(j) =~= s);
    }
}

/// An element that is not in the sequence does not occur.
pub proof fn lemma_occurrences_absent(s: Seq<usize>, n: usize)
    requires
        forall|j: int| 0 <= j < s.len() ==> s[j] != n,
    ensures
        occurrences(s, n) == 0,
    decreases s.len(),
{
    if s.len() > 0 {
        lemma_occurrences_absent(s.drop_last(), n);
    }
}

/// The adjacency lists of `num` nodes after adding the `edges` in order: for an edge
/// (l, r), r is appended to the list of l and l to the list of r.
pub open spec fn adjacency(edges: Seq<(usize, usize)>, num: nat) -> Seq<Seq<usize>>
    decreases edges.len(),
{
    if edges.len() == 0 {
        Seq::new(num, |_i: int| Seq::<usize>::empty())
    } else {
        let prev = adjacency(edges.drop_last(), num);
        let (l, r) = edges.last();
        let with_l = prev.update(l as int, prev[l as int].push(r));
        with_l.update(r as int, with_l[r as int].push(l))
    }
}

/// The adjacency lists, like [adjacency], but skipping edges from a node to itself.
pub open spec fn adjacency_without_loops(edges: Seq<(usize, usize)>, num: nat) -> Seq<Seq<usize>>
    decreases edges.len(),
{
    if edges.len() == 0 {
        Seq::new(num, |_i: int| Seq::<usize>::empty())
    } else {
        let prev = adjacency_without_loops(edges.drop_last(), num);
        let (l, r) = edges.last();
        if l == r {
            prev
        } else {
            let with_l = prev.update(l as int, prev[l as int].push(r));
            with_l.update(r as int, with_l[r as int].push(l))
        }
    }
}

/// Every edge connects two of the `num` nodes.
pub open spec fn edges_in_range(edges: Seq<(usize, usize)>, num: nat) -> bool {
    forall|i: int| 0 <= i < edges.len() ==> (#[trigger] edges[i]).0 < num && edges[i].1 < num
}

/// The edges without the last one are still in range.
proof fn lemma_edges_prefix(edges: Seq<(usize, usize)>, num: nat)
    requires
        edges_in_range(edges, num),
        edges.len() > 0,
    ensures
        edges_in_range(edges.drop_last(), num),
        edges.last().0 < num,
        edges.last().1 < num,
{
    let d = edges.drop_last();
    assert forall|i: int| 0 <= i < d.len() implies (#[trigger] d[i]).0 < num && d[i].1 < num by {
        assert(d[i] == edges[i]);
    }
    assert(edges[edges.len() - 1] == edges.last());
}

/// The adjacency lists have one list per node, and their entries are nodes; with
/// `no_loops`, no node is its own neighbor.
pub proof fn lemma_adjacency_shape(edges: Seq<(usize, usize)>, num: nat, no_loops: bool)
    requires
        edges_in_range(edges, num),
        no_loops ==> forall|i: int| 0 <= i < edges.len() ==> (#[trigger] edges[i]).0 != edges[i].1,
    ensures
        adjacency(edges, num).len() == num,
        forall|i: int, j: int|
            0 <= i < num && 0 <= j < adjacency(edges, num)[i].len() ==> #[trigger] adjacency(
                edges,
                num,
            )[i][j] < num && (no_loops ==> adjacency(edges, num)[i][j] != i),
    decreases edges.len(),
{
    if edges.len() > 0 {
        lemma_edges_prefix(edges, num);
        let d = edges.drop_last();
        assert(no_loops ==> forall|i: int| 0 <= i < d.len() ==> (#[trigger] d[i]).0 != d[i].1) by {
            if no_loops {
                assert forall|i: int| 0 <= i < d.len() implies (#[trigger] d[i]).0 != d[i].1 by {
                    assert(d[i] == edges[i]);
                }
            }
        }
        lemma_adjacency_shape(d, num, no_loops);
        assert(no_loops ==> edges.last().0 != edges.last().1) by {
            assert(edges[edges.len() - 1] == edges.last());
        }
        let prev = adjacency(d, num);
        let adj = adjacency(edges, num);
        assert forall|i: int, j: int| 0 <= i < num && 0 <= j < adj[i].len() implies #[trigger] adj[i][j]
            < num && (no_loops ==> adj[i][j] != i) by {
            let (l, r) = edges.last();
            if i == r {
            } else if i == l {
            } else {
                assert(adj[i] == prev[i]);
            }
        }
    }
}

/// The adjacency lists without edges from a node to itself have one list per node,
/// their entries are nodes, and no node is its own neighbor.
pub proof fn lemma_adjacency_without_loops_shape(edges: Seq<(usize, usize)>, num: nat)
    requires
        edges_in_range(edges, num),
    ensures
        adjacency_without_loops(edges, num).len() == num,
        forall|i: int, j: int|
            0 <= i < num && 0 <= j < adjacency_without_loops(edges, num)[i].len()
                ==> #[trigger] adjacency_without_loops(edges, num)[i][j] < num
                && adjacency_without_loops(edges, num)[i][j] != i,
    decreases edges.len(),
{
    if edges.len() > 0 {
        lemma_edges_prefix(edges, num);
        let d = edges.drop_last();
        lemma_adjacency_without_loops_shape(d, num);
        let prev = adjacency_without_loops(d, num);
        let adj = adjacency_without_loops(edges, num);
        assert forall|i: int, j: int| 0 <= i < num && 0 <= j < adj[i].len() implies #[trigger] adj[i][j]
            < num && adj[i][j] != i by {
            let (l, r) = edges.last();
            if l == r {
            } else if i == r {
            } else if i == l {
            } else {
                assert(adj[i] == prev[i]);
            }
        }
    }
}

/// The number of elements of `s` equal to `x`.
pub open spec fn count_of<T>(s: Seq<T>, x: T) -> nat
    decreases s.len(),
{
    if s.len() == 0 {
        0
    } else {
        count_of(s.drop_last(), x) + (if s.last() == x { 1nat } else { 0nat })
    }
}

/// Replacing one element changes the count by what leaves and what comes in.
pub proof fn lemma_count_of_update<T>(s: Seq<T>, i: int, v: T, x: T)
    requires
        0 <= i < s.len(),
    ensures
        count_of(s.update(i, v), x) + (if s[i] == x { 1nat } else { 0nat }) == count_of(s, x) + (if v
            == x { 1nat } else { 0nat }),
    decreases s.len(),
{
    let u = s.update(i, v);
    if i == s.len() - 1 {
        assert(u.drop_last() =~= s.drop_last());
    } else {
        assert(u.drop_last() =~= s.drop_last().update(i, v));
        lemma_count_of_update(s.drop_last(), i, v, x);
    }
}

/// The count is at most the length; it is positive where an element is `x`.
pub proof fn lemma_count_of_bound<T>(s: Seq<T>, x: T)
    ensures
        count_of(s, x) <= s.len(),
        forall|i: int| 0 <= i < s.len() && #[trigger] s[i] == x ==> count_of(s, x) >= 1,
        forall|i: int| 0 <= i < s.len() && #[trigger] s[i] != x ==> count_of(s, x) < s.len(),
    decreases s.len(),
{
    if s.len() > 0 {
        lemma_count_of_bound(s.drop_last(), x);
        assert forall|i: int| 0 <= i < s.len() && #[trigger] s[i] == x implies count_of(s, x) >= 1 by {
            if i < s.len() - 1 {
                assert(s.drop_last()[i] == s[i]);
            }
        }
        assert forall|i: int| 0 <= i < s.len() && #[trigger] s[i] != x implies count_of(s, x) < s.len() by {
            if i < s.len() - 1 {
                assert(s.drop_last()[i] == s[i]);
            }
        }
    }
}

/// Sequences that hold `x` at the same positions have the same count of `x`.
pub proof fn lemma_count_of_same_positions<T>(a: Seq<T>, b: Seq<T>, x: T)
    requires
        a.len() == b.len(),
        forall|i: int| 0 <= i < a.len() ==> (a[i] == x) == (#[trigger] b[i] == x),
    ensures
        count_of(a, x) == count_of(b, x),
    decreases a.len(),
{
    if a.len() > 0 {
        assert forall|i: int| 0 <= i < a.drop_last().len() implies (a.drop_last()[i] == x) == (
        #[trigger] b.drop_last()[i] == x) by {
            assert(a.drop_last()[i] == a[i]);
            assert(b.drop_last()[i] == b[i]);
            assert((a[i] == x) == (b[i] == x));
        }
        lemma_count_of_same_positions(a.drop_last(), b.drop_last(), x);
        assert((a[a.len() - 1] == x) == (b[b.len() - 1] == x));
    }
}

/// An element that does not occur has count zero.
pub proof fn lemma_count_of_absent<T>(s: Seq<T>, x: T)
    requires
        forall|i: int| 0 <= i < s.len() ==> s[i] != x,
    ensures
        count_of(s, x) == 0,
    decreases s.len(),
{
    if s.len() > 0 {
        lemma_count_of_absent(s.drop_last(), x);
    }
}

} // verus!
