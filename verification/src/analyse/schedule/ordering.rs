//! Facts about dependency graphs whose bits are all different: the lists that a time
//! ordering is built from are consistent with each other.
use vstd::prelude::*;

use crate::analyse::space::{deps_map, flat};
use crate::scheduler::time::{bits_in_range, dependents_of, resolve_layer, resolve_layers};

verus! {

/// Whether no bit appears twice in the graph.
pub open spec fn unique_bits(dg: Seq<Seq<(usize, Seq<usize>)>>) -> bool {
    forall|i1: int, j1: int, i2: int, j2: int|
        #![trigger dg[i1][j1].0, dg[i2][j2].0]
        0 <= i1 < dg.len() && 0 <= j1 < dg[i1].len() && 0 <= i2 < dg.len() && 0 <= j2 < dg[i2].len()
            && dg[i1][j1].0 == dg[i2][j2].0 ==> i1 == i2 && j1 == j2
}

/// Whether no key appears twice among the pairs.
pub open spec fn unique_keys(pairs: Seq<(usize, Seq<usize>)>) -> bool {
    forall|a: int, b: int| 0 <= a < b < pairs.len() ==> #[trigger] pairs[a].0 != #[trigger] pairs[b].0
}

/// Whether the pair is a pair of one of the layers.
pub open spec fn in_graph(dg: Seq<Seq<(usize, Seq<usize>)>>, p: (usize, Seq<usize>)) -> bool {
    exists|i: int, j: int| 0 <= i < dg.len() && 0 <= j < dg[i].len() && #[trigger] dg[i][j] == p
}

/// Every pair of the flattened graph is a pair of one of its layers, and every pair of a
/// layer is in the flattened graph.
pub proof fn lemma_flat_members(dg: Seq<Seq<(usize, Seq<usize>)>>)
    ensures
        forall|k: int| 0 <= k < flat(dg).len() ==> in_graph(dg, #[trigger] flat(dg)[k]),
        forall|i: int, j: int|
            0 <= i < dg.len() && 0 <= j < dg[i].len() ==> flat(dg).contains(#[trigger] dg[i][j]),
    decreases dg.len(),
{
    if dg.len() > 0 {
        let prev = dg.drop_last();
        lemma_flat_members(prev);
        let a = flat(prev);
        let last = dg.last();
        assert(flat(dg) == a + last);
        assert forall|k: int| 0 <= k < flat(dg).len() implies in_graph(dg, #[trigger] flat(dg)[k]) by {
            if k < a.len() {
                assert(in_graph(prev, a[k]));
                let (i, j) = choose|i: int, j: int| 0 <= i < prev.len() && 0 <= j < prev[i].len() && #[trigger] prev[i][j] == a[k];
                assert(prev[i] == dg[i]);
                assert(flat(dg)[k] == a[k]);
                assert(flat(dg)[k] == dg[i][j]);
            } else {
                let j = k - a.len();
                assert(flat(dg)[k] == last[j]);
                assert(dg[dg.len() - 1] == last);
                assert(flat(dg)[k] == dg[dg.len() - 1][j]);
            }
        }
        assert forall|i: int, j: int| 0 <= i < dg.len() && 0 <= j < dg[i].len() implies flat(dg).contains(
            #[trigger] dg[i][j],
        ) by {
            if i < dg.len() - 1 {
                assert(prev[i][j] == dg[i][j]);
                let k = choose|k: int| 0 <= k < a.len() && a[k] == prev[i][j];
                assert(flat(dg)[k] == dg[i][j]);
            } else {
                assert(flat(dg)[a.len() + j] == dg[i][j]);
            }
        }
    }
}

/// A graph with distinct bits flattens to pairs with distinct keys.
pub proof fn lemma_flat_unique(dg: Seq<Seq<(usize, Seq<usize>)>>)
    requires
        unique_bits(dg),
    ensures
        unique_keys(flat(dg)),
    decreases dg.len(),
{
    if dg.len() > 0 {
        let prev = dg.drop_last();
        assert forall|i1: int, j1: int, i2: int, j2: int|
            #![trigger prev[i1][j1].0, prev[i2][j2].0]
            0 <= i1 < prev.len() && 0 <= j1 < prev[i1].len() && 0 <= i2 < prev.len() && 0 <= j2 < prev[i2].len()
                && prev[i1][j1].0 == prev[i2][j2].0 implies i1 == i2 && j1 == j2 by {
            assert(dg[i1][j1].0 == dg[i2][j2].0);
        }
        lemma_flat_unique(prev);
        lemma_flat_members(prev);
        let a = flat(prev);
        let last = dg.last();
        assert(flat(dg) == a + last);
        assert forall|x: int, y: int| 0 <= x < y < flat(dg).len() implies #[trigger] flat(dg)[x].0 != #[trigger] flat(
            dg,
        )[y].0 by {
            if y < a.len() {
                assert(a[x].0 != a[y].0);
            } else if x >= a.len() {
                assert(dg[dg.len() - 1][x - a.len()].0 == flat(dg)[x].0);
                assert(dg[dg.len() - 1][y - a.len()].0 == flat(dg)[y].0);
            } else {
                assert(in_graph(prev, a[x]));
                let (i, j) = choose|i: int, j: int| 0 <= i < prev.len() && 0 <= j < prev[i].len() && #[trigger] prev[i][j] == a[x];
                assert(prev[i] == dg[i]);
                assert(dg[i][j].0 == flat(dg)[x].0);
                assert(dg[dg.len() - 1][y - a.len()].0 == flat(dg)[y].0);
            }
        }
    }
}

/// The layers after the first `s` of a graph with distinct bits have distinct bits.
pub proof fn lemma_skip_unique(dg: Seq<Seq<(usize, Seq<usize>)>>, s: int)
    requires
        unique_bits(dg),
        0 <= s <= dg.len(),
    ensures
        unique_bits(dg.skip(s)),
{
    let t = dg.skip(s);
    assert forall|i1: int, j1: int, i2: int, j2: int|
        #![trigger t[i1][j1].0, t[i2][j2].0]
        0 <= i1 < t.len() && 0 <= j1 < t[i1].len() && 0 <= i2 < t.len() && 0 <= j2 < t[i2].len() && t[i1][j1].0
            == t[i2][j2].0 implies i1 == i2 && j1 == j2 by {
        assert(dg[i1 + s][j1].0 == dg[i2 + s][j2].0);
    }
}

/// The dependencies of a key are those of its pair, when keys are distinct; a bit has
/// dependencies only if it is a key.
pub proof fn lemma_deps_map(pairs: Seq<(usize, Seq<usize>)>)
    requires
        unique_keys(pairs),
    ensures
        forall|k: int| 0 <= k < pairs.len() ==> deps_map(pairs).contains_key(#[trigger] pairs[k].0) && deps_map(pairs)[pairs[k].0]
            == pairs[k].1,
        forall|x: usize| #[trigger] deps_map(pairs).contains_key(x) ==> exists|k: int| 0 <= k < pairs.len() && pairs[k].0 == x,
    decreases pairs.len(),
{
    if pairs.len() > 0 {
        let prev = pairs.drop_last();
        assert forall|a: int, b: int| 0 <= a < b < prev.len() implies #[trigger] prev[a].0 != #[trigger] prev[b].0 by {
            assert(pairs[a].0 != pairs[b].0);
        }
        lemma_deps_map(prev);
        assert forall|k: int| 0 <= k < pairs.len() implies deps_map(pairs).contains_key(#[trigger] pairs[k].0)
            && deps_map(pairs)[pairs[k].0] == pairs[k].1 by {
            if k < pairs.len() - 1 {
                assert(prev[k] == pairs[k]);
                assert(pairs[k].0 != pairs[pairs.len() - 1].0);
            }
        }
        assert forall|x: usize| #[trigger] deps_map(pairs).contains_key(x) implies exists|k: int|
            0 <= k < pairs.len() && pairs[k].0 == x by {
            if x != pairs.last().0 {
                assert(deps_map(prev).contains_key(x));
                let k = choose|k: int| 0 <= k < prev.len() && prev[k].0 == x;
                assert(pairs[k].0 == x);
            } else {
                assert(pairs[pairs.len() - 1].0 == x);
            }
        }
    }
}

/// A dependent of a bit is the key of a pair whose dependencies hold the bit; with
/// distinct keys, every dependent comes once.
pub proof fn lemma_dependents(pairs: Seq<(usize, Seq<usize>)>, m: usize)
    requires
        unique_keys(pairs),
    ensures
        dependents_of(pairs, m).no_duplicates(),
        forall|b: usize|
            #[trigger] dependents_of(pairs, m).contains(b) ==> exists|k: int|
                0 <= k < pairs.len() && pairs[k].0 == b && pairs[k].1.contains(m),
    decreases pairs.len(),
{
    if pairs.len() > 0 {
        let prev = pairs.drop_last();
        assert forall|a: int, b: int| 0 <= a < b < prev.len() implies #[trigger] prev[a].0 != #[trigger] prev[b].0 by {
            assert(pairs[a].0 != pairs[b].0);
        }
        lemma_dependents(prev, m);
        let d = dependents_of(prev, m);
        let last = pairs.last();
        assert(pairs[pairs.len() - 1] == last);
        assert forall|b: usize| #[trigger] d.contains(b) implies exists|k: int|
            0 <= k < pairs.len() && pairs[k].0 == b && pairs[k].1.contains(m) by {
            let k = choose|k: int| 0 <= k < prev.len() && prev[k].0 == b && prev[k].1.contains(m);
            assert(pairs[k] == prev[k]);
        }
        if last.1.contains(m) {
            let d2 = d.push(last.0);
            assert(!d.contains(last.0)) by {
                if d.contains(last.0) {
                    let k = choose|k: int| 0 <= k < prev.len() && prev[k].0 == last.0 && prev[k].1.contains(m);
                    assert(pairs[k].0 != pairs[pairs.len() - 1].0);
                }
            }
            assert forall|a: int, b: int| 0 <= a < b < d2.len() implies d2[a] != d2[b] by {
                if b == d2.len() - 1 {
                    assert(d.contains(d2[a]));
                }
            }
            assert forall|b: usize| #[trigger] d2.contains(b) implies exists|k: int|
                0 <= k < pairs.len() && pairs[k].0 == b && pairs[k].1.contains(m) by {
                let i = choose|i: int| 0 <= i < d2.len() && d2[i] == b;
                if i < d.len() {
                    assert(d.contains(b));
                }
            }
        }
    }
}

/// Resolving a layer with distinct keys records, for each of its bits, its dependents,
/// and leaves the other places as they were.
pub proof fn lemma_resolve_layer(
    look: Seq<Seq<usize>>,
    layer: Seq<(usize, Seq<usize>)>,
    rest: Seq<(usize, Seq<usize>)>,
)
    requires
        unique_keys(layer),
        forall|j: int| 0 <= j < layer.len() ==> #[trigger] layer[j].0 < look.len(),
    ensures
        resolve_layer(look, layer, rest).len() == look.len(),
        forall|j: int| 0 <= j < layer.len() ==> resolve_layer(look, layer, rest)[#[trigger] layer[j].0 as int] == dependents_of(
            rest,
            layer[j].0,
        ),
        forall|x: int|
            0 <= x < look.len() && (forall|j: int| 0 <= j < layer.len() ==> #[trigger] layer[j].0 != x) ==> resolve_layer(
                look,
                layer,
                rest,
            )[x] == look[x],
    decreases layer.len(),
{
    if layer.len() > 0 {
        let prev = layer.drop_last();
        assert forall|a: int, b: int| 0 <= a < b < prev.len() implies #[trigger] prev[a].0 != #[trigger] prev[b].0 by {
            assert(layer[a].0 != layer[b].0);
        }
        assert forall|j: int| 0 <= j < prev.len() implies #[trigger] prev[j].0 < look.len() by {
            assert(layer[j].0 == prev[j].0);
        }
        lemma_resolve_layer(look, prev, rest);
        let last = layer.last();
        assert(layer[layer.len() - 1] == last);
        assert forall|j: int| 0 <= j < layer.len() implies resolve_layer(look, layer, rest)[#[trigger] layer[j].0 as int]
            == dependents_of(rest, layer[j].0) by {
            if j < layer.len() - 1 {
                assert(prev[j] == layer[j]);
                assert(layer[j].0 != layer[layer.len() - 1].0);
            }
        }
        assert forall|x: int|
            0 <= x < look.len() && (forall|j: int| 0 <= j < layer.len() ==> #[trigger] layer[j].0 != x) implies resolve_layer(
                look,
                layer,
                rest,
            )[x] == look[x] by {
            assert forall|j: int| 0 <= j < prev.len() implies #[trigger] prev[j].0 != x by {
                assert(layer[j].0 == prev[j].0);
            }
            assert(layer[layer.len() - 1].0 != x);
        }
    }
}

/// After resolving the first `n` layers of a graph with distinct bits, the place of each
/// bit of those layers holds its dependents in the layers after its own.
pub proof fn lemma_resolve_layers(look: Seq<Seq<usize>>, dg: Seq<Seq<(usize, Seq<usize>)>>, n: nat)
    requires
        unique_bits(dg),
        bits_in_range(dg, look.len()),
        n <= dg.len(),
    ensures
        resolve_layers(look, dg, n).len() == look.len(),
        forall|i: int, j: int|
            0 <= i < n && 0 <= j < dg[i].len() ==> resolve_layers(look, dg, n)[#[trigger] dg[i][j].0 as int] == dependents_of(
                flat(dg.skip(i + 1)),
                dg[i][j].0,
            ),
    decreases n,
{
    if n > 0 {
        lemma_resolve_layers(look, dg, (n - 1) as nat);
        let layer = dg[n - 1];
        assert forall|a: int, b: int| 0 <= a < b < layer.len() implies #[trigger] layer[a].0 != #[trigger] layer[b].0 by {
            if dg[n - 1][a].0 == dg[n - 1][b].0 {
                assert(a == b);
            }
        }
        let prev = resolve_layers(look, dg, (n - 1) as nat);
        assert forall|j: int| 0 <= j < layer.len() implies #[trigger] layer[j].0 < prev.len() by {
            assert(dg[n - 1][j].0 < look.len());
        }
        lemma_resolve_layer(prev, layer, flat(dg.skip(n as int)));
        assert forall|i: int, j: int| 0 <= i < n && 0 <= j < dg[i].len() implies resolve_layers(look, dg, n)[
            #[trigger] dg[i][j].0 as int] == dependents_of(flat(dg.skip(i + 1)), dg[i][j].0) by {
            if i < n - 1 {
                assert forall|j2: int| 0 <= j2 < layer.len() implies #[trigger] layer[j2].0 != dg[i][j].0 by {
                    if dg[n - 1][j2].0 == dg[i][j].0 {
                        assert(n - 1 == i);
                    }
                }
                assert(dg[i][j].0 < look.len());
            } else {
                assert(layer[j] == dg[i][j]);
            }
        }
    }
}

} // verus!
