//! The time ordering of measurements.
use std::collections::HashMap;

use vstd::prelude::*;

use crate::analyse::combinatoric::{is_index_subset, split_by, Partition};
use crate::analyse::space::{deps_map, flat};
use crate::analyse::DependencyGraph;
use super::ordering::{
    in_graph, lemma_deps_map, lemma_dependents, lemma_flat_members, lemma_flat_unique,
    lemma_resolve_layers, lemma_skip_unique, unique_bits,
};
use super::tree::{self, Focus, FocusIterator, Sweep};
use crate::scheduler::time::{
    bits_in_range, first_at, first_bits, position, rename, renamed_graph, resolve, resolve_layers,
    swap_removed,
};

verus! {

/// The dependents of each bit, shared by the states of a traversal.
#[derive(Debug)]
pub struct LookupBuffer {
    look: Vec<Vec<usize>>,
}

impl LookupBuffer {
    /// The dependents of the bits.
    pub closed spec fn lookup(&self) -> Seq<Seq<usize>> {
        Seq::new(self.look@.len(), |i: int| self.look@[i]@)
    }

    /// A buffer for `num_bits` bits, none with dependents yet.
    pub fn new(num_bits: usize) -> (r: Self)
        ensures
            r.lookup() == Seq::new(num_bits as nat, |_i: int| Seq::<usize>::empty()),
    {
        let mut look: Vec<Vec<usize>> = Vec::new();
        let mut i: usize = 0;
        while i < num_bits
            invariant
                i <= num_bits,
                look@.len() == i,
                forall|k: int| 0 <= k < i ==> (#[trigger] look@[k])@ == Seq::<usize>::empty(),
            decreases num_bits - i,
        {
            look.push(Vec::new());
            i += 1;
        }
        let r = Self { look };
        proof {
            assert(r.lookup() =~= Seq::new(num_bits as nat, |_i: int| Seq::<usize>::empty()));
        }
        r
    }
}

/// The ways in which an instruction can violate the time ordering.
#[derive(Debug, Clone, Copy, PartialEq, Eq, Structural)]
pub enum TimeOrderingViolation {
    /// Measuring the first bit would resolve the second one, which is already resolved;
    /// the first bit is probably measured a second time.
    MissingDependent(usize, usize),
    /// The bit is not in the measurable set.
    NotMeasureable(usize),
    /// The bit is both measured and kept measurable.
    Overlap(usize),
}

/// Whether every bit of the graph, and every dependency, has a new name in the mapping.
pub open spec fn all_mapped(dg: Seq<Seq<(usize, Seq<usize>)>>, mapping: Option<Map<usize, usize>>) -> bool {
    match mapping {
        None => true,
        Some(m) => forall|i: int, j: int|
            0 <= i < dg.len() && 0 <= j < dg[i].len() ==> m.contains_key(#[trigger] dg[i][j].0)
                && forall|k: int| 0 <= k < dg[i][j].1.len() ==> m.contains_key(#[trigger] dg[i][j].1[k]),
    }
}

/// The dependencies of the bits after the first layer of a renamed dependency graph.
pub open spec fn first_deps(mg: Seq<Seq<(usize, Seq<usize>)>>) -> Map<usize, Seq<usize>> {
    if mg.len() == 0 {
        Map::empty()
    } else {
        deps_map(flat(mg.skip(1)))
    }
}

/// The dependency lists of a map of vectors.
pub open spec fn lists_view(m: Map<usize, Vec<usize>>) -> Map<usize, Seq<usize>> {
    m.map_values(|v: Vec<usize>| v@)
}

/// The state of resolving the dependents of measured bits: the dependency lists and the
/// measurable bits; or the error with a measured bit and its dependent that has no list
/// any more; or [None] where the list of a dependent misses the measured bit.
pub type Resolving = Option<Result<(Map<usize, Seq<usize>>, Seq<usize>), (usize, usize)>>;

/// The state of a resolution that has not failed.
pub open spec fn ok_state(deps: Map<usize, Seq<usize>>, first: Seq<usize>) -> Resolving {
    Some(Ok((deps, first)))
}

/// Resolve the pair of a measured bit and one of its dependents: the measured bit leaves
/// the dependency list of the dependent (its first occurrence, whose place the last
/// entry takes); a list that becomes empty is removed, and its bit becomes measurable.
pub open spec fn unlink(state: Resolving, pair: (usize, usize)) -> Resolving {
    match state {
        Some(Ok((deps, first))) => {
            let (known, bit) = pair;
            if !deps.contains_key(bit) {
                Some(Err((known, bit)))
            } else if !deps[bit].contains(known) {
                None
            } else {
                let list = swap_removed(deps[bit], choose|p: int| first_at(deps[bit], known, p));
                if list.len() == 0 {
                    Some(Ok((deps.remove(bit), first.push(bit))))
                } else {
                    Some(Ok((deps.insert(bit, list), first)))
                }
            }
        },
        other => other,
    }
}

/// Resolve the pairs one after the other (see [unlink]); an error stops the resolution.
pub open spec fn unlink_all(state: Resolving, pairs: Seq<(usize, usize)>) -> Resolving
    decreases pairs.len(),
{
    if pairs.len() == 0 {
        state
    } else {
        unlink(unlink_all(state, pairs.drop_last()), pairs.last())
    }
}

/// The pairs of a measured bit with each of its dependents, in order.
pub open spec fn pairs_of(known: usize, dependents: Seq<usize>) -> Seq<(usize, usize)> {
    dependents.map_values(|b: usize| (known, b))
}

/// The pairs of the measured bits with their dependents, bit after bit.
pub open spec fn step_pairs(look: Seq<Seq<usize>>, measuring: Seq<usize>) -> Seq<(usize, usize)>
    decreases measuring.len(),
{
    if measuring.len() == 0 {
        Seq::empty()
    } else {
        step_pairs(look, measuring.drop_last()) + pairs_of(measuring.last(), look[measuring.last() as int])
    }
}

/// Once the resolution has failed, the remaining pairs change nothing.
pub proof fn lemma_unlink_stops(state: Resolving, pairs: Seq<(usize, usize)>, k: int)
    requires
        0 <= k <= pairs.len(),
        !(unlink_all(state, pairs.take(k)) matches Some(Ok(_))),
    ensures
        unlink_all(state, pairs) == unlink_all(state, pairs.take(k)),
    decreases pairs.len() - k,
{
    if k < pairs.len() {
        assert(pairs.take(k + 1).drop_last() =~= pairs.take(k));
        lemma_unlink_stops(state, pairs, k + 1);
    } else {
        assert(pairs.take(k) =~= pairs);
    }
}

/// Whether the bit is not measured yet: it is measurable, or it waits for dependencies.
pub open spec fn alive(set: Seq<usize>, deps: Map<usize, Seq<usize>>, m: usize) -> bool {
    set.contains(m) || deps.contains_key(m)
}

/// The invariant of a generator: the measurable bits come once each and wait for
/// nothing; every bit that is not measured yet has a place in the lookup, lists its
/// dependents once each, and each of them still waits for it.
pub open spec fn resolvable(set: Seq<usize>, deps: Map<usize, Seq<usize>>, look: Seq<Seq<usize>>) -> bool {
    &&& set.no_duplicates()
    &&& forall|m: usize| #[trigger] set.contains(m) ==> !deps.contains_key(m)
    &&& forall|m: usize|
        #[trigger] alive(set, deps, m) ==> m < look.len() && look[m as int].no_duplicates()
    &&& forall|m: usize, b: usize|
        #![trigger alive(set, deps, m), look[m as int].contains(b)]
        alive(set, deps, m) && look[m as int].contains(b) ==> deps.contains_key(b) && deps[b].contains(m)
}

/// Removing an entry keeps the other entries.
pub proof fn lemma_swap_removed_keeps(s: Seq<usize>, p: int, x: usize)
    requires
        0 <= p < s.len(),
        s.contains(x),
        x != s[p],
    ensures
        swap_removed(s, p).contains(x),
        swap_removed(s, p).len() == s.len() - 1,
{
    let i = choose|i: int| 0 <= i < s.len() && s[i] == x;
    let r = swap_removed(s, p);
    if i == s.len() - 1 {
        assert(r[p] == x);
    } else {
        assert(r[i] == x);
    }
}

/// The two parts of a split come from the set, each once, and share nothing; together
/// they hold the whole set.
pub proof fn lemma_split_parts(set: Seq<usize>, subset: Seq<usize>)
    requires
        set.no_duplicates(),
    ensures
        split_by(set, subset).0.no_duplicates(),
        split_by(set, subset).1.no_duplicates(),
        forall|x: usize| #[trigger] split_by(set, subset).0.contains(x) ==> set.contains(x) && !split_by(set, subset).1.contains(x),
        forall|x: usize| #[trigger] split_by(set, subset).1.contains(x) ==> set.contains(x),
    decreases set.len(),
{
    if set.len() > 0 {
        let prev = set.drop_last();
        assert forall|i: int, j: int| 0 <= i < j < prev.len() implies prev[i] != prev[j] by {
            assert(set[i] != set[j]);
        }
        lemma_split_parts(prev, subset);
        let (l, r) = split_by(prev, subset);
        let e = set.last();
        assert(!prev.contains(e)) by {
            if prev.contains(e) {
                let i = choose|i: int| 0 <= i < prev.len() && prev[i] == e;
                assert(set[i] == set[set.len() - 1]);
            }
        }
        assert forall|x: usize| prev.contains(x) implies set.contains(x) by {
            let i = choose|i: int| 0 <= i < prev.len() && prev[i] == x;
            assert(set[i] == x);
        }
        assert(set[set.len() - 1] == e);
        if subset.contains((set.len() - 1) as usize) {
            let l2 = l.push(e);
            assert forall|i: int, j: int| 0 <= i < j < l2.len() implies l2[i] != l2[j] by {
                if j == l2.len() - 1 {
                    assert(l.contains(l2[i]));
                }
            }
            assert forall|x: usize| #[trigger] l2.contains(x) implies set.contains(x) && !r.contains(x) by {
                let i = choose|i: int| 0 <= i < l2.len() && l2[i] == x;
                if i < l.len() {
                    assert(l.contains(x));
                }
            }
        } else {
            let r2 = r.push(e);
            assert forall|i: int, j: int| 0 <= i < j < r2.len() implies r2[i] != r2[j] by {
                if j == r2.len() - 1 {
                    assert(r.contains(r2[i]));
                }
            }
            assert forall|x: usize| #[trigger] l.contains(x) implies set.contains(x) && !r2.contains(x) by {
                if r2.contains(x) {
                    let i = choose|i: int| 0 <= i < r2.len() && r2[i] == x;
                    if i < r.len() {
                        assert(r.contains(x));
                    }
                }
            }
            assert forall|x: usize| #[trigger] r2.contains(x) implies set.contains(x) by {
                let i = choose|i: int| 0 <= i < r2.len() && r2[i] == x;
                if i < r.len() {
                    assert(r.contains(x));
                }
            }
        }
    }
}

/// Every pair of a measured bit holds the bit and one of its dependents; no pair comes
/// twice.
pub proof fn lemma_step_pairs_facts(look: Seq<Seq<usize>>, measuring: Seq<usize>)
    requires
        measuring.no_duplicates(),
        forall|k: int| 0 <= k < measuring.len() ==> #[trigger] measuring[k] < look.len() && look[measuring[k] as int].no_duplicates(),
    ensures
        step_pairs(look, measuring).no_duplicates(),
        forall|k: int|
            0 <= k < step_pairs(look, measuring).len() ==> measuring.contains(#[trigger] step_pairs(look, measuring)[k].0)
                && look[step_pairs(look, measuring)[k].0 as int].contains(step_pairs(look, measuring)[k].1),
    decreases measuring.len(),
{
    if measuring.len() > 0 {
        let prev = measuring.drop_last();
        let m = measuring.last();
        assert(measuring[measuring.len() - 1] == m);
        assert forall|i: int, j: int| 0 <= i < j < prev.len() implies prev[i] != prev[j] by {
            assert(measuring[i] != measuring[j]);
        }
        assert forall|k: int| 0 <= k < prev.len() implies #[trigger] prev[k] < look.len() && look[prev[k] as int].no_duplicates() by {
            assert(measuring[k] == prev[k]);
        }
        lemma_step_pairs_facts(look, prev);
        let a = step_pairs(look, prev);
        let b = pairs_of(m, look[m as int]);
        let all = step_pairs(look, measuring);
        assert(all == a + b);
        assert(!prev.contains(m)) by {
            if prev.contains(m) {
                let i = choose|i: int| 0 <= i < prev.len() && prev[i] == m;
                assert(measuring[i] == measuring[measuring.len() - 1]);
            }
        }
        assert forall|k: int| 0 <= k < all.len() implies measuring.contains(#[trigger] all[k].0)
            && look[all[k].0 as int].contains(all[k].1) by {
            if k < a.len() {
                assert(all[k] == a[k]);
                assert(prev.contains(a[k].0));
                let i = choose|i: int| 0 <= i < prev.len() && prev[i] == a[k].0;
                assert(measuring[i] == a[k].0);
            } else {
                assert(all[k] == b[k - a.len()]);
                assert(b[k - a.len()] == (m, look[m as int][k - a.len()]));
                assert(look[m as int].contains(look[m as int][k - a.len()]));
            }
        }
        assert forall|i: int, j: int| 0 <= i < j < all.len() implies all[i] != all[j] by {
            if j < a.len() {
                assert(all[i] == a[i] && all[j] == a[j]);
            } else if i >= a.len() {
                assert(all[i] == b[i - a.len()] && all[j] == b[j - a.len()]);
                assert(look[m as int][i - a.len()] != look[m as int][j - a.len()]);
            } else {
                assert(all[i] == a[i]);
                assert(prev.contains(a[i].0));
                assert(all[j] == b[j - a.len()]);
            }
        }
    }
}

/// What resolving a prefix of the pairs keeps: the lists that remain come from the
/// original ones; an entry whose pair has not been resolved is still there; the bits
/// whose lists were emptied follow the measurable bits, each once.
pub open spec fn resolved_so_far(
    deps: Map<usize, Seq<usize>>,
    first: Seq<usize>,
    done: Seq<(usize, usize)>,
    d: Map<usize, Seq<usize>>,
    f: Seq<usize>,
) -> bool {
    &&& forall|b: usize| #[trigger] d.contains_key(b) ==> deps.contains_key(b)
    &&& forall|b: usize, x: usize|
        #![trigger deps[b].contains(x), done.contains((x, b))]
        deps.contains_key(b) && deps[b].contains(x) && !done.contains((x, b)) ==> d.contains_key(b)
            && d[b].contains(x)
    &&& f.len() >= first.len()
    &&& f.take(first.len() as int) == first
    &&& f.skip(first.len() as int).no_duplicates()
    &&& forall|i: int|
        first.len() <= i < f.len() ==> deps.contains_key(#[trigger] f[i]) && !d.contains_key(f[i])
}

/// Resolving pairs whose dependents wait for their measured bits never fails, and keeps
/// [resolved_so_far].
pub proof fn lemma_resolve_prefix(
    deps: Map<usize, Seq<usize>>,
    first: Seq<usize>,
    pairs: Seq<(usize, usize)>,
    k: int,
)
    requires
        0 <= k <= pairs.len(),
        pairs.no_duplicates(),
        forall|i: int| 0 <= i < pairs.len() ==> deps.contains_key(#[trigger] pairs[i].1) && deps[pairs[i].1].contains(pairs[i].0),
    ensures
        unlink_all(ok_state(deps, first), pairs.take(k)) matches Some(Ok((d, f))) && resolved_so_far(
            deps,
            first,
            pairs.take(k),
            d,
            f,
        ),
    decreases k,
{
    if k == 0 {
        assert(pairs.take(0) =~= Seq::<(usize, usize)>::empty());
        assert(first.take(first.len() as int) =~= first);
        assert(first.skip(first.len() as int) =~= Seq::<usize>::empty());
        assert forall|b: usize, x: usize|
            #![trigger deps[b].contains(x), pairs.take(0).contains((x, b))]
            deps.contains_key(b) && deps[b].contains(x) && !pairs.take(0).contains((x, b)) implies deps.contains_key(b)
                && deps[b].contains(x) by {
        }
    } else {
        lemma_resolve_prefix(deps, first, pairs, k - 1);
        let done = pairs.take(k - 1);
        let done2 = pairs.take(k);
        assert(done2.drop_last() =~= done);
        let (x0, b0) = pairs[k - 1];
        assert(done2.last() == (x0, b0));
        let (d, f) = unlink_all(ok_state(deps, first), done)->Some_0->Ok_0;
        assert(!done.contains((x0, b0))) by {
            if done.contains((x0, b0)) {
                let i = choose|i: int| 0 <= i < done.len() && done[i] == (x0, b0);
                assert(pairs[i] == pairs[k - 1]);
            }
        }
        assert(deps.contains_key(b0) && deps[b0].contains(x0));
        assert(d.contains_key(b0) && d[b0].contains(x0));
        let p = choose|p: int| first_at(d[b0], x0, p);
        assert(exists|p: int| first_at(d[b0], x0, p)) by {
            let i = choose|i: int| 0 <= i < d[b0].len() && d[b0][i] == x0;
            let mut q = i;
            assert(exists|q: int| 0 <= q < d[b0].len() && d[b0][q] == x0 && forall|r: int| 0 <= r < q ==> d[b0][r] != x0) by {
                lemma_first_index(d[b0], x0, i);
            }
            let q = choose|q: int| 0 <= q < d[b0].len() && d[b0][q] == x0 && forall|r: int| 0 <= r < q ==> d[b0][r] != x0;
            assert(first_at(d[b0], x0, q));
        }
        assert(first_at(d[b0], x0, p));
        let list = swap_removed(d[b0], p);
        assert forall|b: usize, x: usize|
            #![trigger deps[b].contains(x), done2.contains((x, b))]
            deps.contains_key(b) && deps[b].contains(x) && !done2.contains((x, b)) implies (if list.len() == 0 {
                d.remove(b0)
            } else {
                d.insert(b0, list)
            }).contains_key(b) && (if list.len() == 0 {
                d.remove(b0)
            } else {
                d.insert(b0, list)
            })[b].contains(x) by {
            assert(!done.contains((x, b))) by {
                if done.contains((x, b)) {
                    let i = choose|i: int| 0 <= i < done.len() && done[i] == (x, b);
                    assert(done2[i] == (x, b));
                }
            }
            assert(d.contains_key(b) && d[b].contains(x));
            if b == b0 {
                assert(x != x0) by {
                    if x == x0 {
                        assert(done2[k - 1] == (x, b));
                    }
                }
                lemma_swap_removed_keeps(d[b0], p, x);
            }
        }
        if list.len() == 0 {
            let f2 = f.push(b0);
            assert(f2.take(first.len() as int) =~= f.take(first.len() as int));
            assert(f2.skip(first.len() as int) =~= f.skip(first.len() as int).push(b0));
            let tail = f.skip(first.len() as int);
            assert forall|i: int, j: int| 0 <= i < j < tail.push(b0).len() implies tail.push(b0)[i] != tail.push(b0)[j] by {
                if j == tail.len() {
                    assert(tail[i] == f[first.len() + i]);
                    assert(!d.contains_key(f[first.len() + i]));
                }
            }
        }
    }
}

// an entry that occurs has a first occurrence
pub(crate) proof fn lemma_first_index(s: Seq<usize>, e: usize, i: int)
    requires
        0 <= i < s.len(),
        s[i] == e,
    ensures
        exists|q: int| 0 <= q < s.len() && s[q] == e && forall|r: int| 0 <= r < q ==> s[r] != e,
    decreases i,
{
    if exists|r: int| 0 <= r < i && s[r] == e {
        let r = choose|r: int| 0 <= r < i && s[r] == e;
        lemma_first_index(s, e, r);
    } else {
        assert(forall|r: int| 0 <= r < i ==> s[r] != e);
    }
}

/// Measuring a part of the measurable bits of a [resolvable] generator never fails, and
/// the generator stays [resolvable]: the bits stay in range, and the resolution of their
/// dependents ends without error.
pub proof fn lemma_measuring_keeps_resolvable(
    set: Seq<usize>,
    deps: Map<usize, Seq<usize>>,
    look: Seq<Seq<usize>>,
    subset: Seq<usize>,
)
    requires
        resolvable(set, deps, look),
    ensures
        ({
            let (measuring, rest) = split_by(set, subset);
            &&& forall|k: int| 0 <= k < measuring.len() ==> #[trigger] measuring[k] < look.len()
            &&& unlink_all(ok_state(deps, rest), step_pairs(look, measuring)) matches Some(Ok((d, f)))
                && resolvable(f, d, look) && forall|m: usize| #[trigger] alive(f, d, m) ==> alive(set, deps, m)
                && !measuring.contains(m)
        }),
{
    let (measuring, rest) = split_by(set, subset);
    lemma_split_parts(set, subset);
    assert forall|k: int| 0 <= k < measuring.len() implies #[trigger] measuring[k] < look.len()
        && look[measuring[k] as int].no_duplicates() by {
        assert(measuring.contains(measuring[k]));
        assert(set.contains(measuring[k]));
        assert(alive(set, deps, measuring[k]));
    }
    lemma_step_pairs_facts(look, measuring);
    let pairs = step_pairs(look, measuring);
    assert forall|i: int| 0 <= i < pairs.len() implies deps.contains_key(#[trigger] pairs[i].1) && deps[pairs[i].1].contains(
        pairs[i].0,
    ) by {
        let (x, b) = pairs[i];
        assert(measuring.contains(x));
        assert(set.contains(x));
        assert(alive(set, deps, x));
        assert(look[x as int].contains(b));
    }
    lemma_resolve_prefix(deps, rest, pairs, pairs.len() as int);
    assert(pairs.take(pairs.len() as int) =~= pairs);
    let (d, f) = unlink_all(ok_state(deps, rest), pairs)->Some_0->Ok_0;
    let fr = f.skip(rest.len() as int);
    assert(f =~= rest + fr) by {
        assert(f.take(rest.len() as int) == rest);
    }
    // every bit that is not measured yet was not measured before either, and was not
    // measured now
    assert forall|m: usize| #[trigger] alive(f, d, m) implies alive(set, deps, m) && !measuring.contains(m) by {
        if f.contains(m) {
            let i = choose|i: int| 0 <= i < f.len() && f[i] == m;
            if i < rest.len() {
                assert(rest[i] == m);
                assert(rest.contains(m));
            } else {
                assert(deps.contains_key(f[i]));
                if measuring.contains(m) {
                    assert(set.contains(m));
                }
            }
        } else {
            assert(deps.contains_key(m));
            if measuring.contains(m) {
                assert(set.contains(m));
            }
        }
    }
    assert forall|i: int, j: int| 0 <= i < j < f.len() implies f[i] != f[j] by {
        if j < rest.len() {
            assert(rest[i] != rest[j]);
        } else if i >= rest.len() {
            assert(fr[i - rest.len()] != fr[j - rest.len()]);
        } else {
            assert(rest.contains(f[i]));
            assert(set.contains(f[i]));
            assert(deps.contains_key(f[j]));
        }
    }
    assert forall|m: usize| #[trigger] f.contains(m) implies !d.contains_key(m) by {
        let i = choose|i: int| 0 <= i < f.len() && f[i] == m;
        if i < rest.len() {
            assert(rest[i] == m);
            assert(rest.contains(m));
            assert(set.contains(m));
        }
    }
    assert forall|m: usize| #[trigger] alive(f, d, m) implies m < look.len() && look[m as int].no_duplicates() by {
        assert(alive(set, deps, m));
    }
    assert forall|m: usize, b: usize|
        #![trigger alive(f, d, m), look[m as int].contains(b)]
        alive(f, d, m) && look[m as int].contains(b) implies d.contains_key(b) && d[b].contains(m) by {
        assert(alive(set, deps, m));
        assert(!measuring.contains(m));
        assert(deps.contains_key(b) && deps[b].contains(m));
        assert(!pairs.contains((m, b))) by {
            if pairs.contains((m, b)) {
                let i = choose|i: int| 0 <= i < pairs.len() && pairs[i] == (m, b);
                assert(measuring.contains(pairs[i].0));
            }
        }
    }
}


/// Whether every subset of indices still to come picks at least one of the `len`
/// elements of the set (when the set is not empty), by indices below `len`.
pub open spec fn items_fit(p: Partition<Vec<usize>>, len: nat) -> bool {
    forall|i: int|
        0 <= i < p.remaining().len() ==> (len == 0 || #[trigger] p.remaining()[i].len() > 0) && is_index_subset(
            p.remaining()[i],
            len,
        )
}

/// The bits that are not measured yet.
pub open spec fn alive_set(set: Seq<usize>, deps: Map<usize, Seq<usize>>) -> Set<usize> {
    set.to_set().union(deps.dom())
}

/// A generator made from a dependency graph whose bits are all different is
/// [resolvable].
pub proof fn lemma_created_resolvable(look0: Seq<Seq<usize>>, mg: Seq<Seq<(usize, Seq<usize>)>>)
    requires
        unique_bits(mg),
        bits_in_range(mg, look0.len()),
        mg.len() > 0,
    ensures
        resolvable(first_bits(mg), first_deps(mg), resolve_layers(look0, mg, mg.len())),
{
    let set = first_bits(mg);
    let later = mg.skip(1);
    let rest = flat(later);
    let deps = first_deps(mg);
    let look = resolve_layers(look0, mg, mg.len());
    lemma_resolve_layers(look0, mg, mg.len());
    lemma_skip_unique(mg, 1);
    lemma_flat_unique(later);
    lemma_deps_map(rest);
    lemma_flat_members(later);
    assert(deps == deps_map(rest));
    // every bit that is not measured yet is a bit of the graph
    assert forall|m: usize| #[trigger] alive(set, deps, m) implies exists|i: int, j: int|
        0 <= i < mg.len() && 0 <= j < mg[i].len() && #[trigger] mg[i][j].0 == m by {
        if set.contains(m) {
            let j = choose|j: int| 0 <= j < set.len() && set[j] == m;
            assert(mg[0][j].0 == m);
        } else {
            let k = choose|k: int| 0 <= k < rest.len() && rest[k].0 == m;
            assert(in_graph(later, rest[k]));
            let (i, j) = choose|i: int, j: int| 0 <= i < later.len() && 0 <= j < later[i].len() && #[trigger] later[i][j] == rest[k];
            assert(mg[i + 1][j].0 == m);
        }
    }
    assert forall|a: int, b: int| 0 <= a < b < set.len() implies set[a] != set[b] by {
        assert(mg[0][a].0 == set[a] && mg[0][b].0 == set[b]);
    }
    assert forall|m: usize| #[trigger] set.contains(m) implies !deps.contains_key(m) by {
        let j = choose|j: int| 0 <= j < set.len() && set[j] == m;
        assert(mg[0][j].0 == m);
        if deps.contains_key(m) {
            let k = choose|k: int| 0 <= k < rest.len() && rest[k].0 == m;
            assert(in_graph(later, rest[k]));
            let (i, j2) = choose|i: int, j2: int| 0 <= i < later.len() && 0 <= j2 < later[i].len() && #[trigger] later[i][j2] == rest[k];
            assert(mg[i + 1][j2].0 == m);
        }
    }
    assert forall|m: usize| #[trigger] alive(set, deps, m) implies m < look.len() && look[m as int].no_duplicates() by {
        let (i, j) = choose|i: int, j: int| 0 <= i < mg.len() && 0 <= j < mg[i].len() && #[trigger] mg[i][j].0 == m;
        assert(mg[i][j].0 < look0.len());
        lemma_skip_unique(mg, i + 1);
        lemma_flat_unique(mg.skip(i + 1));
        lemma_dependents(flat(mg.skip(i + 1)), m);
    }
    assert forall|m: usize, b: usize|
        #![trigger alive(set, deps, m), look[m as int].contains(b)]
        alive(set, deps, m) && look[m as int].contains(b) implies deps.contains_key(b) && deps[b].contains(m) by {
        let (i, j) = choose|i: int, j: int| 0 <= i < mg.len() && 0 <= j < mg[i].len() && #[trigger] mg[i][j].0 == m;
        let after = mg.skip(i + 1);
        lemma_skip_unique(mg, i + 1);
        lemma_flat_unique(after);
        lemma_dependents(flat(after), m);
        lemma_flat_members(after);
        assert(look[m as int] == crate::scheduler::time::dependents_of(flat(after), m));
        let k = choose|k: int| 0 <= k < flat(after).len() && flat(after)[k].0 == b && flat(after)[k].1.contains(m);
        assert(in_graph(after, flat(after)[k]));
        let (i2, j2) = choose|i2: int, j2: int| 0 <= i2 < after.len() && 0 <= j2 < after[i2].len() && #[trigger] after[i2][j2] == flat(after)[k];
        assert(later[i + i2][j2] == after[i2][j2]);
        assert(rest.contains(later[i + i2][j2]));
        let k2 = choose|k2: int| 0 <= k2 < rest.len() && rest[k2] == later[i + i2][j2];
        assert(rest[k2].0 == b);
    }
}

/// Generates the sets of bits that may be measured, following a dependency graph; the
/// bits that wait for dependencies keep the list of those that are not measured yet.
#[derive(Debug)]
pub struct PathGenerator<'l> {
    known: Partition<Vec<usize>>,
    deps: HashMap<usize, Vec<usize>>,
    look: &'l Vec<Vec<usize>>,
}

impl<'l> PathGenerator<'l> {
    /// The partitions of the measurable bits.
    pub closed spec fn known(&self) -> Partition<Vec<usize>> {
        self.known
    }

    /// The measurable bits.
    pub open spec fn measurable(&self) -> Seq<usize> {
        self.known().elems()@
    }

    /// The dependencies that are not measured yet of the bits that are not measurable.
    pub closed spec fn dependencies(&self) -> Map<usize, Seq<usize>> {
        lists_view(self.deps@)
    }

    /// The dependents of each bit.
    pub closed spec fn lookup(&self) -> Seq<Seq<usize>> {
        Seq::new(self.look@.len(), |i: int| self.look@[i]@)
    }

    /// Whether no bit is measurable any more.
    pub fn finished_path(&self) -> (r: bool)
        ensures
            r == (self.measurable().len() == 0),
    {
        self.known.elements().len() == 0
    }

    // the partitions of the set, without the first one (by the empty subset)
    fn new_partition(a: Vec<usize>) -> (r: Partition<Vec<usize>>)
        ensures
            r.elems()@ == a@,
            r.well_formed(),
            items_fit(r, a@.len()),
            a@.len() == 0 ==> r.remaining().len() == 0,
    {
        let first_len = a.len();
        let mut first = Partition::new(a, first_len);
        let ghost rem = first.remaining();
        let _ = first.next();
        proof {
            assert forall|i: int| 0 <= i < first.remaining().len() implies #[trigger] first.remaining()[i].len() > 0
                && is_index_subset(first.remaining()[i], first_len as nat) by {
                assert(first.remaining()[i] == rem[i + 1]);
                assert(is_index_subset(rem[i + 1], first_len as nat));
                if rem[i + 1].len() == 0 {
                    assert(rem[i + 1] =~= rem[0]);
                }
            }
            if first_len == 0 && first.remaining().len() > 0 {
                assert(rem[1] == first.remaining()[0]);
                assert(is_index_subset(rem[1], 0));
                if rem[1].len() > 0 {
                    assert(rem[1][0] < 0);
                }
                assert(rem[1] =~= rem[0]);
            }
        }
        first
    }

    /// Create the generator from a dependency graph whose bits are first renamed by
    /// `bit_mapping`, which must rename every bit: the bits of the first layer are
    /// measurable, every other bit waits for its dependencies. The dependents of every
    /// bit are recorded in the lookup buffer, layer after layer.
    pub fn from_dependency_graph(
        graph: DependencyGraph,
        lookup: &'l mut LookupBuffer,
        bit_mapping: Option<&HashMap<usize, usize>>,
    ) -> (r: Self)
        requires
            all_mapped(
                graph.deep_view(),
                match bit_mapping {
                    Some(m) => Some(m@),
                    None => None,
                },
            ),
            bits_in_range(
                renamed_graph(
                    graph.deep_view(),
                    match bit_mapping {
                        Some(m) => Some(m@),
                        None => None,
                    },
                ),
                old(lookup).lookup().len(),
            ),
        ensures
            ({
                let mg = renamed_graph(
                    graph.deep_view(),
                    match bit_mapping {
                        Some(m) => Some(m@),
                        None => None,
                    },
                );
                &&& final(lookup).lookup() == resolve_layers(old(lookup).lookup(), mg, mg.len())
                &&& r.lookup() == final(lookup).lookup()
                &&& r.measurable() == first_bits(mg)
                &&& r.dependencies() == first_deps(mg)
                &&& r.known().well_formed()
                &&& items_fit(r.known(), r.measurable().len())
                &&& unique_bits(mg) ==> r.wf()
            }),
    {
        let ghost look0 = lookup.lookup();
        let graph = rename(graph, bit_mapping);
        let ghost mg = graph.deep_view();
        if graph.len() == 0 {
            let shared: &'l LookupBuffer = lookup;
            let r = Self { known: Partition::default(), deps: HashMap::new(), look: &shared.look };
            proof {
                assert(r.dependencies() =~= first_deps(mg));
                assert(r.measurable() =~= first_bits(mg));
            }
            return r;
        }
        let mut known: Vec<usize> = Vec::new();
        let mut deps: HashMap<usize, Vec<usize>> = HashMap::new();
        let mut i: usize = 0;
        while i < graph.len()
            invariant
                0 < graph@.len(),
                i <= graph@.len(),
                mg == graph.deep_view(),
                bits_in_range(mg, look0.len()),
                lookup.lookup() == resolve_layers(look0, mg, i as nat),
                lookup.lookup().len() == look0.len(),
                known@ == if i == 0 { Seq::empty() } else { first_bits(mg) },
                lists_view(deps@) == if i == 0 { Map::empty() } else { deps_map(flat(mg.skip(1).take(i - 1))) },
            decreases graph@.len() - i,
        {
            let layer = &graph[i];
            let ghost before_look = lookup.lookup();
            let ghost before_deps = if i == 0 {
                Seq::<(usize, Seq<usize>)>::empty()
            } else {
                flat(mg.skip(1).take(i - 1))
            };
            proof {
                assert(mg[i as int] =~= layer.deep_view());
                assert(layer.deep_view().take(0) =~= Seq::<(usize, Seq<usize>)>::empty());
                assert(before_deps + layer.deep_view().take(0) =~= before_deps);
                if i == 0 {
                    assert(known@ =~= Seq::new(0, |x: int| mg[0][x].0));
                    assert(lists_view(deps@) =~= Map::empty());
                }
            }
            let mut j: usize = 0;
            while j < layer.len()
                invariant
                    j <= layer@.len(),
                    0 < graph@.len(),
                    i < graph@.len(),
                    mg == graph.deep_view(),
                    mg[i as int] == layer.deep_view(),
                    bits_in_range(mg, look0.len()),
                    lookup.lookup() == crate::scheduler::time::resolve_layer(
                        before_look,
                        layer.deep_view().take(j as int),
                        flat(mg.skip(i + 1)),
                    ),
                    lookup.lookup().len() == look0.len(),
                    before_look.len() == look0.len(),
                    i == 0 ==> known@ == Seq::new(j as nat, |x: int| mg[0][x].0),
                    i > 0 ==> known@ == first_bits(mg),
                    before_deps == (if i == 0 {
                        Seq::<(usize, Seq<usize>)>::empty()
                    } else {
                        flat(mg.skip(1).take(i - 1))
                    }),
                    i == 0 ==> lists_view(deps@) == Map::<usize, Seq<usize>>::empty(),
                    i > 0 ==> lists_view(deps@) == deps_map(before_deps + layer.deep_view().take(j as int)),
                decreases layer@.len() - j,
            {
                let bit = layer[j].0;
                proof {
                    assert(mg[i as int][j as int].0 == bit);
                    assert(layer.deep_view().take(j + 1).drop_last() =~= layer.deep_view().take(
                        j as int,
                    ));
                    assert(layer.deep_view().take(j + 1).last() == layer.deep_view()[j as int]);
                }
                resolve(bit, &graph, i + 1, &mut lookup.look);
                if i == 0 {
                    known.push(bit);
                    proof {
                        assert(known@ =~= Seq::new((j + 1) as nat, |x: int| mg[0][x].0));
                    }
                } else {
                    let dependency = layer[j].1.clone();
                    let ghost before_map = deps@;
                    deps.insert(bit, dependency);
                    proof {
                        let pairs = before_deps + layer.deep_view().take(j + 1);
                        assert(pairs.drop_last() =~= before_deps + layer.deep_view().take(j as int));
                        assert(pairs.last() == layer.deep_view()[j as int]);
                        assert(layer.deep_view()[j as int].1 =~= dependency@);
                        assert(lists_view(deps@) =~= lists_view(before_map).insert(bit, dependency@));
                    }
                }
                j += 1;
            }
            proof {
                assert(layer.deep_view().take(layer@.len() as int) =~= layer.deep_view());
                if i > 0 {
                    assert(mg.skip(1).take(i as int).drop_last() =~= mg.skip(1).take(i - 1));
                    assert(mg.skip(1).take(i as int).last() == mg[i as int]);
                } else {
                    assert(known@ =~= first_bits(mg));
                }
            }
            i += 1;
        }
        proof {
            assert(mg.skip(1).take(graph@.len() - 1) =~= mg.skip(1));
            if unique_bits(mg) {
                lemma_created_resolvable(look0, mg);
            }
        }
        let shared: &'l LookupBuffer = lookup;
        Self { known: Self::new_partition(known), deps, look: &shared.look }
    }
}

impl<'l> PathGenerator<'l> {
    // a new generator after measuring the bits, whose dependents are resolved (see
    // [unlink_all]); `first` are the bits that stay measurable
    fn focus_unchecked(&self, measuring: &[usize], first: Vec<usize>) -> (r: Result<Self, TimeOrderingViolation>)
        requires
            forall|k: int| 0 <= k < measuring@.len() ==> #[trigger] measuring@[k] < self.lookup().len(),
            unlink_all(ok_state(self.dependencies(), first@), step_pairs(self.lookup(), measuring@)) is Some,
        ensures
            match unlink_all(ok_state(self.dependencies(), first@), step_pairs(self.lookup(), measuring@)) {
                Some(Ok((deps, known))) => r matches Ok(g) && g.dependencies() == deps && g.measurable()
                    == known && g.lookup() == self.lookup() && g.known().well_formed() && items_fit(
                    g.known(),
                    known.len(),
                ) && (known.len() == 0 ==> g.known().remaining().len() == 0),
                Some(Err((m, b))) => r == Err::<Self, TimeOrderingViolation>(
                    TimeOrderingViolation::MissingDependent(m, b),
                ),
                None => false,
            },
    {
        let ghost lv = self.lookup();
        let ghost init: Resolving = ok_state(self.dependencies(), first@);
        let ghost all = step_pairs(lv, measuring@);
        let mut deps = self.deps.clone();
        let mut new_first = first;
        proof {
            assert(lists_view(deps@) =~= self.dependencies());
            assert(measuring@.take(0) =~= Seq::<usize>::empty());
            assert(step_pairs(lv, measuring@.take(0)) =~= Seq::<(usize, usize)>::empty());
        }
        let mut i: usize = 0;
        while i < measuring.len()
            invariant
                i <= measuring@.len(),
                lv == self.lookup(),
                all == step_pairs(lv, measuring@),
                init == ok_state(self.dependencies(), first@),
                forall|k: int| 0 <= k < measuring@.len() ==> #[trigger] measuring@[k] < lv.len(),
                unlink_all(init, all) is Some,
                ok_state(lists_view(deps@), new_first@) == unlink_all(init, step_pairs(lv, measuring@.take(i as int))),
            decreases measuring@.len() - i,
        {
            let known = measuring[i];
            let dependents = &self.look[known];
            let ghost before = step_pairs(lv, measuring@.take(i as int));
            proof {
                assert(measuring@.take(i + 1).drop_last() =~= measuring@.take(i as int));
                assert(measuring@.take(i + 1).last() == known);
                assert(dependents@ == lv[known as int]);
                assert(before + pairs_of(known, dependents@.take(0)) =~= before);
            }
            let mut j: usize = 0;
            while j < dependents.len()
                invariant
                    j <= dependents@.len(),
                    all == step_pairs(lv, measuring@),
                    init == ok_state(self.dependencies(), first@),
                    lv == self.lookup(),
                    unlink_all(init, all) is Some,
                    before == step_pairs(lv, measuring@.take(i as int)),
                    i < measuring@.len(),
                    known == measuring@[i as int],
                    dependents@ == lv[known as int],
                    step_pairs(lv, measuring@.take(i + 1)) == before + pairs_of(known, dependents@),
                    ok_state(lists_view(deps@), new_first@) == unlink_all(
                        init,
                        before + pairs_of(known, dependents@.take(j as int)),
                    ),
                decreases dependents@.len() - j,
            {
                let bit = dependents[j];
                let ghost prefix = before + pairs_of(known, dependents@.take(j + 1));
                let ghost state = ok_state(lists_view(deps@), new_first@);
                proof {
                    assert(prefix.drop_last() =~= before + pairs_of(known, dependents@.take(j as int)));
                    assert(prefix.last() == (known, bit));
                    assert(unlink_all(init, prefix) == unlink(state, (known, bit)));
                    let full = before + pairs_of(known, dependents@);
                    lemma_step_pairs_prefix(lv, measuring@, i as int);
                    assert(all.take(full.len() as int) == full);
                    assert(pairs_of(known, dependents@.take(j + 1)) =~= pairs_of(known, dependents@).take(j + 1));
                    assert(full.take(prefix.len() as int) =~= prefix);
                    assert(all.take(prefix.len() as int) =~= all.take(full.len() as int).take(prefix.len() as int));
                    assert(all.take(prefix.len() as int) == prefix);
                }
                let ghost deps_before = deps@;
                match deps.remove(&bit) {
                    None => {
                        proof {
                            assert(!lists_view(deps_before).contains_key(bit));
                            assert(unlink(state, (known, bit)) == Some(Err::<(Map<usize, Seq<usize>>, Seq<usize>), (usize, usize)>((known, bit))));
                            assert(unlink_all(init, all.take(prefix.len() as int)) == unlink_all(init, prefix));
                            lemma_unlink_stops(init, all, prefix.len() as int);
                        }
                        return Err(TimeOrderingViolation::MissingDependent(known, bit));
                    },
                    Some(mut list) => {
                        let pos = match position(&list, known) {
                            Some(p) => p,
                            None => {
                                proof {
                                    assert(lists_view(deps_before).contains_key(bit));
                                    assert(lists_view(deps_before)[bit] == list@);
                                    assert(!list@.contains(known));
                                    assert(unlink(state, (known, bit)) is None);
                                    assert(unlink_all(init, prefix) is None);
                                    lemma_unlink_stops(init, all, prefix.len() as int);
                                    assert(false);
                                }
                                return Err(TimeOrderingViolation::MissingDependent(known, bit));
                            },
                        };
                        let ghost lv0 = list@;
                        proof {
                            assert(lists_view(deps_before)[bit] == lv0);
                            crate::scheduler::time::lemma_first_at_unique(
                                lv0,
                                known,
                                pos as int,
                                choose|p: int| first_at(lv0, known, p),
                            );
                        }
                        let _ = list.swap_remove(pos);
                        proof {
                            assert(list@ =~= swap_removed(lv0, pos as int));
                        }
                        if list.len() == 0 {
                            new_first.push(bit);
                            proof {
                                assert(lists_view(deps@) =~= lists_view(deps_before).remove(bit));
                            }
                        } else {
                            let ghost l = list@;
                            deps.insert(bit, list);
                            proof {
                                assert(lists_view(deps@) =~= lists_view(deps_before).insert(bit, l));
                            }
                        }
                    },
                }
                j += 1;
            }
            proof {
                assert(dependents@.take(dependents@.len() as int) =~= dependents@);
            }
            i += 1;
        }
        proof {
            assert(measuring@.take(measuring@.len() as int) =~= measuring@);
        }
        let g = Self { known: Self::new_partition(new_first), deps, look: self.look };
        Ok(g)
    }
}

/// The pairs of the first `i + 1` measured bits extend those of the first `i`.
pub proof fn lemma_step_pairs_prefix(look: Seq<Seq<usize>>, measuring: Seq<usize>, i: int)
    requires
        0 <= i < measuring.len(),
    ensures
        step_pairs(look, measuring.take(i + 1)).len() <= step_pairs(look, measuring).len(),
        step_pairs(look, measuring).take(step_pairs(look, measuring.take(i + 1)).len() as int)
            == step_pairs(look, measuring.take(i + 1)),
        step_pairs(look, measuring.take(i + 1)) == step_pairs(look, measuring.take(i)) + pairs_of(
            measuring[i],
            look[measuring[i] as int],
        ),
    decreases measuring.len() - i,
{
    assert(measuring.take(i + 1).drop_last() =~= measuring.take(i));
    let all = step_pairs(look, measuring);
    let a = step_pairs(look, measuring.take(i + 1));
    if i + 1 < measuring.len() {
        lemma_step_pairs_prefix(look, measuring, i + 1);
        let b = step_pairs(look, measuring.take(i + 2));
        assert(measuring.take(i + 2).drop_last() =~= measuring.take(i + 1));
        assert(b =~= a + pairs_of(measuring[i + 1], look[measuring[i + 1] as int]));
        assert(b.take(a.len() as int) =~= a);
        assert(all.take(b.len() as int) == b);
        assert(all.take(a.len() as int) =~= all.take(b.len() as int).take(a.len() as int));
    } else {
        assert(measuring.take(i + 1) =~= measuring);
        assert(all.take(a.len() as int) =~= a);
    }
}

/// The first bit of the measured bits that is also kept measurable, or that is not
/// measurable; [None] if there is none.
pub open spec fn violation(measuring: Seq<usize>, first: Seq<usize>, set: Seq<usize>) -> Option<TimeOrderingViolation>
    decreases measuring.len(),
{
    if measuring.len() == 0 {
        None
    } else if first.contains(measuring[0]) {
        Some(TimeOrderingViolation::Overlap(measuring[0]))
    } else if !set.contains(measuring[0]) {
        Some(TimeOrderingViolation::NotMeasureable(measuring[0]))
    } else {
        violation(measuring.drop_first(), first, set)
    }
}

impl<'l> PathGenerator<'l> {
    /// The invariant of the generator (see [resolvable]).
    pub open spec fn wf(&self) -> bool {
        &&& self.known().well_formed()
        &&& items_fit(self.known(), self.measurable().len())
        &&& resolvable(self.measurable(), self.dependencies(), self.lookup())
    }

    /// The depth-first traversal of all paths, starting at this generator.
    pub fn into_iter(self) -> (r: Sweep<Self>)
        ensures
            r.focused() == self,
            r.ancestors() == Seq::<Self>::empty(),
    {
        Sweep::new(self, Vec::new())
    }
}

impl<'l, 'a> Focus<(&'a Vec<usize>, Vec<usize>)> for PathGenerator<'l> {
    type Error = TimeOrderingViolation;

    /// If the measured bits are measurable and not kept, they have places in the lookup
    /// and their dependents wait for them.
    open spec fn can_focus(&self, instruction: (&'a Vec<usize>, Vec<usize>)) -> bool {
        violation(instruction.0@, instruction.1@, self.measurable()) is None ==> {
            &&& forall|k: int| 0 <= k < instruction.0@.len() ==> #[trigger] instruction.0@[k] < self.lookup().len()
            &&& unlink_all(ok_state(self.dependencies(), instruction.1@), step_pairs(self.lookup(), instruction.0@)) is Some
        }
    }

    /// The first violation, if any; else the generator after measuring the bits (see
    /// [unlink_all]) with the given bits kept measurable.
    open spec fn focused(
        old: Self,
        after: Self,
        instruction: (&'a Vec<usize>, Vec<usize>),
        result: Result<Self, TimeOrderingViolation>,
    ) -> bool {
        &&& after == old
        &&& match violation(instruction.0@, instruction.1@, old.measurable()) {
            Some(v) => result == Err::<Self, TimeOrderingViolation>(v),
            None => match unlink_all(ok_state(old.dependencies(), instruction.1@), step_pairs(old.lookup(), instruction.0@)) {
                Some(Ok((deps, known))) => result matches Ok(g) && g.dependencies() == deps && g.measurable()
                    == known && g.lookup() == old.lookup() && g.known().well_formed(),
                Some(Err((m, b))) => result == Err::<Self, TimeOrderingViolation>(
                    TimeOrderingViolation::MissingDependent(m, b),
                ),
                None => false,
            },
        }
    }

    fn focus(&mut self, instruction: (&'a Vec<usize>, Vec<usize>)) -> (r: Result<Self, TimeOrderingViolation>) {
        let (measuring, first) = instruction;
        let set = self.known.elements();
        let mut i: usize = 0;
        proof {
            assert(measuring@.skip(0) =~= measuring@);
        }
        while i < measuring.len()
            invariant
                i <= measuring@.len(),
                measuring == instruction.0,
                first@ == instruction.1@,
                set@ == self.measurable(),
                violation(measuring@, first@, set@) == violation(measuring@.skip(i as int), first@, set@),
            decreases measuring@.len() - i,
        {
            let e = measuring[i];
            proof {
                assert(measuring@.skip(i as int)[0] == e);
                assert(measuring@.skip(i as int).drop_first() =~= measuring@.skip(i + 1));
            }
            if crate::scheduler::space::contains(&first, e) {
                proof {
                    assert(violation(measuring@.skip(i as int), first@, set@) == Some(
                        TimeOrderingViolation::Overlap(e),
                    ));
                }
                return Err(TimeOrderingViolation::Overlap(e));
            }
            if !crate::scheduler::space::contains(set, e) {
                proof {
                    assert(violation(measuring@.skip(i as int), first@, set@) == Some(
                        TimeOrderingViolation::NotMeasureable(e),
                    ));
                }
                return Err(TimeOrderingViolation::NotMeasureable(e));
            }
            i += 1;
        }
        proof {
            assert(measuring@.skip(i as int) =~= Seq::<usize>::empty());
        }
        self.focus_unchecked(measuring.as_slice(), first)
    }
}

impl<'l> FocusIterator for PathGenerator<'l> {
    type IterItem = Vec<usize>;
    type LeafItem = ();

    /// The partition by the first remaining subset was measured: `parent` keeps the
    /// measurable bits and dependencies with that subset used up, and `child` has the
    /// dependencies and measurable bits of resolving the dependents of the measured bits,
    /// which the item holds.
    open spec fn stepped(old: Self, parent: Self, child: Self, item: Vec<usize>) -> bool {
        let (measuring, rest) = split_by(old.measurable(), old.known().remaining()[0]);
        &&& old.known().remaining().len() > 0
        &&& parent.lookup() == old.lookup()
        &&& parent.dependencies() == old.dependencies()
        &&& parent.measurable() == old.measurable()
        &&& parent.known().remaining() == old.known().remaining().drop_first()
        &&& item@ == measuring
        &&& child.lookup() == old.lookup()
        &&& unlink_all(ok_state(old.dependencies(), rest), step_pairs(old.lookup(), measuring)) == ok_state(
            child.dependencies(),
            child.measurable(),
        )
    }

    open spec fn can_step(&self) -> bool {
        self.wf()
    }

    /// Measure the next partition of the measurable bits: the child generator, and the
    /// measured bits.
    fn next_and_focus(&mut self) -> (r: Option<(Self, Vec<usize>)>)
        ensures
            final(self).lookup() == old(self).lookup(),
            final(self).dependencies() == old(self).dependencies(),
            final(self).measurable() == old(self).measurable(),
            old(self).known().remaining().len() == 0 <==> r is None,
            r is None ==> final(self).known().remaining().len() == 0,
            old(self).known().remaining().len() > 0 ==> final(self).known().remaining()
                == old(self).known().remaining().drop_first(),
            r matches Some((child, measured)) ==> ({
                let (measuring, rest) = split_by(old(self).measurable(), old(self).known().remaining()[0]);
                &&& measured@ == measuring
                &&& child.lookup() == old(self).lookup()
                &&& unlink_all(ok_state(old(self).dependencies(), rest), step_pairs(old(self).lookup(), measuring))
                    == ok_state(child.dependencies(), child.measurable())
                &&& child.measurable().len() == 0 ==> child.known().remaining().len() == 0
            }),
    {
        let ghost sub = self.known().remaining()[0];
        let (measuring, new_measureable_set) = match self.known.next() {
            Some(p) => p,
            None => {
                return None;
            },
        };
        proof {
            lemma_measuring_keeps_resolvable(self.measurable(), self.dependencies(), self.lookup(), sub);
        }
        match self.focus_unchecked(measuring.as_slice(), new_measureable_set) {
            Ok(child) => Some((child, measuring)),
            Err(_) => {
                proof {
                    assert(false);
                }
                None
            },
        }
    }

    /// `()` if no bit is measurable any more.
    fn at_leaf(&self) -> (r: Option<()>)
        ensures
            r is Some <==> self.measurable().len() == 0,
    {
        if self.known.elements().len() == 0 {
            Some(())
        } else {
            None
        }
    }
}

/// A step of the traversal of the paths of a generator.
pub type Step = tree::Step<Vec<usize>, Option<()>>;

/// Whether the step goes back from a leaf, that is, closes a complete path.
pub open spec fn is_leaf_step(step: Step) -> bool {
    step matches tree::Step::Backward(Some(_))
}

/// The number of complete paths that the steps close.
pub open spec fn leaf_count(steps: Seq<Step>) -> nat
    decreases steps.len(),
{
    if steps.len() == 0 {
        0
    } else {
        leaf_count(steps.drop_last()) + if is_leaf_step(steps.last()) {
            1nat
        } else {
            0nat
        }
    }
}

/// The number of paths of task `i` when `total` paths are split into `num_tasks` tasks:
/// `total / num_tasks` for the first tasks, one more for the last `total % num_tasks`.
pub open spec fn job_size(total: nat, num_tasks: nat, i: nat) -> nat {
    total / num_tasks + if i >= num_tasks - total % num_tasks {
        1nat
    } else {
        0nat
    }
}

/// Whether each task closes its share of the `total` paths (see [job_size]).
pub open spec fn split_evenly(tasks: Seq<Vec<Step>>, total: nat, num_tasks: nat) -> bool {
    forall|i: int| 0 <= i < tasks.len() ==> leaf_count(#[trigger] tasks[i]@) == job_size(total, num_tasks, i as nat)
}

/// The elements of a split can be found in the set, at the indices of the subset.
pub proof fn lemma_split_contains(set: Seq<usize>, subset: Seq<usize>, i: int)
    requires
        0 <= i < set.len(),
        subset.contains(i as usize),
    ensures
        split_by(set, subset).0.contains(set[i]),
    decreases set.len(),
{
    let prev = set.drop_last();
    if i == set.len() - 1 {
        assert(split_by(set, subset).0.last() == set[i]);
    } else {
        lemma_split_contains(prev, subset, i);
        let l = split_by(prev, subset).0;
        let j = choose|j: int| 0 <= j < l.len() && l[j] == prev[i];
        if subset.contains((set.len() - 1) as usize) {
            assert(l.push(set.last())[j] == set[i]);
        } else {
            assert(l[j] == set[i]);
        }
    }
}

/// Whether `copy` goes the same way as `original`, with the same bits or leaf item.
pub open spec fn copied_step(original: Step, copy: Step) -> bool {
    match (original, copy) {
        (tree::Step::Forward(a), tree::Step::Forward(b)) => b@ == a@,
        (tree::Step::Backward(a), tree::Step::Backward(b)) => a == b,
        _ => false,
    }
}

// a copy of the step
pub(crate) fn copy_step(step: &Step) -> (r: Step)
    ensures
        is_leaf_step(r) == is_leaf_step(*step),
        (r is Forward) == (*step is Forward),
        copied_step(*step, r),
{
    match step {
        tree::Step::Forward(v) => tree::Step::Forward(v.clone()),
        tree::Step::Backward(b) => tree::Step::Backward(*b),
    }
}

// a copy of steps that only go forward
fn copy_forward_steps(steps: &Vec<Step>) -> (r: Vec<Step>)
    requires
        forall|k: int| 0 <= k < steps@.len() ==> #[trigger] steps@[k] is Forward,
    ensures
        leaf_count(r@) == 0,
        forall|k: int| 0 <= k < r@.len() ==> #[trigger] r@[k] is Forward,
        r@.len() == steps@.len(),
        forall|k: int| 0 <= k < r@.len() ==> copied_step(steps@[k], #[trigger] r@[k]),
{
    let mut r: Vec<Step> = Vec::new();
    let mut i: usize = 0;
    while i < steps.len()
        invariant
            i <= steps@.len(),
            forall|k: int| 0 <= k < steps@.len() ==> #[trigger] steps@[k] is Forward,
            forall|k: int| 0 <= k < r@.len() ==> #[trigger] r@[k] is Forward,
            leaf_count(r@) == 0,
            r@.len() == i,
            forall|k: int| 0 <= k < r@.len() ==> copied_step(steps@[k], #[trigger] r@[k]),
        decreases steps@.len() - i,
    {
        let c = copy_step(&steps[i]);
        let ghost before = r@;
        r.push(c);
        proof {
            assert(r@.drop_last() =~= before);
        }
        i += 1;
    }
    r
}

impl<'l> PathGenerator<'l> {
    // append the steps of the depth-first traversal below `gen`, which ends without
    // children left: one block per remaining partition, in order
    fn collect_steps(gen: &mut Self, steps: &mut Vec<Step>)
        requires
            old(gen).wf(),
        ensures
            final(gen).wf(),
            2 * leaf_count(final(steps)@) - final(steps)@.len() <= 2 * leaf_count(old(steps)@) - old(steps)@.len(),
            final(gen).known().remaining().len() == 0,
            final(gen).measurable() == old(gen).measurable(),
            final(gen).dependencies() == old(gen).dependencies(),
            final(gen).lookup() == old(gen).lookup(),
            final(steps)@.len() >= old(steps)@.len(),
            final(steps)@.subrange(0, old(steps)@.len() as int) == old(steps)@,
            exists|bounds: Seq<int>|
                #![trigger child_blocks(final(steps)@, bounds, old(gen).measurable(), old(gen).dependencies(), old(gen).lookup(), old(gen).known().remaining())]
                child_blocks(
                    final(steps)@,
                    bounds,
                    old(gen).measurable(),
                    old(gen).dependencies(),
                    old(gen).lookup(),
                    old(gen).known().remaining(),
                ) && bounds[0] == old(steps)@.len() && bounds.last() == final(steps)@.len(),
        decreases alive_set(gen.measurable(), gen.dependencies()).len(), gen.known().remaining().len(),
    {
        let ghost a0 = alive_set(gen.measurable(), gen.dependencies());
        let ghost r0 = gen.known().remaining().len();
        let ghost m0 = gen.measurable();
        let ghost d0 = gen.dependencies();
        let ghost l0 = gen.lookup();
        let ghost rem0 = gen.known().remaining();
        let ghost n0 = steps@.len();
        let ghost mut bounds: Seq<int> = seq![n0 as int];
        proof {
            lemma_finite_alive(gen);
            assert(steps@.subrange(0, n0 as int) =~= steps@);
            assert(rem0.take(0) =~= Seq::<Seq<usize>>::empty());
            assert(rem0.skip(0) =~= rem0);
        }
        loop
            invariant
                gen.wf(),
                gen.lookup() == l0,
                rem0 == old(gen).known().remaining(),
                n0 == old(steps)@.len(),
                gen.known().remaining() == rem0.skip(r0 - gen.known().remaining().len()),
                steps@.len() >= n0,
                steps@.subrange(0, n0 as int) == old(steps)@,
                child_blocks(steps@, bounds, m0, d0, l0, rem0.take(r0 - gen.known().remaining().len())),
                bounds[0] == n0,
                bounds.last() == steps@.len(),
                gen.measurable() == m0,
                gen.dependencies() == d0,
                a0 == alive_set(m0, d0),
                a0.finite(),
                gen.known().remaining().len() <= r0,
                a0 == alive_set(old(gen).measurable(), old(gen).dependencies()),
                r0 == old(gen).known().remaining().len(),
                2 * leaf_count(steps@) - steps@.len() <= 2 * leaf_count(old(steps)@) - old(steps)@.len(),
            ensures
                gen.known().remaining().len() == 0,
            decreases gen.known().remaining().len(),
        {
            let ghost g1 = *gen;
            let ghost p = r0 - gen.known().remaining().len();
            match gen.next_and_focus() {
                None => {
                    break;
                },
                Some((child, mess)) => {
                    let mut child = child;
                    proof {
                        let sub = g1.known().remaining()[0];
                        lemma_measuring_keeps_resolvable(m0, d0, g1.lookup(), sub);
                        let measuring = split_by(m0, sub).0;
                        let a1 = alive_set(child.measurable(), child.dependencies());
                        assert(a1.subset_of(a0)) by {
                            assert forall|x: usize| a1.contains(x) implies a0.contains(x) by {
                                assert(alive(child.measurable(), child.dependencies(), x));
                            }
                        }
                        if m0.len() > 0 {
                            assert(sub.len() > 0);
                            assert(is_index_subset(sub, m0.len()));
                            assert(sub.contains(sub[0]));
                            lemma_split_contains(m0, sub, sub[0] as int);
                            let x = m0[sub[0] as int];
                            assert(a0.contains(x));
                            assert(!a1.contains(x)) by {
                                if a1.contains(x) {
                                    assert(alive(child.measurable(), child.dependencies(), x));
                                }
                            }
                            vstd::set_lib::lemma_len_subset(a1, a0.remove(x));
                        } else {
                            vstd::set_lib::lemma_len_subset(a1, a0);
                            assert(is_index_subset(sub, 0));
                            if sub.len() > 0 {
                                assert(sub[0] < 0);
                            }
                            assert(sub =~= Seq::<usize>::empty());
                            assert(step_pairs(g1.lookup(), measuring) =~= Seq::<(usize, usize)>::empty()) by {
                                assert(measuring =~= Seq::<usize>::empty());
                            }
                            assert(child.measurable() =~= split_by(m0, sub).1);
                        }
                        assert(a1.len() < a0.len() || (a1.len() == a0.len() && child.known().remaining().len() < r0));
                    }
                    let ghost s0 = steps@;
                    let ghost child0 = child;
                    steps.push(tree::Step::Forward(mess));
                    proof {
                        assert(steps@.drop_last() =~= s0);
                    }
                    Self::collect_steps(&mut child, steps);
                    let leaf = child.at_leaf();
                    let ghost s1 = steps@;
                    steps.push(tree::Step::Backward(leaf));
                    proof {
                        assert(steps@.drop_last() =~= s1);
                        let len0 = s0.len() as int;
                        let sub = g1.known().remaining()[0];
                        assert(sub == rem0[p]);
                        // the steps before the new block stay
                        assert forall|j: int| 0 <= j <= len0 implies #[trigger] steps@[j] == s1[j] by {
                            assert(s1.subrange(0, len0 + 1)[j] == s1[j]);
                        }
                        assert forall|j: int| 0 <= j < len0 implies #[trigger] steps@[j] == s0[j] by {
                            assert(s1.subrange(0, len0 + 1)[j] == s1[j]);
                        }
                        assert(steps@[len0] == tree::Step::<Vec<usize>, Option<()>>::Forward(mess));
                        let new_bounds = bounds.push(steps@.len() as int);
                        assert(rem0.take(p + 1) =~= rem0.take(p).push(sub));
                        assert(child_block(steps@, len0, steps@.len() as int, m0, d0, l0, sub));
                        assert forall|i: int| 0 <= i < p + 1 implies child_block(
                            steps@,
                            new_bounds[i],
                            #[trigger] new_bounds[i + 1],
                            m0,
                            d0,
                            l0,
                            rem0.take(p + 1)[i],
                        ) by {
                            if i < p {
                                assert(new_bounds[i] == bounds[i]);
                                assert(new_bounds[i + 1] == bounds[i + 1]);
                                assert(child_block(s0, bounds[i], bounds[i + 1], m0, d0, l0, rem0.take(p)[i]));
                                assert(bounds[i + 1] <= len0) by {
                                    assert(bounds[i + 1] <= s0.len());
                                }
                                assert(steps@[bounds[i]] == s0[bounds[i]]);
                                assert(steps@[bounds[i + 1] - 1] == s0[bounds[i + 1] - 1]);
                            }
                        }
                        bounds = new_bounds;
                        assert(gen.known().remaining() =~= rem0.skip(p + 1));
                        assert(steps@.subrange(0, n0 as int) =~= old(steps)@) by {
                            assert forall|j: int| 0 <= j < n0 implies steps@[j] == old(steps)@[j] by {
                                assert(s0.subrange(0, n0 as int)[j] == s0[j]);
                            }
                        }
                    }
                },
            }
        }
    }

}

/// Split the depth-first traversal of all paths of a well formed generator into
/// `num_tasks` tasks with about equally many complete paths each (see
/// [split_steps]).
pub fn split_instructions(time: PathGenerator, num_tasks: usize) -> (r: Vec<Vec<Step>>)
    requires
        time.wf(),
        num_tasks > 0,
    ensures
        exists|total: nat| #[trigger] split_evenly(r@, total, num_tasks as nat),
        exists|steps: Seq<Step>, bounds: Seq<int>|
            #![trigger child_blocks(steps, bounds, time.measurable(), time.dependencies(), time.lookup(), time.known().remaining())]
            child_blocks(steps, bounds, time.measurable(), time.dependencies(), time.lookup(), time.known().remaining())
                && bounds[0] == 0 && bounds.last() == steps.len() && exists|starts: Seq<int>, ends: Seq<int>|
                split_at(steps, num_tasks as nat, r@, starts, ends),
{
    let ghost time0 = time;
    let mut time = time;
    let mut steps: Vec<Step> = Vec::new();
    PathGenerator::collect_steps(&mut time, &mut steps);
    let _n = steps.len();
    proof {
        assert(leaf_count(Seq::<Step>::empty()) == 0);
        assert(leaf_count(steps@) < usize::MAX);
    }
    let r = split_steps(&steps, num_tasks);
    proof {
        let bounds = choose|bounds: Seq<int>|
            #![trigger child_blocks(steps@, bounds, time0.measurable(), time0.dependencies(), time0.lookup(), time0.known().remaining())]
            child_blocks(steps@, bounds, time0.measurable(), time0.dependencies(), time0.lookup(), time0.known().remaining())
                && bounds[0] == 0 && bounds.last() == steps@.len();
        assert(child_blocks(steps@, bounds, time0.measurable(), time0.dependencies(), time0.lookup(), time0.known().remaining()));
    }
    r
}

/// The set of bits that are not measured yet is finite.
proof fn lemma_finite_alive(gen: &PathGenerator)
    ensures
        alive_set(gen.measurable(), gen.dependencies()).finite(),
{
    broadcast use vstd::std_specs::hash::group_hash_axioms;
    assert(gen.dependencies().dom() == gen.deps@.dom());
    vstd::seq_lib::seq_to_set_is_finite(gen.measurable());
}

/// A step with the view of its bits.
pub open spec fn step_view(step: Step) -> tree::Step<Seq<usize>, Option<()>> {
    match step {
        tree::Step::Forward(v) => tree::Step::Forward(v@),
        tree::Step::Backward(b) => tree::Step::Backward(b),
    }
}

/// Whether the steps `start..end` are the block of the traversal that measures the
/// partition of the measurable bits by `subset`: a step forward with the measured bits
/// first, a step back last, whose leaf item is there exactly when the child generator
/// has no measurable bits.
pub open spec fn child_block(
    steps: Seq<Step>,
    start: int,
    end: int,
    measurable: Seq<usize>,
    deps: Map<usize, Seq<usize>>,
    look: Seq<Seq<usize>>,
    subset: Seq<usize>,
) -> bool {
    let (measuring, rest) = split_by(measurable, subset);
    &&& 0 <= start
    &&& start + 2 <= end <= steps.len()
    &&& step_view(steps[start]) == tree::Step::<Seq<usize>, Option<()>>::Forward(measuring)
    &&& steps[end - 1] matches tree::Step::Backward(leaf) && unlink_all(
        ok_state(deps, rest),
        step_pairs(look, measuring),
    ) matches Some(Ok((_, f))) && (leaf is Some <==> f.len() == 0)
}

/// Whether the steps from `bounds[0]` to the last bound are, block after block, the
/// [child_block]s of the partitions by `subsets`, in order.
pub open spec fn child_blocks(
    steps: Seq<Step>,
    bounds: Seq<int>,
    measurable: Seq<usize>,
    deps: Map<usize, Seq<usize>>,
    look: Seq<Seq<usize>>,
    subsets: Seq<Seq<usize>>,
) -> bool {
    &&& bounds.len() == subsets.len() + 1
    &&& forall|i: int|
        0 <= i < subsets.len() ==> child_block(steps, bounds[i], #[trigger] bounds[i + 1], measurable, deps, look, subsets[i])
}

/// The views of the steps.
pub open spec fn step_views(steps: Seq<Step>) -> Seq<tree::Step<Seq<usize>, Option<()>>> {
    steps.map_values(|s: Step| step_view(s))
}

/// The steps forward from the root to where the traversal stands after the first `j`
/// steps: a step forward is pushed, a step back pops the last one (if there is one).
pub open spec fn path_at(steps: Seq<Step>, j: nat) -> Seq<tree::Step<Seq<usize>, Option<()>>>
    decreases j,
{
    if j == 0 {
        Seq::empty()
    } else {
        let p = path_at(steps, (j - 1) as nat);
        match steps[j - 1] {
            tree::Step::Forward(v) => p.push(tree::Step::Forward(v@)),
            tree::Step::Backward(_) => if p.len() > 0 {
                p.drop_last()
            } else {
                p
            },
        }
    }
}

/// Whether the steps `start..end` hold a task of `quota` complete paths: the last of
/// them closes a path, and before it the steps close one path fewer.
pub open spec fn task_window(steps: Seq<Step>, start: int, end: int, quota: nat) -> bool {
    &&& 0 <= start < end <= steps.len()
    &&& is_leaf_step(steps[end - 1])
    &&& leaf_count(steps.subrange(start, end - 1)) + 1 == quota
}

/// Whether the next task starts at `start` after the task that ended at `end`: the steps
/// in between go back, up to the step forward just before `start`.
pub open spec fn next_start(steps: Seq<Step>, end: int, start: int) -> bool {
    &&& end < start <= steps.len()
    &&& steps[start - 1] is Forward
    &&& forall|j: int| end <= j < start - 1 ==> #[trigger] steps[j] is Backward
}

/// Whether no step forward comes from `end` on.
pub open spec fn only_back_from(steps: Seq<Step>, end: int) -> bool {
    forall|j: int| end <= j < steps.len() ==> #[trigger] steps[j] is Backward
}

/// Whether the steps from `start` on cannot complete a task of `quota` paths.
pub open spec fn incomplete(steps: Seq<Step>, start: int, quota: nat) -> bool {
    quota == 0 || leaf_count(steps.subrange(start, steps.len() as int)) < quota
}

/// Whether `tasks` are the tasks of the split of `steps` into `num_tasks` tasks (see
/// [split_steps]) that start and end at `starts` and `ends`: task `t` is the path to its
/// start followed by the steps from its start to its end, where it has closed its share
/// of the paths (see [job_size]); the first task starts at the beginning, each other
/// one after the step forward that follows the end of the one before; the split stops
/// where no task can be completed any more.
pub open spec fn split_at(
    steps: Seq<Step>,
    num_tasks: nat,
    tasks: Seq<Vec<Step>>,
    starts: Seq<int>,
    ends: Seq<int>,
) -> bool {
    let total = leaf_count(steps);
    let n = tasks.len();
    &&& starts.len() == n
    &&& ends.len() == n
    &&& n > 0 ==> starts[0] == 0
    &&& forall|t: int|
        0 <= t < n ==> task_window(steps, starts[t], #[trigger] ends[t], job_size(total, num_tasks, t as nat))
            && step_views(tasks[t]@) == path_at(steps, starts[t] as nat) + step_views(
            steps.subrange(starts[t], ends[t]),
        )
    &&& forall|t: int| 0 <= t < n - 1 ==> next_start(steps, #[trigger] ends[t], starts[t + 1])
    &&& n == 0 ==> incomplete(steps, 0, job_size(total, num_tasks, 0))
    &&& n > 0 ==> (only_back_from(steps, ends[n - 1]) || exists|s: int|
        next_start(steps, ends[n - 1], s) && #[trigger] incomplete(steps, s, job_size(total, num_tasks, n)))
}

/// Split the steps of a traversal into tasks with about equally many complete paths:
/// of the `total` paths that the steps close, the first tasks get `total / num_tasks`
/// each, the last `total % num_tasks` one more. A task starts with the steps forward
/// from the root to where it begins; after a task is complete, the steps back are
/// skipped until the next step forward. Steps after the last complete task are dropped.
pub fn split_steps(steps: &Vec<Step>, num_tasks: usize) -> (r: Vec<Vec<Step>>)
    requires
        num_tasks > 0,
        leaf_count(steps@) < usize::MAX,
    ensures
        split_evenly(r@, leaf_count(steps@), num_tasks as nat),
        exists|starts: Seq<int>, ends: Seq<int>| split_at(steps@, num_tasks as nat, r@, starts, ends),
{
    let ghost total = leaf_count(steps@);
    let mut total_num_paths: usize = 0;
    let mut i: usize = 0;
    while i < steps.len()
        invariant
            i <= steps@.len(),
            total_num_paths == leaf_count(steps@.take(i as int)),
            total_num_paths <= i,
        decreases steps@.len() - i,
    {
        proof {
            assert(steps@.take(i + 1).drop_last() =~= steps@.take(i as int));
        }
        match &steps[i] {
            tree::Step::Backward(Some(_)) => {
                total_num_paths += 1;
            },
            _ => {},
        }
        i += 1;
    }
    proof {
        assert(steps@.take(steps@.len() as int) =~= steps@);
    }
    let base = total_num_paths / num_tasks;
    let mut paths_per_job = base;
    proof {
        assert(num_tasks * base <= total_num_paths && base <= total_num_paths) by (nonlinear_arith)
            requires
                num_tasks > 0,
                base == total_num_paths / num_tasks,
        ;
        assert(total_num_paths - num_tasks * base == total_num_paths % num_tasks) by (nonlinear_arith)
            requires
                num_tasks > 0,
                base == total_num_paths / num_tasks,
        ;
    }
    let num_normal_tasks = num_tasks - (total_num_paths - num_tasks * paths_per_job);
    let mut res: Vec<Vec<Step>> = Vec::new();
    let mut task: Vec<Step> = Vec::new();
    let mut paths_in_task: usize = 0;
    let mut init: Vec<Step> = Vec::new();
    let mut num_done_tasks: usize = 0;
    let mut k: usize = 0;
    let ghost mut starts: Seq<int> = Seq::empty();
    let ghost mut ends: Seq<int> = Seq::empty();
    let ghost mut cur_start: int = 0;
    let ghost mut ran_out: bool = false;
    proof {
        assert(step_views(task@) =~= path_at(steps@, 0) + step_views(steps@.subrange(0, 0)));
        assert(step_views(init@) =~= path_at(steps@, 0));
        assert(steps@.subrange(0, 0) =~= Seq::<Step>::empty());
    }
    while k < steps.len()
        invariant
            k <= steps@.len(),
            total == leaf_count(steps@),
            total_num_paths == total,
            base == total / num_tasks as nat,
            num_normal_tasks == num_tasks - total % num_tasks as nat,
            num_tasks > 0,
            paths_per_job == base + if num_done_tasks >= num_normal_tasks { 1nat } else { 0nat },
            paths_per_job == job_size(total, num_tasks as nat, num_done_tasks as nat),
            num_done_tasks == res@.len(),
            leaf_count(task@) == paths_in_task,
            num_done_tasks + paths_in_task <= k,
            base <= total,
            total < usize::MAX,
            forall|x: int| 0 <= x < init@.len() ==> #[trigger] init@[x] is Forward,
            forall|t: int| 0 <= t < res@.len() ==> leaf_count(#[trigger] res@[t]@) == job_size(total, num_tasks as nat, t as nat),
            step_views(init@) == path_at(steps@, k as nat),
            starts.len() == res@.len(),
            ends.len() == res@.len(),
            res@.len() > 0 ==> starts[0] == 0,
            forall|t: int|
                0 <= t < res@.len() ==> task_window(steps@, starts[t], #[trigger] ends[t], job_size(total, num_tasks as nat, t as nat))
                    && step_views(res@[t]@) == path_at(steps@, starts[t] as nat) + step_views(
                    steps@.subrange(starts[t], ends[t]),
                ) && ends[t] <= k,
            forall|t: int| 0 <= t < res@.len() - 1 ==> next_start(steps@, #[trigger] ends[t], starts[t + 1]),
            ran_out ==> k == steps@.len() && res@.len() > 0 && only_back_from(steps@, ends[res@.len() - 1]),
            !ran_out ==> {
                &&& 0 <= cur_start <= k
                &&& step_views(task@) == path_at(steps@, cur_start as nat) + step_views(steps@.subrange(cur_start, k as int))
                &&& paths_in_task == leaf_count(steps@.subrange(cur_start, k as int))
                &&& paths_per_job == 0 || paths_in_task < paths_per_job
                &&& res@.len() == 0 ==> cur_start == 0
                &&& res@.len() > 0 ==> next_start(steps@, ends[res@.len() - 1], cur_start)
            },
        decreases steps@.len() - k,
    {
        let ghost k0 = k as int;
        let ghost task0 = task@;
        let ghost init0 = init@;
        proof {
            assert(steps@.subrange(cur_start, k0 + 1).drop_last() =~= steps@.subrange(cur_start, k0));
            assert(step_views(steps@.subrange(cur_start, k0 + 1)) =~= step_views(steps@.subrange(cur_start, k0)).push(
                step_view(steps@[k0]),
            ));
        }
        let step = copy_step(&steps[k]);
        k += 1;
        match step {
            tree::Step::Backward(at_leaf) => {
                let ghost before = task@;
                task.push(tree::Step::Backward(at_leaf));
                proof {
                    assert(task@.drop_last() =~= before);
                    assert(step_views(task@) =~= step_views(before).push(step_view(steps@[k0])));
                }
                let _ = init.pop();
                proof {
                    if init0.len() > 0 {
                        assert(step_views(init@) =~= step_views(init0).drop_last());
                    } else {
                        assert(step_views(init@) =~= step_views(init0));
                    }
                }
                if at_leaf.is_some() {
                    paths_in_task += 1;
                    if paths_in_task == paths_per_job {
                        paths_in_task = 0;
                        let ghost e = k as int;
                        let ghost mut found = false;
                        while k < steps.len()
                            invariant_except_break
                                !found,
                                forall|j: int| e <= j < k ==> #[trigger] steps@[j] is Backward,
                            invariant
                                e <= k <= steps@.len(),
                                forall|x: int| 0 <= x < init@.len() ==> #[trigger] init@[x] is Forward,
                                step_views(init@) == path_at(steps@, k as nat),
                            ensures
                                e <= k <= steps@.len(),
                                forall|x: int| 0 <= x < init@.len() ==> #[trigger] init@[x] is Forward,
                                step_views(init@) == path_at(steps@, k as nat),
                                found ==> next_start(steps@, e, k as int),
                                !found ==> k == steps@.len() && only_back_from(steps@, e),
                            decreases steps@.len() - k,
                        {
                            let ghost k1 = k as int;
                            let ghost init1 = init@;
                            let next = copy_step(&steps[k]);
                            k += 1;
                            match next {
                                tree::Step::Backward(_) => {
                                    let _ = init.pop();
                                    proof {
                                        if init1.len() > 0 {
                                            assert(step_views(init@) =~= step_views(init1).drop_last());
                                        } else {
                                            assert(step_views(init@) =~= step_views(init1));
                                        }
                                    }
                                },
                                forward => {
                                    init.push(forward);
                                    proof {
                                        assert(step_views(init@) =~= step_views(init1).push(step_view(steps@[k1])));
                                        found = true;
                                    }
                                    break;
                                },
                            }
                        }
                        let mut done = copy_forward_steps(&init);
                        proof {
                            assert(step_views(done@) =~= step_views(init@));
                        }
                        std::mem::swap(&mut task, &mut done);
                        proof {
                            assert(leaf_count(done@) == job_size(total, num_tasks as nat, res@.len() as nat));
                            starts = starts.push(cur_start);
                            ends = ends.push(e);
                            if found {
                                cur_start = k as int;
                                assert(steps@.subrange(cur_start, k as int) =~= Seq::<Step>::empty());
                                assert(step_views(task@) =~= path_at(steps@, cur_start as nat) + step_views(
                                    steps@.subrange(cur_start, k as int),
                                ));
                            } else {
                                ran_out = true;
                            }
                        }
                        res.push(done);
                        num_done_tasks += 1;
                        if num_done_tasks == num_normal_tasks {
                            paths_per_job += 1;
                        }
                    }
                }
            },
            forward => {
                let ghost before = task@;
                let copy = copy_step(&forward);
                task.push(copy);
                proof {
                    assert(task@.drop_last() =~= before);
                    assert(step_views(task@) =~= step_views(before).push(step_view(steps@[k0])));
                }
                init.push(forward);
                proof {
                    assert(step_views(init@) =~= step_views(init0).push(step_view(steps@[k0])));
                }
            },
        }
    }
    proof {
        let n = res@.len();
        if !ran_out {
            assert(steps@.subrange(cur_start, steps@.len() as int) == steps@.subrange(cur_start, k as int));
            if n > 0 {
                assert(incomplete(steps@, cur_start, job_size(total, num_tasks as nat, n)));
            }
        }
        assert(split_at(steps@, num_tasks as nat, res@, starts, ends));
    }
    res
}

impl<'l> Clone for PathGenerator<'l> {
    /// A copy with the same lookup, and clones of the partitions and the dependencies.
    fn clone(&self) -> (r: Self)
        ensures
            r.lookup() == self.lookup(),
            r.known().remaining() == self.known().remaining(),
    {
        Self { known: self.known.clone(), deps: self.deps.clone(), look: self.look }
    }
}

} // verus!
