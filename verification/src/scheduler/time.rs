//! The time ordering of measurements: which bits may be measured next, given a
//! dependency graph and the bits measured so far.
use std::collections::HashMap;

use vstd::prelude::*;

use super::space::mapped;
use super::tree::{Focus, FocusIterator, Sweep};
use crate::analyse::combinatoric::{split_by, Partition};
use crate::analyse::schedule::ordering::unique_bits;
use crate::analyse::schedule::time::{
    lemma_created_resolvable, lemma_measuring_keeps_resolvable, ok_state, pairs_of, resolvable,
    step_pairs, unlink_all,
};
use crate::analyse::space::{deps_map, flat};
use crate::analyse::DependencyGraph;

verus! {

broadcast use vstd::std_specs::hash::group_hash_axioms;

/// The dependents of each bit, shared by the states of a traversal.
#[derive(Debug, Clone)]
pub struct LookupBuffer {
    look: Vec<Vec<usize>>,
}

impl LookupBuffer {
    /// The dependents of the bits.
    pub closed spec fn lookup(&self) -> Seq<Seq<usize>> {
        Seq::new(self.look@.len(), |i: int| self.look@[i]@)
    }

    /// A buffer for `num_bits` bits, none with dependents yet.
    pub fn new(num_bits: usize) -> (r: Self)
        ensures
            r.lookup() == Seq::new(num_bits as nat, |_i: int| Seq::<usize>::empty()),
    {
        let mut look: Vec<Vec<usize>> = Vec::new();
        let mut i: usize = 0;
        while i < num_bits
            invariant
                i <= num_bits,
                look@.len() == i,
                forall|k: int| 0 <= k < i ==> (#[trigger] look@[k])@ == Seq::<usize>::empty(),
            decreases num_bits - i,
        {
            look.push(Vec::new());
            i += 1;
        }
        let r = Self { look };
        proof {
            assert(r.lookup() =~= Seq::new(num_bits as nat, |_i: int| Seq::<usize>::empty()));
        }
        r
    }
}

/// Marks the types that may hold a measurable set.
pub trait Sealed {
}

impl<T> Sealed for Vec<T> {
}

impl<T> Sealed for Partition<Vec<T>> {
}

/// The partitions of the measurable bits into the bits that are measured next and
/// those that stay measurable.
pub type Partitioner = Partition<Vec<usize>>;

/// A type that holds the set of measurable bits.
pub trait Init<T>: Sealed + Sized {
    /// The bits of the set.
    spec fn set_view(&self) -> Seq<T>;

    /// Whether the holder is well-formed.
    spec fn valid(&self) -> bool;

    /// Hold the set.
    fn init(set: Vec<T>) -> (r: Self)
        ensures
            r.set_view() == set@,
            r.valid(),
    ;

    /// The default value, which holds no bits.
    fn empty() -> (r: Self)
        ensures
            r.set_view() == Seq::<T>::empty(),
            r.valid(),
    ;

    /// The bits of the set.
    fn set(&self) -> (r: &[T])
        ensures
            r@ == self.set_view(),
    ;
}

impl<T> Init<T> for Vec<T> {
    open spec fn set_view(&self) -> Seq<T> {
        self@
    }

    open spec fn valid(&self) -> bool {
        true
    }

    fn init(set: Vec<T>) -> (r: Self) {
        set
    }

    fn empty() -> (r: Self) {
        Vec::new()
    }

    fn set(&self) -> (r: &[T]) {
        self.as_slice()
    }
}

impl<T: Copy> Init<T> for Partition<Vec<T>> {
    open spec fn set_view(&self) -> Seq<T> {
        self.elems()@
    }

    open spec fn valid(&self) -> bool {
        self.well_formed()
    }

    /// The partitions of the set, without the first one (by the empty subset, which
    /// measures nothing).
    fn init(set: Vec<T>) -> (r: Self)
        ensures
            r.well_formed(),
    {
        let len = set.len();
        let mut res = Partition::new(set, len);
        let _ = res.next();
        res
    }

    /// The partitions of the empty set, all of them: the one by the empty subset.
    fn empty() -> (r: Self) {
        Partition::default()
    }

    fn set(&self) -> (r: &[T]) {
        self.elements().as_slice()
    }
}

/// The error when bits are measured that are not measurable; it holds those bits.
#[derive(Debug, Clone, PartialEq, Eq, PartialOrd, Ord, Hash)]
pub struct NotMeasurable(pub Vec<usize>);

/// The dependency graph with the bits renamed by the mapping (bits without a new name
/// keep theirs).
pub open spec fn renamed_graph(
    dg: Seq<Seq<(usize, Seq<usize>)>>,
    mapping: Option<Map<usize, usize>>,
) -> Seq<Seq<(usize, Seq<usize>)>> {
    Seq::new(
        dg.len(),
        |i: int|
            Seq::new(
                dg[i].len(),
                |j: int|
                    (
                        mapped(mapping, dg[i][j].0),
                        Seq::new(dg[i][j].1.len(), |k: int| mapped(mapping, dg[i][j].1[k])),
                    ),
            ),
    )
}

/// The bits of the pairs whose dependencies contain `bit`, in order.
pub open spec fn dependents_of(pairs: Seq<(usize, Seq<usize>)>, bit: usize) -> Seq<usize>
    decreases pairs.len(),
{
    if pairs.len() == 0 {
        Seq::empty()
    } else {
        let prev = dependents_of(pairs.drop_last(), bit);
        if pairs.last().1.contains(bit) {
            prev.push(pairs.last().0)
        } else {
            prev
        }
    }
}

/// The lookup after recording, for each bit of the layer in order, its dependents in
/// `rest`.
pub open spec fn resolve_layer(
    look: Seq<Seq<usize>>,
    layer: Seq<(usize, Seq<usize>)>,
    rest: Seq<(usize, Seq<usize>)>,
) -> Seq<Seq<usize>>
    decreases layer.len(),
{
    if layer.len() == 0 {
        look
    } else {
        let prev = resolve_layer(look, layer.drop_last(), rest);
        prev.update(layer.last().0 as int, dependents_of(rest, layer.last().0))
    }
}

/// The lookup after resolving the first `i` layers, each against the layers after it.
pub open spec fn resolve_layers(look: Seq<Seq<usize>>, dg: Seq<Seq<(usize, Seq<usize>)>>, i: nat) -> Seq<
    Seq<usize>,
>
    decreases i,
{
    if i == 0 {
        look
    } else {
        resolve_layer(
            resolve_layers(look, dg, (i - 1) as nat),
            dg[i - 1],
            flat(dg.skip(i as int)),
        )
    }
}

/// The number of dependencies of each bit, from the pairs in order; a later pair of a
/// bit replaces an earlier one.
pub open spec fn counts_map(pairs: Seq<(usize, Seq<usize>)>) -> Map<usize, usize>
    decreases pairs.len(),
{
    if pairs.len() == 0 {
        Map::empty()
    } else {
        counts_map(pairs.drop_last()).insert(pairs.last().0, pairs.last().1.len() as usize)
    }
}

/// Every bit of the graph has a place in the lookup.
pub open spec fn bits_in_range(dg: Seq<Seq<(usize, Seq<usize>)>>, num: nat) -> bool {
    forall|i: int, j: int| 0 <= i < dg.len() && 0 <= j < dg[i].len() ==> #[trigger] dg[i][j].0 < num
}

/// Generates the sets of bits that may be measured, following a dependency graph.
#[derive(Debug)]
pub struct PathGenerator<'l, T> {
    measurable: T,
    deps: HashMap<usize, usize>,
    look: &'l Vec<Vec<usize>>,
}

impl<'l, T> PathGenerator<'l, T> {
    /// The number of unresolved dependencies of each bit that is not measurable yet.
    pub closed spec fn counters(&self) -> Map<usize, usize> {
        self.deps@
    }

    /// The dependents of each bit.
    pub closed spec fn lookup(&self) -> Seq<Seq<usize>> {
        Seq::new(self.look@.len(), |i: int| self.look@[i]@)
    }

    /// The measurable bits.
    pub closed spec fn measurable_set(&self) -> T {
        self.measurable
    }

    fn new(measurable: T, deps: HashMap<usize, usize>, look: &'l Vec<Vec<usize>>) -> (r: Self)
        ensures
            r.measurable_set() == measurable,
            r.counters() == deps@,
            r.lookup() == Seq::new(look@.len(), |i: int| look@[i]@),
    {
        Self { measurable, deps, look }
    }

    /// The measurable bits.
    pub fn measureable(&self) -> (r: &T)
        ensures
            *r == self.measurable_set(),
    {
        &self.measurable
    }

    /// Whether there are bits that are not measurable yet.
    pub fn has_unmeasureable(&self) -> (r: bool)
        ensures
            r == !self.counters().is_empty(),
    {
        !self.deps.is_empty()
    }
}

// record the dependents of `bit`: the bits in the layers from `from` on that depend on it
pub(crate) fn resolve(bit: usize, graph: &DependencyGraph, from: usize, look: &mut Vec<Vec<usize>>)
    requires
        bit < old(look)@.len(),
        from <= graph@.len(),
    ensures
        final(look)@.len() == old(look)@.len(),
        Seq::new(final(look)@.len(), |i: int| final(look)@[i]@) == Seq::new(
            old(look)@.len(),
            |i: int| old(look)@[i]@,
        ).update(bit as int, dependents_of(flat(graph.deep_view().skip(from as int)), bit)),
{
    let ghost dg = graph.deep_view();
    let ghost rest = dg.skip(from as int);
    let mut dependents: Vec<usize> = Vec::new();
    let mut i: usize = from;
    proof {
        assert(rest.take(0) =~= Seq::<Seq<(usize, Seq<usize>)>>::empty());
    }
    while i < graph.len()
        invariant
            from <= i <= graph@.len(),
            dg == graph.deep_view(),
            rest == dg.skip(from as int),
            dependents@ == dependents_of(flat(rest.take(i - from)), bit),
        decreases graph@.len() - i,
    {
        let layer = &graph[i];
        let ghost before = flat(rest.take(i - from));
        proof {
            assert(rest.take(i - from + 1).drop_last() =~= rest.take(i - from));
            assert(rest.take(i - from + 1).last() == dg[i as int]);
            assert(dg[i as int] =~= layer.deep_view());
            assert(before + layer.deep_view().take(0) =~= before);
        }
        let mut j: usize = 0;
        while j < layer.len()
            invariant
                j <= layer@.len(),
                dependents@ == dependents_of(before + layer.deep_view().take(j as int), bit),
            decreases layer@.len() - j,
        {
            let ghost pairs = before + layer.deep_view().take(j + 1);
            proof {
                assert(pairs.drop_last() =~= before + layer.deep_view().take(j as int));
                assert(pairs.last() == layer.deep_view()[j as int]);
                assert(layer.deep_view()[j as int].1 =~= layer@[j as int].1@);
            }
            if crate::scheduler::space::contains(&layer[j].1, bit) {
                dependents.push(layer[j].0);
            }
            j += 1;
        }
        proof {
            assert(layer.deep_view().take(layer@.len() as int) =~= layer.deep_view());
            assert(flat(rest.take(i - from + 1)) == before + layer.deep_view());
        }
        i += 1;
    }
    proof {
        assert(rest.take(graph@.len() - from) =~= rest);
    }
    let ghost old_view = Seq::new(look@.len(), |i: int| look@[i]@);
    look.set(bit, dependents);
    proof {
        assert(Seq::new(look@.len(), |i: int| look@[i]@) =~= old_view.update(
            bit as int,
            dependents_of(flat(rest), bit),
        ));
    }
}

// the graph with the bits renamed by the mapping; bits without a new name keep theirs
pub(crate) fn rename(graph: DependencyGraph, bit_mapping: Option<&HashMap<usize, usize>>) -> (r: DependencyGraph)
    ensures
        r.deep_view() == renamed_graph(
            graph.deep_view(),
            match bit_mapping {
                Some(m) => Some(m@),
                None => None,
            },
        ),
{
    match bit_mapping {
        None => {
            proof {
                let dg = graph.deep_view();
                assert forall|i: int| 0 <= i < dg.len() implies #[trigger] renamed_graph(dg, None)[i]
                    == dg[i] by {
                    assert forall|j: int| 0 <= j < dg[i].len() implies #[trigger] renamed_graph(
                        dg,
                        None,
                    )[i][j] == dg[i][j] by {
                        assert(renamed_graph(dg, None)[i][j].1 =~= dg[i][j].1);
                    }
                    assert(renamed_graph(dg, None)[i] =~= dg[i]);
                }
                assert(renamed_graph(dg, None) =~= dg);
            }
            graph
        },
        Some(m) => {
            let ghost dg = graph.deep_view();
            let ghost target = renamed_graph(dg, Some(m@));
            let mut r: DependencyGraph = Vec::new();
            let mut i: usize = 0;
            while i < graph.len()
                invariant
                    i <= graph@.len(),
                    dg == graph.deep_view(),
                    target == renamed_graph(dg, Some(m@)),
                    r.deep_view() == target.take(i as int),
                    r@.len() == i,
                decreases graph@.len() - i,
            {
                let mut layer: Vec<(usize, Vec<usize>)> = Vec::new();
                let mut j: usize = 0;
                proof {
                    assert(dg[i as int] == graph@[i as int].deep_view());
                    assert(layer.deep_view() =~= target[i as int].take(0));
                }
                while j < graph[i].len()
                    invariant
                        i < graph@.len(),
                        j <= graph@[i as int]@.len(),
                        dg == graph.deep_view(),
                        target == renamed_graph(dg, Some(m@)),
                        layer.deep_view() == target[i as int].take(j as int),
                        layer@.len() == j,
                        target[i as int].len() == graph@[i as int]@.len(),
                    decreases graph@[i as int]@.len() - j,
                {
                    let (bit, deps) = &graph[i][j];
                    let new_bit = match m.get(bit) {
                        Some(v) => *v,
                        None => *bit,
                    };
                    let mut new_deps: Vec<usize> = Vec::new();
                    let mut k: usize = 0;
                    while k < deps.len()
                        invariant
                            k <= deps@.len(),
                            new_deps@ == Seq::new(k as nat, |x: int| mapped(Some(m@), deps@[x])),
                        decreases deps@.len() - k,
                    {
                        let d = deps[k];
                        let nd = match m.get(&d) {
                            Some(v) => *v,
                            None => d,
                        };
                        new_deps.push(nd);
                        proof {
                            assert(new_deps@ =~= Seq::new(
                                (k + 1) as nat,
                                |x: int| mapped(Some(m@), deps@[x]),
                            ));
                        }
                        k += 1;
                    }
                    let ghost nd_view = new_deps@;
                    let ghost nd_deep = new_deps.deep_view();
                    let ghost prev_layer = layer.deep_view();
                    proof {
                        assert(nd_deep =~= nd_view);
                    }
                    layer.push((new_bit, new_deps));
                    proof {
                        assert(new_bit == mapped(Some(m@), *bit));
                        assert(layer.deep_view()[j as int] == (new_bit, nd_deep));
                        assert(layer.deep_view().drop_last() =~= prev_layer);
                        assert(dg[i as int][j as int].0 == *bit);
                        assert(dg[i as int][j as int].1 =~= deps@);
                        assert(nd_view =~= target[i as int][j as int].1);
                        assert(layer.deep_view() =~= target[i as int].take(j + 1));
                    }
                    j += 1;
                }
                let ghost lv = layer.deep_view();
                let ghost prev_r = r.deep_view();
                r.push(layer);
                proof {
                    assert(r.deep_view()[i as int] == lv);
                    assert(r.deep_view().drop_last() =~= prev_r);
                    assert(lv =~= target[i as int]);
                    assert(r.deep_view() =~= target.take(i + 1));
                }
                i += 1;
            }
            proof {
                assert(target.take(graph@.len() as int) =~= target);
            }
            r
        },
    }
}

/// The measurable bits of a renamed dependency graph: those of its first layer.
pub open spec fn first_bits(mg: Seq<Seq<(usize, Seq<usize>)>>) -> Seq<usize> {
    if mg.len() == 0 {
        Seq::empty()
    } else {
        Seq::new(mg[0].len(), |j: int| mg[0][j].0)
    }
}

/// The counters of a renamed dependency graph: the number of dependencies of each bit
/// after the first layer.
pub open spec fn first_counters(mg: Seq<Seq<(usize, Seq<usize>)>>) -> Map<usize, usize> {
    if mg.len() == 0 {
        Map::empty()
    } else {
        counts_map(flat(mg.skip(1)))
    }
}

/// The mapping of a bit mapping, by its view.
pub open spec fn mapping_view(bit_mapping: Option<&HashMap<usize, usize>>) -> Option<Map<usize, usize>> {
    match bit_mapping {
        Some(m) => Some(m@),
        None => None,
    }
}

impl<'l, T: Init<usize>> PathGenerator<'l, T> {
    /// Create the generator from a dependency graph whose bits are first renamed by
    /// `bit_mapping` (bits without a new name keep theirs): the bits of the first layer
    /// are measurable, every other bit waits for its dependencies. The dependents of
    /// every bit are recorded in the lookup buffer, layer after layer.
    pub fn from_dependency_graph(
        graph: DependencyGraph,
        lookup: &'l mut LookupBuffer,
        bit_mapping: Option<&HashMap<usize, usize>>,
    ) -> (r: Self)
        requires
            bits_in_range(
                renamed_graph(graph.deep_view(), mapping_view(bit_mapping)),
                old(lookup).lookup().len(),
            ),
        ensures
            ({
                let mg = renamed_graph(graph.deep_view(), mapping_view(bit_mapping));
                &&& final(lookup).lookup() == resolve_layers(old(lookup).lookup(), mg, mg.len())
                &&& r.lookup() == final(lookup).lookup()
                &&& r.measurable_set().set_view() == first_bits(mg)
                &&& r.counters() == first_counters(mg)
                &&& r.measurable_set().valid()
                &&& unique_bits(mg) ==> r.resolvable()
            }),
    {
        let ghost look0 = lookup.lookup();
        let graph = rename(graph, bit_mapping);
        let ghost mg = graph.deep_view();
        proof {
            assert(lens_fit(mg)) by {
                broadcast use vstd::std_specs::vec::axiom_spec_len;

                assert forall|i: int, j: int| 0 <= i < mg.len() && 0 <= j < mg[i].len() implies #[trigger] mg[i][j].1.len()
                    <= usize::MAX by {
                    assert(mg[i][j].1.len() == graph@[i]@[j].1@.len());
                    assert(graph@[i]@[j].1.len() == graph@[i]@[j].1@.len());
                }
            }
            if unique_bits(mg) {
                lemma_created_counted_resolvable(look0, mg);
            }
        }
        if graph.len() == 0 {
            let shared: &'l LookupBuffer = lookup;
            let r = Self { measurable: T::empty(), deps: HashMap::new(), look: &shared.look };
            proof {
                assert(r.counters() =~= first_counters(mg));
                assert(resolve_layers(look0, mg, mg.len()) == look0);
            }
            return r;
        }
        let mut measurable: Vec<usize> = Vec::new();
        let mut deps: HashMap<usize, usize> = HashMap::new();
        let mut i: usize = 0;
        while i < graph.len()
            invariant
                0 < graph@.len(),
                i <= graph@.len(),
                mg == graph.deep_view(),
                bits_in_range(mg, look0.len()),
                lookup.lookup() == resolve_layers(look0, mg, i as nat),
                lookup.lookup().len() == look0.len(),
                measurable@ == if i == 0 { Seq::empty() } else { first_bits(mg) },
                deps@ == if i == 0 { Map::empty() } else { counts_map(flat(mg.skip(1).take(i - 1))) },
            decreases graph@.len() - i,
        {
            let layer = &graph[i];
            let ghost before_look = lookup.lookup();
            let ghost before_deps = if i == 0 {
                Seq::<(usize, Seq<usize>)>::empty()
            } else {
                flat(mg.skip(1).take(i - 1))
            };
            proof {
                assert(mg[i as int] =~= layer.deep_view());
                assert(layer.deep_view().take(0) =~= Seq::<(usize, Seq<usize>)>::empty());
                assert(before_deps + layer.deep_view().take(0) =~= before_deps);
                if i == 0 {
                    assert(measurable@ =~= Seq::new(0, |x: int| mg[0][x].0));
                }
            }
            let mut j: usize = 0;
            while j < layer.len()
                invariant
                    j <= layer@.len(),
                    0 < graph@.len(),
                    i < graph@.len(),
                    mg == graph.deep_view(),
                    mg[i as int] == layer.deep_view(),
                    bits_in_range(mg, look0.len()),
                    lookup.lookup() == resolve_layer(
                        before_look,
                        layer.deep_view().take(j as int),
                        flat(mg.skip(i + 1)),
                    ),
                    lookup.lookup().len() == look0.len(),
                    before_look.len() == look0.len(),
                    i == 0 ==> measurable@ == Seq::new(j as nat, |x: int| mg[0][x].0),
                    i > 0 ==> measurable@ == first_bits(mg),
                    before_deps == (if i == 0 {
                        Seq::<(usize, Seq<usize>)>::empty()
                    } else {
                        flat(mg.skip(1).take(i - 1))
                    }),
                    i == 0 ==> deps@ == Map::<usize, usize>::empty(),
                    i > 0 ==> deps@ == counts_map(before_deps + layer.deep_view().take(j as int)),
                decreases layer@.len() - j,
            {
                let bit = layer[j].0;
                proof {
                    assert(mg[i as int][j as int].0 == bit);
                    assert(layer.deep_view().take(j + 1).drop_last() =~= layer.deep_view().take(
                        j as int,
                    ));
                    assert(layer.deep_view().take(j + 1).last() == layer.deep_view()[j as int]);
                }
                resolve(bit, &graph, i + 1, &mut lookup.look);
                if i == 0 {
                    measurable.push(bit);
                    proof {
                        assert(measurable@ =~= Seq::new((j + 1) as nat, |x: int| mg[0][x].0));
                    }
                } else {
                    let count = layer[j].1.len();
                    deps.insert(bit, count);
                    proof {
                        let pairs = before_deps + layer.deep_view().take(j + 1);
                        assert(pairs.drop_last() =~= before_deps + layer.deep_view().take(j as int));
                        assert(pairs.last() == layer.deep_view()[j as int]);
                        assert(layer.deep_view()[j as int].1.len() == count);
                    }
                }
                j += 1;
            }
            proof {
                assert(layer.deep_view().take(layer@.len() as int) =~= layer.deep_view());
                if i > 0 {
                    assert(mg.skip(1).take(i as int).drop_last() =~= mg.skip(1).take(i - 1));
                    assert(mg.skip(1).take(i as int).last() == mg[i as int]);
                } else {
                    assert(measurable@ =~= first_bits(mg));
                }
            }
            i += 1;
        }
        proof {
            assert(mg.skip(1).take(graph@.len() - 1) =~= mg.skip(1));
        }
        let shared: &'l LookupBuffer = lookup;
        Self { measurable: T::init(measurable), deps, look: &shared.look }
    }
}

/// Whether `p` is the first index of `e` in `s`.
pub open spec fn first_at(s: Seq<usize>, e: usize, p: int) -> bool {
    &&& 0 <= p < s.len()
    &&& s[p] == e
    &&& forall|k: int| 0 <= k < p ==> s[k] != e
}

/// The sequence without its element at `p`, whose place the last element takes.
pub open spec fn swap_removed(s: Seq<usize>, p: int) -> Seq<usize> {
    s.update(p, s.last()).drop_last()
}

/// Split the measurable `set` by the measured bits: the bits of the set that are not
/// measured, in order, and the measured bits that are not in the set. Each bit of the
/// set, in order, removes the first occurrence among the measured bits, whose place
/// the last measured bit takes.
pub open spec fn split_set(set: Seq<usize>, measuring: Seq<usize>) -> (Seq<usize>, Seq<usize>)
    decreases set.len(),
{
    if set.len() == 0 {
        (Seq::empty(), measuring)
    } else {
        let (kept, rest) = split_set(set.drop_last(), measuring);
        let e = set.last();
        if rest.contains(e) {
            (kept, swap_removed(rest, choose|p: int| first_at(rest, e, p)))
        } else {
            (kept.push(e), rest)
        }
    }
}

/// The bits whose counters are decreased when the bits of `set` are measured: the
/// dependents of each, in order.
pub open spec fn visits(look: Seq<Seq<usize>>, set: Seq<usize>) -> Seq<usize>
    decreases set.len(),
{
    if set.len() == 0 {
        Seq::empty()
    } else {
        visits(look, set.drop_last()) + look[set.last() as int]
    }
}

/// The counters and the new measurable bits after decreasing the counter of `bit`:
/// a counter that reaches zero is removed and its bit becomes measurable. [None] if the
/// bit has no counter or a zero one.
pub open spec fn count_down(state: Option<(Map<usize, usize>, Seq<usize>)>, bit: usize) -> Option<
    (Map<usize, usize>, Seq<usize>),
> {
    match state {
        None => None,
        Some((deps, new)) => if !deps.contains_key(bit) || deps[bit] == 0 {
            None
        } else if deps[bit] == 1 {
            Some((deps.remove(bit), new.push(bit)))
        } else {
            Some((deps.insert(bit, (deps[bit] - 1) as usize), new))
        },
    }
}

/// The counters and the new measurable bits after decreasing the counters of `bits`
/// one after the other (see [count_down]).
pub open spec fn count_down_all(deps: Map<usize, usize>, new: Seq<usize>, bits: Seq<usize>) -> Option<
    (Map<usize, usize>, Seq<usize>),
>
    decreases bits.len(),
{
    if bits.len() == 0 {
        Some((deps, new))
    } else {
        count_down(count_down_all(deps, new, bits.drop_last()), bits.last())
    }
}

// the first index of `e` in `s`, if any
pub(crate) fn position(s: &Vec<usize>, e: usize) -> (r: Option<usize>)
    ensures
        r matches Some(p) ==> first_at(s@, e, p as int),
        r is None ==> !s@.contains(e),
{
    let mut i: usize = 0;
    while i < s.len()
        invariant
            i <= s@.len(),
            forall|k: int| 0 <= k < i ==> s@[k] != e,
        decreases s@.len() - i,
    {
        if s[i] == e {
            return Some(i);
        }
        i += 1;
    }
    None
}

pub(crate) proof fn lemma_first_at_unique(s: Seq<usize>, e: usize, p: int, q: int)
    requires
        first_at(s, e, p),
        first_at(s, e, q),
    ensures
        p == q,
{
    if p < q {
        assert(s[p] != e);
    } else if q < p {
        assert(s[q] != e);
    }
}

impl<'l, T: Init<usize>> PathGenerator<'l, T> {
    // check that the measured bits are measurable, and return the bits that stay
    // measurable
    fn partition(&self, measure_set: &[usize]) -> (r: Result<Vec<usize>, NotMeasurable>)
        requires
            measure_set@.len() <= self.measurable_set().set_view().len(),
        ensures
            ({
                let (kept, rest) = split_set(self.measurable_set().set_view(), measure_set@);
                &&& rest.len() == 0 ==> (r matches Ok(v) && v@ == kept)
                &&& rest.len() > 0 ==> (r matches Err(e) && e.0@ == rest)
            }),
    {
        let set = self.measurable.set();
        let ghost sv = set@;
        let mut new_measurable_set: Vec<usize> = Vec::with_capacity(set.len() - measure_set.len());
        let mut copy_measure_set = vstd::slice::slice_to_vec(measure_set);
        let mut i: usize = 0;
        proof {
            assert(sv.take(0) =~= Seq::<usize>::empty());
        }
        while i < set.len()
            invariant
                i <= sv.len(),
                sv == set@,
                (new_measurable_set@, copy_measure_set@) == split_set(sv.take(i as int), measure_set@),
            decreases sv.len() - i,
        {
            let e = set[i];
            proof {
                assert(sv.take(i + 1).drop_last() =~= sv.take(i as int));
                assert(sv.take(i + 1).last() == e);
            }
            match position(&copy_measure_set, e) {
                Some(p) => {
                    proof {
                        let rest = copy_measure_set@;
                        let q = choose|q: int| first_at(rest, e, q);
                        assert(first_at(rest, e, p as int));
                        lemma_first_at_unique(rest, e, p as int, q);
                    }
                    copy_measure_set.swap_remove(p);
                },
                None => {
                    new_measurable_set.push(e);
                },
            }
            i += 1;
        }
        proof {
            assert(sv.take(sv.len() as int) =~= sv);
        }
        if copy_measure_set.len() > 0 {
            return Err(NotMeasurable(copy_measure_set));
        }
        Ok(new_measurable_set)
    }

    // decrease the counters of the dependents of the measured bits; bits whose counters
    // reach zero become measurable
    fn update_unchecked(
        look: &Vec<Vec<usize>>,
        deps: &mut HashMap<usize, usize>,
        measure_set: &[usize],
        new_measurable_set: &mut Vec<usize>,
    )
        requires
            forall|k: int| 0 <= k < measure_set@.len() ==> #[trigger] measure_set@[k] < look@.len(),
            count_down_all(
                old(deps)@,
                old(new_measurable_set)@,
                visits(Seq::new(look@.len(), |i: int| look@[i]@), measure_set@),
            ) is Some,
        ensures
            Some((final(deps)@, final(new_measurable_set)@)) == count_down_all(
                old(deps)@,
                old(new_measurable_set)@,
                visits(Seq::new(look@.len(), |i: int| look@[i]@), measure_set@),
            ),
    {
        let ghost lv = Seq::new(look@.len(), |i: int| look@[i]@);
        let ghost deps0 = deps@;
        let ghost new0 = new_measurable_set@;
        let ghost all = visits(lv, measure_set@);
        let mut i: usize = 0;
        proof {
            assert(measure_set@.take(0) =~= Seq::<usize>::empty());
        }
        while i < measure_set.len()
            invariant
                i <= measure_set@.len(),
                lv == Seq::new(look@.len(), |i: int| look@[i]@),
                all == visits(lv, measure_set@),
                forall|k: int| 0 <= k < measure_set@.len() ==> #[trigger] measure_set@[k] < look@.len(),
                count_down_all(deps0, new0, all) is Some,
                Some((deps@, new_measurable_set@)) == count_down_all(
                    deps0,
                    new0,
                    visits(lv, measure_set@.take(i as int)),
                ),
            decreases measure_set@.len() - i,
        {
            let measure = measure_set[i];
            let dependents = &look[measure];
            let ghost before = visits(lv, measure_set@.take(i as int));
            proof {
                assert(measure_set@.take(i + 1).drop_last() =~= measure_set@.take(i as int));
                assert(measure_set@.take(i + 1).last() == measure);
                assert(dependents@ == lv[measure as int]);
                assert(before + dependents@.take(0) =~= before);
                lemma_visits_prefix(lv, measure_set@, i + 1);
                let prefix = visits(lv, measure_set@.take(i + 1));
                assert(prefix =~= before + dependents@);
                assert(all.take(prefix.len() as int) =~= prefix);
                lemma_count_down_prefix(deps0, new0, all, prefix.len() as int);
            }
            let mut j: usize = 0;
            while j < dependents.len()
                invariant
                    j <= dependents@.len(),
                    count_down_all(deps0, new0, before + dependents@) is Some,
                    Some((deps@, new_measurable_set@)) == count_down_all(
                        deps0,
                        new0,
                        before + dependents@.take(j as int),
                    ),
                decreases dependents@.len() - j,
            {
                let bit = dependents[j];
                let ghost pairs = before + dependents@.take(j + 1);
                proof {
                    assert(pairs.drop_last() =~= before + dependents@.take(j as int));
                    assert(pairs.last() == bit);
                    lemma_count_down_prefix(deps0, new0, before + dependents@, (before.len() + j + 1) as int);
                    assert((before + dependents@).take((before.len() + j + 1) as int) =~= pairs);
                }
                let count = match deps.get(&bit) {
                    Some(c) => *c,
                    None => 0,
                };
                if count == 1 {
                    deps.remove(&bit);
                    new_measurable_set.push(bit);
                } else {
                    deps.insert(bit, count - 1);
                }
                j += 1;
            }
            proof {
                assert(dependents@.take(dependents@.len() as int) =~= dependents@);
            }
            i += 1;
        }
        proof {
            assert(measure_set@.take(measure_set@.len() as int) =~= measure_set@);
        }
    }
}

proof fn lemma_visits_prefix(look: Seq<Seq<usize>>, set: Seq<usize>, k: int)
    requires
        0 <= k <= set.len(),
    ensures
        visits(look, set.take(k)).len() <= visits(look, set).len(),
        visits(look, set) == visits(look, set.take(k)) + visits(look, set).skip(visits(look, set.take(k)).len() as int),
    decreases set.len(),
{
    if k == set.len() {
        assert(set.take(k) =~= set);
        assert(visits(look, set).skip(visits(look, set).len() as int) =~= Seq::<usize>::empty());
        assert(visits(look, set) + Seq::<usize>::empty() =~= visits(look, set));
    } else {
        assert(set.drop_last().take(k) =~= set.take(k));
        lemma_visits_prefix(look, set.drop_last(), k);
        let a = visits(look, set.take(k));
        let b = visits(look, set.drop_last());
        assert(visits(look, set) =~= b + look[set.last() as int]);
        assert(visits(look, set) =~= a + visits(look, set).skip(a.len() as int));
    }
}

proof fn lemma_count_down_prefix(deps: Map<usize, usize>, new: Seq<usize>, bits: Seq<usize>, k: int)
    requires
        0 <= k <= bits.len(),
        count_down_all(deps, new, bits) is Some,
    ensures
        count_down_all(deps, new, bits.take(k)) is Some,
    decreases bits.len(),
{
    if k == bits.len() {
        assert(bits.take(k) =~= bits);
    } else {
        assert(bits.drop_last().take(k) =~= bits.take(k));
        lemma_count_down_prefix(deps, new, bits.drop_last(), k);
    }
}

impl<'l, T: Init<usize>> PathGenerator<'l, T> {
    /// Whether measuring can never fail from here on (see [counted_resolvable]), with a
    /// well-formed holder of the measurable bits.
    pub open spec fn resolvable(&self) -> bool {
        &&& self.measurable_set().valid()
        &&& counted_resolvable(self.measurable_set().set_view(), self.counters(), self.lookup())
    }

    /// Whether the bits of `set` may be measured: there are at most as many as there are
    /// measurable bits, and if all are measurable, they have places in the lookup and
    /// measuring them decreases only counters that are not zero yet.
    pub open spec fn can_update(&self, set: Seq<usize>) -> bool {
        let (kept, rest) = split_set(self.measurable_set().set_view(), set);
        &&& set.len() <= self.measurable_set().set_view().len()
        &&& rest.len() == 0 ==> {
            &&& forall|k: int| 0 <= k < set.len() ==> #[trigger] set[k] < self.lookup().len()
            &&& count_down_all(self.counters(), kept, visits(self.lookup(), set)) is Some
        }
    }

    /// Whether `new` is `old` after measuring the bits of `set`, with the outcome
    /// `result`: if some of them are not measurable (see [split_set]), the error holds
    /// them and nothing changes; else the counters of their dependents are decreased, and
    /// the bits whose counters reach zero join the bits that stay measurable (see
    /// [count_down_all]).
    pub open spec fn updated(old: Self, new: Self, set: Seq<usize>, result: Result<(), NotMeasurable>) -> bool {
        let (kept, rest) = split_set(old.measurable_set().set_view(), set);
        &&& new.lookup() == old.lookup()
        &&& rest.len() > 0 ==> {
            &&& result matches Err(e) && e.0@ == rest
            &&& new.measurable_set() == old.measurable_set()
            &&& new.counters() == old.counters()
        }
        &&& rest.len() == 0 ==> {
            &&& result is Ok
            &&& count_down_all(old.counters(), kept, visits(old.lookup(), set)) == Some(
                (new.counters(), new.measurable_set().set_view()),
            )
        }
    }

    // a new generator after measuring the bits, which must all be measurable; the bits
    // that stay measurable are given
    fn focus_unchecked(&mut self, measure_set: &[usize], new_measureable_set: Vec<usize>) -> (r: Self)
        requires
            forall|k: int| 0 <= k < measure_set@.len() ==> #[trigger] measure_set@[k] < old(self).lookup().len(),
            count_down_all(
                old(self).counters(),
                new_measureable_set@,
                visits(old(self).lookup(), measure_set@),
            ) is Some,
        ensures
            *final(self) == *old(self),
            r.lookup() == old(self).lookup(),
            r.measurable_set().valid(),
            count_down_all(
                old(self).counters(),
                new_measureable_set@,
                visits(old(self).lookup(), measure_set@),
            ) == Some((r.counters(), r.measurable_set().set_view())),
    {
        let mut new_measureable_set = new_measureable_set;
        let mut deps = self.deps.clone();
        Self::update_unchecked(self.look, &mut deps, measure_set, &mut new_measureable_set);
        Self::new(T::init(new_measureable_set), deps, self.look)
    }
}

impl<'l, 'a, T: Init<usize>> Focus<&'a [usize]> for PathGenerator<'l, T> {
    type Error = NotMeasurable;

    open spec fn can_focus(&self, instruction: &'a [usize]) -> bool {
        self.can_update(instruction@)
    }

    open spec fn focused(old: Self, new: Self, instruction: &'a [usize], result: Result<(), NotMeasurable>) -> bool {
        Self::updated(old, new, instruction@, result)
    }

    /// Measure the bits (see [PathGenerator::updated]).
    fn focus_inplace(&mut self, measure_set: &'a [usize]) -> (r: Result<(), NotMeasurable>) {
        let mut new_measureable_set = match self.partition(measure_set) {
            Ok(v) => v,
            Err(e) => {
                return Err(e);
            },
        };
        Self::update_unchecked(self.look, &mut self.deps, measure_set, &mut new_measureable_set);
        self.measurable = T::init(new_measureable_set);
        Ok(())
    }

    /// A new generator after measuring the bits (see [PathGenerator::updated]); this one
    /// is unchanged.
    fn focus(&mut self, measure_set: &'a [usize]) -> (r: Result<Self, NotMeasurable>)
        ensures
            *final(self) == *old(self),
            r matches Err(e) ==> e.0@ == split_set(old(self).measurable_set().set_view(), measure_set@).1,
            r is Err <==> split_set(old(self).measurable_set().set_view(), measure_set@).1.len() > 0,
    {
        let new_measureable_set = match self.partition(measure_set) {
            Ok(v) => v,
            Err(e) => {
                return Err(e);
            },
        };
        Ok(self.focus_unchecked(measure_set, new_measureable_set))
    }
}

impl<'l> FocusIterator for PathGenerator<'l, Partitioner> {
    type IterItem = Vec<usize>;
    type LeafItem = ();

    /// The partition by the first remaining subset was measured: `parent` keeps the
    /// measurable bits and counters with that subset used up, and `child` has the
    /// counters and measurable bits of counting down the dependents of the measured
    /// bits, which the item holds.
    open spec fn stepped(old: Self, parent: Self, child: Self, item: Vec<usize>) -> bool {
        let part = old.measurable_set();
        let (measuring, rest) = split_by(part.elems()@, part.remaining()[0]);
        &&& part.remaining().len() > 0
        &&& parent.lookup() == old.lookup()
        &&& parent.counters() == old.counters()
        &&& parent.measurable_set().elems() == part.elems()
        &&& parent.measurable_set().well_formed()
        &&& parent.measurable_set().remaining() == part.remaining().drop_first()
        &&& item@ == measuring
        &&& child.lookup() == old.lookup()
        &&& count_down_all(old.counters(), rest, visits(old.lookup(), measuring)) == Some(
            (child.counters(), child.measurable_set().set_view()),
        )
    }

    /// The next partition of the measurable bits can be measured: its measured bits have
    /// places in the lookup and counting down their dependents finds no counter at zero.
    open spec fn can_step(&self) -> bool {
        let part = self.measurable_set();
        &&& part.well_formed()
        &&& part.remaining().len() > 0 ==> {
            let (measuring, rest) = split_by(part.elems()@, part.remaining()[0]);
            &&& forall|k: int| 0 <= k < measuring.len() ==> #[trigger] measuring[k] < self.lookup().len()
            &&& count_down_all(self.counters(), rest, visits(self.lookup(), measuring)) is Some
        }
    }

    /// Measure the next partition of the measurable bits: the child generator, and the
    /// measured bits.
    fn next_and_focus(&mut self) -> (r: Option<(Self, Vec<usize>)>)
        ensures
            final(self).lookup() == old(self).lookup(),
            final(self).counters() == old(self).counters(),
            final(self).measurable_set().elems() == old(self).measurable_set().elems(),
            final(self).measurable_set().well_formed(),
            old(self).measurable_set().remaining().len() == 0 <==> r is None,
            r is None ==> final(self).measurable_set().remaining().len() == 0,
            old(self).measurable_set().remaining().len() > 0 ==> final(self).measurable_set().remaining()
                == old(self).measurable_set().remaining().drop_first(),
            r matches Some((child, measured)) ==> ({
                let (measuring, rest) = split_by(
                    old(self).measurable_set().elems()@,
                    old(self).measurable_set().remaining()[0],
                );
                &&& measured@ == measuring
                &&& child.lookup() == old(self).lookup()
                &&& count_down_all(old(self).counters(), rest, visits(old(self).lookup(), measuring))
                    == Some((child.counters(), child.measurable_set().set_view()))
            }),
            old(self).resolvable() ==> final(self).resolvable(),
            old(self).resolvable() && r is Some ==> r->Some_0.0.resolvable(),
    {
        let ghost before = *self;
        let (measuring, new_measurable_set) = match self.measurable.next() {
            Some(p) => p,
            None => {
                return None;
            },
        };
        proof {
            if before.resolvable() {
                lemma_counting_keeps_resolvable(
                    before.measurable_set().elems()@,
                    before.counters(),
                    before.lookup(),
                    before.measurable_set().remaining()[0],
                );
            }
        }
        let child = self.focus_unchecked(measuring.as_slice(), new_measurable_set);
        Some((child, measuring))
    }

    /// `()` if no bit is measurable any more.
    fn at_leaf(&self) -> (r: Option<()>)
        ensures
            r is Some <==> self.measurable_set().elems()@.len() == 0,
    {
        if self.measurable.elements().len() == 0 {
            Some(())
        } else {
            None
        }
    }
}

/// A [PathGenerator::resolvable] generator can always step to its next child.
pub proof fn lemma_resolvable_can_step<'l>(g: PathGenerator<'l, Partitioner>)
    requires
        g.resolvable(),
    ensures
        g.can_step(),
{
    let part = g.measurable_set();
    if part.remaining().len() > 0 {
        lemma_counting_keeps_resolvable(part.elems()@, g.counters(), g.lookup(), part.remaining()[0]);
    }
}

impl<'l, T: Clone> Clone for PathGenerator<'l, T> {
    /// A copy with the same counters and lookup, and a clone of the measurable set.
    fn clone(&self) -> (r: Self)
        ensures
            r.counters() == self.counters(),
            r.lookup() == self.lookup(),
            cloned(self.measurable_set(), r.measurable_set()),
    {
        Self { measurable: self.measurable.clone(), deps: self.deps.clone(), look: self.look }
    }
}

impl<'l> PathGenerator<'l, Partitioner> {
    /// The depth-first traversal of all paths, starting at this generator.
    pub fn into_iter(self) -> (r: Sweep<Self>)
        ensures
            r.focused() == self,
            r.ancestors() == Seq::<Self>::empty(),
    {
        Sweep::new(self, Vec::new())
    }
}

/// Whether the counters are the lengths of the dependency lists, which the same bits
/// have.
pub open spec fn counts_lists(counters: Map<usize, usize>, lists: Map<usize, Seq<usize>>) -> bool {
    &&& counters.dom() == lists.dom()
    &&& forall|b: usize| #[trigger] counters.contains_key(b) ==> counters[b] == lists[b].len()
}

/// Whether measuring can never fail from here on: the counters are the lengths of
/// dependency lists with which the measurable bits are [resolvable].
pub open spec fn counted_resolvable(set: Seq<usize>, counters: Map<usize, usize>, look: Seq<Seq<usize>>) -> bool {
    exists|lists: Map<usize, Seq<usize>>| #[trigger] counts_lists(counters, lists) && resolvable(set, lists, look)
}

/// Whether every dependency list of the graph has a length that fits in `usize`.
pub open spec fn lens_fit(dg: Seq<Seq<(usize, Seq<usize>)>>) -> bool {
    forall|i: int, j: int| 0 <= i < dg.len() && 0 <= j < dg[i].len() ==> #[trigger] dg[i][j].1.len() <= usize::MAX
}

/// The dependents visited when measuring are the second components of the pairs of the
/// measured bits with their dependents.
pub proof fn lemma_visits_pairs(look: Seq<Seq<usize>>, measuring: Seq<usize>)
    ensures
        visits(look, measuring) == step_pairs(look, measuring).map_values(|p: (usize, usize)| p.1),
    decreases measuring.len(),
{
    if measuring.len() > 0 {
        let prev = measuring.drop_last();
        lemma_visits_pairs(look, prev);
        let m = measuring.last();
        let a = step_pairs(look, prev);
        let b = pairs_of(m, look[m as int]);
        assert((a + b).map_values(|p: (usize, usize)| p.1) =~= a.map_values(|p: (usize, usize)| p.1) + look[m as int]);
    }
}

/// Counting down follows resolving: where resolving the pairs of measured bits and
/// dependents succeeds on lists whose lengths are the counters, counting down the
/// dependents succeeds too, with the same new measurable bits and counters that are
/// the lengths of the resolved lists.
pub proof fn lemma_count_down_follows(
    counters: Map<usize, usize>,
    lists: Map<usize, Seq<usize>>,
    first: Seq<usize>,
    pairs: Seq<(usize, usize)>,
)
    requires
        counts_lists(counters, lists),
        unlink_all(ok_state(lists, first), pairs) matches Some(Ok(_)),
    ensures
        unlink_all(ok_state(lists, first), pairs) matches Some(Ok((d, f))) && count_down_all(
            counters,
            first,
            pairs.map_values(|p: (usize, usize)| p.1),
        ) == Some((count_map_of(d), f)) && counts_lists(count_map_of(d), d),
    decreases pairs.len(),
{
    let bits = pairs.map_values(|p: (usize, usize)| p.1);
    if pairs.len() == 0 {
        assert(count_map_of(lists) =~= counters);
    } else {
        let prev = pairs.drop_last();
        lemma_count_down_follows(counters, lists, first, prev);
        assert(bits.drop_last() =~= prev.map_values(|p: (usize, usize)| p.1));
        let (d, f) = unlink_all(ok_state(lists, first), prev)->Some_0->Ok_0;
        let (x, b) = pairs.last();
        assert(bits.last() == b);
        assert(d.contains_key(b) && d[b].contains(x));
        let i = choose|i: int| 0 <= i < d[b].len() && d[b][i] == x;
        crate::analyse::schedule::time::lemma_first_index(d[b], x, i);
        let q = choose|q: int| 0 <= q < d[b].len() && d[b][q] == x && forall|r: int| 0 <= r < q ==> d[b][r] != x;
        assert(first_at(d[b], x, q));
        let p = choose|p: int| first_at(d[b], x, p);
        let list = swap_removed(d[b], p);
        assert(list.len() == d[b].len() - 1);
        if list.len() == 0 {
            assert(count_map_of(d.remove(b)) =~= count_map_of(d).remove(b));
        } else {
            assert(count_map_of(d.insert(b, list)) =~= count_map_of(d).insert(b, (count_map_of(d)[b] - 1) as usize));
        }
    }
}

/// The lengths of the dependency lists, as counters.
pub open spec fn count_map_of(lists: Map<usize, Seq<usize>>) -> Map<usize, usize> {
    lists.map_values(|l: Seq<usize>| l.len() as usize)
}

/// Measuring a part of the measurable bits of a [counted_resolvable] generator never
/// fails, and the generator stays [counted_resolvable]: the measured bits are in range,
/// and counting down their dependents ends without error.
pub proof fn lemma_counting_keeps_resolvable(
    set: Seq<usize>,
    counters: Map<usize, usize>,
    look: Seq<Seq<usize>>,
    subset: Seq<usize>,
)
    requires
        counted_resolvable(set, counters, look),
    ensures
        ({
            let (measuring, rest) = split_by(set, subset);
            &&& forall|k: int| 0 <= k < measuring.len() ==> #[trigger] measuring[k] < look.len()
            &&& measuring.no_duplicates()
            &&& forall|x: usize| #[trigger] measuring.contains(x) ==> set.contains(x)
            &&& count_down_all(counters, rest, visits(look, measuring)) matches Some((c, f))
                && counted_resolvable(f, c, look) && forall|m: usize| #[trigger]
                unmeasured(f, c, m) ==> unmeasured(set, counters, m) && !measuring.contains(m)
        }),
{
    let lists = choose|lists: Map<usize, Seq<usize>>| #[trigger] counts_lists(counters, lists) && resolvable(set, lists, look);
    let (measuring, rest) = split_by(set, subset);
    lemma_measuring_keeps_resolvable(set, lists, look, subset);
    lemma_visits_pairs(look, measuring);
    let pairs = step_pairs(look, measuring);
    lemma_count_down_follows(counters, lists, rest, pairs);
    let (d, f) = unlink_all(ok_state(lists, rest), pairs)->Some_0->Ok_0;
    assert(counts_lists(count_map_of(d), d) && resolvable(f, d, look));
    crate::analyse::schedule::time::lemma_split_parts(set, subset);
    assert forall|m: usize| #[trigger] unmeasured(f, count_map_of(d), m) implies unmeasured(set, counters, m)
        && !measuring.contains(m) by {
        assert(crate::analyse::schedule::time::alive(f, d, m));
    }
}

/// Whether the bit is not measured yet: it is measurable, or it has a counter.
pub open spec fn unmeasured(set: Seq<usize>, counters: Map<usize, usize>, m: usize) -> bool {
    set.contains(m) || counters.contains_key(m)
}

/// The counters of the pairs are the lengths of their dependency lists.
pub proof fn lemma_counts_map_lists(pairs: Seq<(usize, Seq<usize>)>)
    requires
        forall|i: int| 0 <= i < pairs.len() ==> #[trigger] pairs[i].1.len() <= usize::MAX,
    ensures
        counts_lists(counts_map(pairs), deps_map(pairs)),
    decreases pairs.len(),
{
    if pairs.len() > 0 {
        let prev = pairs.drop_last();
        assert forall|i: int| 0 <= i < prev.len() implies #[trigger] prev[i].1.len() <= usize::MAX by {
            assert(prev[i] == pairs[i]);
        }
        lemma_counts_map_lists(prev);
        assert(pairs.last() == pairs[pairs.len() - 1]);
        assert(counts_map(pairs).dom() =~= deps_map(pairs).dom());
    }
}

/// A generator made from a dependency graph whose bits are all different is
/// [counted_resolvable].
pub proof fn lemma_created_counted_resolvable(look0: Seq<Seq<usize>>, mg: Seq<Seq<(usize, Seq<usize>)>>)
    requires
        unique_bits(mg),
        bits_in_range(mg, look0.len()),
        lens_fit(mg),
    ensures
        counted_resolvable(first_bits(mg), first_counters(mg), resolve_layers(look0, mg, mg.len())),
{
    let look = resolve_layers(look0, mg, mg.len());
    if mg.len() == 0 {
        let lists = Map::<usize, Seq<usize>>::empty();
        assert(first_counters(mg) =~= Map::<usize, usize>::empty());
        assert(counts_lists(first_counters(mg), lists));
        assert(resolvable(first_bits(mg), lists, look));
    } else {
        lemma_created_resolvable(look0, mg);
        let rest = flat(mg.skip(1));
        assert forall|i: int| 0 <= i < rest.len() implies #[trigger] rest[i].1.len() <= usize::MAX by {
            crate::analyse::schedule::ordering::lemma_flat_members(mg.skip(1));
            assert(crate::analyse::schedule::ordering::in_graph(mg.skip(1), rest[i]));
            let (a, b) = choose|a: int, b: int| 0 <= a < mg.skip(1).len() && 0 <= b < mg.skip(1)[a].len() && #[trigger] mg.skip(1)[a][b] == rest[i];
            assert(mg[a + 1][b] == rest[i]);
        }
        lemma_counts_map_lists(rest);
        let lists = crate::analyse::schedule::time::first_deps(mg);
        assert(counts_lists(first_counters(mg), lists));
    }
}

} // verus!
