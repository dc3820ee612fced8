//! Scheduling paths for graph states under a time ordering: a [Scheduler] combines the
//! time ordering ([time]) with the quantum memory ([space]).
use vstd::prelude::*;

use self::space::{lemma_measure_round_ok, measure_round, AlreadyMeasured, Graph, State};
use self::time::{
    lemma_counting_keeps_resolvable, split_set, unmeasured, Init, NotMeasurable, PathGenerator, Partitioner,
};
use self::tree::{Focus, FocusIterator, Sweep};
use crate::analyse::combinatoric::split_by;

pub mod space;
pub mod time;
pub mod tree;

verus! {

/// The error when an instruction cannot be applied to a [Scheduler].
#[derive(Debug, Clone, PartialEq, Eq, PartialOrd, Ord, Hash)]
pub enum InstructionError {
    /// Some bits are not measurable.
    NotMeasurable(NotMeasurable),
    /// A bit is already measured.
    AlreadyMeasured(AlreadyMeasured),
}

impl Default for InstructionError {
    fn default() -> (r: Self)
        ensures
            r matches InstructionError::NotMeasurable(e) && e.0@.len() == 0,
    {
        InstructionError::NotMeasurable(NotMeasurable(Vec::new()))
    }
}

impl From<NotMeasurable> for InstructionError {
    fn from(error: NotMeasurable) -> (r: Self)
        ensures
            r == InstructionError::NotMeasurable(error),
    {
        InstructionError::NotMeasurable(error)
    }
}

impl vstd::std_specs::convert::FromSpecImpl<NotMeasurable> for InstructionError {
    open spec fn obeys_from_spec() -> bool {
        true
    }

    open spec fn from_spec(v: NotMeasurable) -> Self {
        InstructionError::NotMeasurable(v)
    }
}

impl From<AlreadyMeasured> for InstructionError {
    fn from(error: AlreadyMeasured) -> (r: Self)
        ensures
            r == InstructionError::AlreadyMeasured(error),
    {
        InstructionError::AlreadyMeasured(error)
    }
}

impl vstd::std_specs::convert::FromSpecImpl<AlreadyMeasured> for InstructionError {
    open spec fn obeys_from_spec() -> bool {
        true
    }

    open spec fn from_spec(v: AlreadyMeasured) -> Self {
        InstructionError::AlreadyMeasured(v)
    }
}

/// Generates the allowed measurement paths and the quantum memory that they need.
#[derive(Debug)]
pub struct Scheduler<'l, T> {
    time: PathGenerator<'l, T>,
    space: Graph<'l>,
}

impl<'l, T> Scheduler<'l, T> {
    /// The time ordering.
    pub closed spec fn time_view(&self) -> PathGenerator<'l, T> {
        self.time
    }

    /// The graph.
    pub closed spec fn space_view(&self) -> Graph<'l> {
        self.space
    }

    /// Combine a time ordering with a graph.
    pub fn new(time: PathGenerator<'l, T>, space: Graph<'l>) -> (r: Self)
        ensures
            r.time_view() == time,
            r.space_view() == space,
    {
        Self { time, space }
    }

    /// The time ordering.
    pub fn time(&self) -> (r: &PathGenerator<'l, T>)
        ensures
            *r == self.time_view(),
    {
        &self.time
    }

    /// The graph.
    pub fn space(&self) -> (r: &Graph<'l>)
        ensures
            *r == self.space_view(),
    {
        &self.space
    }
}

impl<'l, 'a, T: Init<usize>> Focus<&'a [usize]> for Scheduler<'l, T> {
    type Error = InstructionError;

    open spec fn can_focus(&self, instruction: &'a [usize]) -> bool {
        &&& self.time_view().can_update(instruction@)
        &&& self.space_view().can_measure(instruction@)
    }

    /// The time ordering is focused first; if it succeeds, the graph is focused too.
    open spec fn focused(old: Self, new: Self, instruction: &'a [usize], result: Result<(), InstructionError>) -> bool {
        match result {
            Err(InstructionError::NotMeasurable(e)) => {
                &&& PathGenerator::updated(old.time_view(), new.time_view(), instruction@, Err(e))
                &&& new.space_view() == old.space_view()
            },
            Err(InstructionError::AlreadyMeasured(e)) => {
                &&& PathGenerator::updated(old.time_view(), new.time_view(), instruction@, Ok(()))
                &&& Graph::measured_set(old.space_view(), new.space_view(), instruction@, Err(e))
            },
            Ok(()) => {
                &&& PathGenerator::updated(old.time_view(), new.time_view(), instruction@, Ok(()))
                &&& Graph::measured_set(old.space_view(), new.space_view(), instruction@, Ok(()))
            },
        }
    }

    /// Measure the set: in the time ordering, then in the graph.
    fn focus_inplace(&mut self, measure_set: &'a [usize]) -> (r: Result<(), InstructionError>) {
        match self.time.focus_inplace(measure_set) {
            Ok(()) => {},
            Err(e) => {
                return Err(InstructionError::NotMeasurable(e));
            },
        }
        match self.space.focus_inplace(measure_set) {
            Ok(()) => Ok(()),
            Err(e) => Err(InstructionError::AlreadyMeasured(e)),
        }
    }

    /// A new scheduler with the set measured; this one is unchanged. It fails with the
    /// bits that are not measurable, if there are any; else with a bit that the graph
    /// has measured already, if it meets one.
    fn focus(&mut self, measure_set: &'a [usize]) -> (r: Result<Self, InstructionError>)
        ensures
            *final(self) == *old(self),
            ({
                let rest = split_set(old(self).time_view().measurable_set().set_view(), measure_set@).1;
                &&& rest.len() > 0 <==> r is Err && r->Err_0 is NotMeasurable
                &&& r matches Err(InstructionError::NotMeasurable(e)) ==> e.0@ == rest
                &&& rest.len() == 0 && (exists|e: AlreadyMeasured| Graph::fails_with(old(self).space_view(), measure_set@, e))
                    <==> r is Err && r->Err_0 is AlreadyMeasured
                &&& r matches Err(InstructionError::AlreadyMeasured(e)) ==> Graph::fails_with(
                    old(self).space_view(),
                    measure_set@,
                    e,
                )
            }),
    {
        let ghost g0 = self.space_view();
        let new_time = match self.time.focus(measure_set) {
            Ok(t) => t,
            Err(e) => {
                return Err(InstructionError::NotMeasurable(e));
            },
        };
        let new_space = match self.space.focus(measure_set) {
            Ok(s) => s,
            Err(e) => {
                return Err(InstructionError::AlreadyMeasured(e));
            },
        };
        proof {
            assert forall|e: AlreadyMeasured| !Graph::fails_with(g0, measure_set@, e) by {
                if Graph::fails_with(g0, measure_set@, e) {
                    let after = choose|after: Graph| Graph::measured_set(g0, after, measure_set@, Err(e));
                    assert(Graph::measured_set(g0, after, measure_set@, Err(e)));
                    assert(Graph::measured_set(g0, new_space, measure_set@, Ok(())));
                }
            }
        }
        Ok(Self { time: new_time, space: new_space })
    }
}

impl<'l> FocusIterator for Scheduler<'l, Partitioner> {
    type IterItem = Vec<usize>;
    type LeafItem = usize;

    /// The time ordering stepped (see its `stepped`), the graph stays with the parent,
    /// and the child's graph has the measured bits measured.
    open spec fn stepped(old: Self, parent: Self, child: Self, item: Vec<usize>) -> bool {
        &&& <PathGenerator<'l, Partitioner> as FocusIterator>::stepped(
            old.time_view(),
            parent.time_view(),
            child.time_view(),
            item,
        )
        &&& parent.space_view() == old.space_view()
        &&& Graph::measured_set(old.space_view(), child.space_view(), item@, Ok(()))
    }

    /// The time ordering can measure its next partition, and the graph can measure its
    /// measured bits, none of which is measured already.
    open spec fn can_step(&self) -> bool {
        let part = self.time_view().measurable_set();
        &&& self.time_view().can_step()
        &&& part.remaining().len() > 0 ==> {
            let measuring = split_by(part.elems()@, part.remaining()[0]).0;
            &&& self.space_view().can_measure(measuring)
            &&& forall|e: AlreadyMeasured| !Graph::fails_with(self.space_view(), measuring, e)
        }
    }

    /// Measure the next partition of the measurable bits, in the time ordering and in the
    /// graph: the child scheduler, and the measured bits.
    fn next_and_focus(&mut self) -> (r: Option<(Self, Vec<usize>)>)
        ensures
            old(self).time_view().measurable_set().remaining().len() == 0 <==> r is None,
            old(self).resolvable() ==> final(self).resolvable(),
            old(self).resolvable() && r is Some ==> r->Some_0.0.resolvable(),
            r matches Some((child, measured)) ==> ({
                let part = old(self).time_view().measurable_set();
                let (measuring, rest) = split_by(part.elems()@, part.remaining()[0]);
                &&& measured@ == measuring
                &&& child.time_view().lookup() == old(self).time_view().lookup()
                &&& count_down_all_of(old(self).time_view(), rest, measuring) == Some(
                    (child.time_view().counters(), child.time_view().measurable_set().set_view()),
                )
                &&& Graph::measured_set(old(self).space_view(), child.space_view(), measuring, Ok(()))
            }),
    {
        let ghost t0 = self.time_view();
        let ghost g0 = self.space_view();
        let (new_time, mess) = match self.time.next_and_focus() {
            Some(p) => p,
            None => {
                return None;
            },
        };
        proof {
            if old(self).resolvable() {
                let part = t0.measurable_set();
                lemma_counting_keeps_resolvable(
                    part.elems()@,
                    t0.counters(),
                    t0.lookup(),
                    part.remaining()[0],
                );
                assert forall|k: int| 0 <= k < mess@.len() implies #[trigger] mess@[k] < g0.states().len()
                    && g0.states()[mess@[k] as int] != State::Measured by {
                    assert(mess@.contains(mess@[k]));
                    assert(unmeasured(part.elems()@, t0.counters(), mess@[k]));
                }
                lemma_measure_round_ok(g0.states(), g0.lists(), mess@);
            }
        }
        let new_space = match self.space.focus(mess.as_slice()) {
            Ok(s) => s,
            Err(e) => {
                proof {
                    assert(Graph::fails_with(self.space_view(), mess@, e));
                    if old(self).resolvable() {
                        let after = choose|after: Graph| Graph::measured_set(g0, after, mess@, Err(e));
                        assert(Graph::measured_set(g0, after, mess@, Err(e)));
                    }
                }
                return None;
            },
        };
        let child = Self { time: new_time, space: new_space };
        proof {
            if old(self).resolvable() {
                let part = t0.measurable_set();
                let states = measure_round(g0.states(), g0.lists(), mess@).0;
                assert forall|m: usize| #[trigger]
                    unmeasured(
                        child.time_view().measurable_set().set_view(),
                        child.time_view().counters(),
                        m,
                    ) implies m < child.space_view().states().len() && child.space_view().states()[m as int]
                    != State::Measured by {
                    assert(unmeasured(part.elems()@, t0.counters(), m));
                    assert(!mess@.contains(m));
                }
                lemma_count_sleeping_bound(g0, child.space_view(), mess@);
            }
        }
        Some((child, mess))
    }

    /// The largest memory of the path, if no bit is measurable any more.
    fn at_leaf(&self) -> (r: Option<usize>)
        ensures
            r is Some <==> self.time_view().measurable_set().elems()@.len() == 0,
            r matches Some(m) ==> m == self.space_view().peak(),
    {
        if self.time.measureable().elements().len() == 0 {
            Some(self.space.max_memory())
        } else {
            None
        }
    }
}

impl<'l> Scheduler<'l, Partitioner> {
    /// Whether stepping can never fail from here on: the time ordering is
    /// [PathGenerator::resolvable], the graph may measure with its memory in range, and
    /// every bit that the time ordering has not measured yet is a node of the graph that
    /// is not measured.
    pub open spec fn resolvable(&self) -> bool {
        let t = self.time_view();
        let g = self.space_view();
        &&& t.resolvable()
        &&& g.can_measure(Seq::empty())
        &&& forall|m: usize| #[trigger]
            unmeasured(t.measurable_set().set_view(), t.counters(), m) ==> m < g.states().len()
                && g.states()[m as int] != State::Measured
    }
}

/// A [Scheduler::resolvable] scheduler can always step to its next child.
pub proof fn lemma_resolvable_can_step<'l>(s: Scheduler<'l, Partitioner>)
    requires
        s.resolvable(),
    ensures
        s.can_step(),
{
    let t = s.time_view();
    let g = s.space_view();
    time::lemma_resolvable_can_step(t);
    let part = t.measurable_set();
    if part.remaining().len() > 0 {
        lemma_counting_keeps_resolvable(part.elems()@, t.counters(), t.lookup(), part.remaining()[0]);
        let measuring = split_by(part.elems()@, part.remaining()[0]).0;
        assert forall|k: int| 0 <= k < measuring.len() implies #[trigger] measuring[k] < g.states().len()
            && g.states()[measuring[k] as int] != State::Measured by {
            assert(measuring.contains(measuring[k]));
            assert(unmeasured(part.elems()@, t.counters(), measuring[k]));
        }
        lemma_measure_round_ok(g.states(), g.lists(), measuring);
        assert forall|e: AlreadyMeasured| !Graph::fails_with(g, measuring, e) by {
            if Graph::fails_with(g, measuring, e) {
                let after = choose|after: Graph| Graph::measured_set(g, after, measuring, Err(e));
                assert(Graph::measured_set(g, after, measuring, Err(e)));
            }
        }
    }
}

/// A scheduler of a [PathGenerator::resolvable] time ordering and a fresh graph of the
/// bits of its lookup, all sleeping and no memory used, is [Scheduler::resolvable].
pub proof fn lemma_fresh_scheduler_resolvable<'l>(s: Scheduler<'l, Partitioner>)
    requires
        s.time_view().resolvable(),
        s.space_view().wf(),
        s.space_view().now() == 0,
        s.space_view().states() == Seq::new(s.time_view().lookup().len(), |_i: int| State::Sleeping),
    ensures
        s.resolvable(),
{
    let t = s.time_view();
    let g = s.space_view();
    g.lemma_states_fit();
    crate::graph::lemma_count_of_bound(g.states(), State::Sleeping);
    let lists = choose|lists: Map<usize, Seq<usize>>| #[trigger]
        time::counts_lists(t.counters(), lists) && crate::analyse::schedule::time::resolvable(
            t.measurable_set().set_view(),
            lists,
            t.lookup(),
        );
    assert forall|m: usize| #[trigger] unmeasured(t.measurable_set().set_view(), t.counters(), m) implies m
        < g.states().len() && g.states()[m as int] != State::Measured by {
        assert(crate::analyse::schedule::time::alive(t.measurable_set().set_view(), lists, m));
    }
}

/// After measuring bits that were all not measured, each once, the memory bound of the
/// graph still holds.
proof fn lemma_count_sleeping_bound<'l>(old: Graph<'l>, new: Graph<'l>, set: Seq<usize>)
    requires
        old.can_measure(Seq::empty()),
        Graph::measured_set(old, new, set, Ok(())),
    ensures
        new.can_measure(Seq::empty()),
{
}

/// The counters and the measurable bits of the time ordering after measuring the bits;
/// `rest` are the bits that stay measurable.
pub open spec fn count_down_all_of<'l>(time: PathGenerator<'l, Partitioner>, rest: Seq<usize>, measuring: Seq<usize>) -> Option<
    (Map<usize, usize>, Seq<usize>),
> {
    time::count_down_all(time.counters(), rest, time::visits(time.lookup(), measuring))
}

impl<'l, T: Clone> Clone for Scheduler<'l, T> {
    /// A copy of the time ordering and the graph.
    fn clone(&self) -> (r: Self)
        ensures
            cloned(self.time_view(), r.time_view()),
    {
        Self { time: self.time.clone(), space: self.space.clone() }
    }
}

impl<'l> Scheduler<'l, Partitioner> {
    /// The depth-first traversal of all paths, starting at this scheduler.
    pub fn into_iter(self) -> (r: Sweep<Self>)
        ensures
            r.focused() == self,
            r.ancestors() == Seq::<Self>::empty(),
    {
        Sweep::new(self, Vec::new())
    }
}

} // verus!
