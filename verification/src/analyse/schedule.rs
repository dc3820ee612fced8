//! Measurement schedules of graph states: the time ordering of the measurements
//! ([time]) and the quantum memory that they need ([space]).
use vstd::prelude::*;

use self::space::{measure_round, AlreadyMeasured, Graph, State};
use self::time::{alive, PathGenerator, TimeOrderingViolation};
use self::tree::{Focus, FocusIterator};
use crate::graph::count_of;

pub mod space;
pub mod ordering;
pub mod sweep;
pub mod time;
pub mod tree;

verus! {

/// The error when an instruction cannot be applied.
#[derive(Debug, Clone, Copy, PartialEq, Eq, Structural)]
pub enum InstructionError {
    /// The instruction violates the time ordering.
    TimeOrderingViolation(TimeOrderingViolation),
    /// The instruction measures a bit that is already measured.
    AlreadyMeasured(AlreadyMeasured),
}

impl From<TimeOrderingViolation> for InstructionError {
    fn from(error: TimeOrderingViolation) -> (r: Self)
        ensures
            r == InstructionError::TimeOrderingViolation(error),
    {
        InstructionError::TimeOrderingViolation(error)
    }
}

impl vstd::std_specs::convert::FromSpecImpl<TimeOrderingViolation> for InstructionError {
    open spec fn obeys_from_spec() -> bool {
        true
    }

    open spec fn from_spec(v: TimeOrderingViolation) -> Self {
        InstructionError::TimeOrderingViolation(v)
    }
}

impl From<AlreadyMeasured> for InstructionError {
    fn from(error: AlreadyMeasured) -> (r: Self)
        ensures
            r == InstructionError::AlreadyMeasured(error),
    {
        InstructionError::AlreadyMeasured(error)
    }
}

impl vstd::std_specs::convert::FromSpecImpl<AlreadyMeasured> for InstructionError {
    open spec fn obeys_from_spec() -> bool {
        true
    }

    open spec fn from_spec(v: AlreadyMeasured) -> Self {
        InstructionError::AlreadyMeasured(v)
    }
}

/// Measuring bits that are not measured yet, each once, meets no measured qubit, and
/// every other qubit that was not measured stays so.
pub proof fn lemma_measure_round_ok(s: Seq<State>, lists: Seq<Seq<usize>>, set: Seq<usize>)
    requires
        set.no_duplicates(),
        forall|k: int| 0 <= k < set.len() ==> #[trigger] set[k] < s.len() && s[set[k] as int] != State::Measured,
    ensures
        measure_round(s, lists, set).1 is None,
        measure_round(s, lists, set).0.len() == s.len(),
        forall|n: int|
            0 <= n < s.len() && s[n] != State::Measured && !set.contains(n as usize) ==> #[trigger] measure_round(
                s,
                lists,
                set,
            ).0[n] != State::Measured,
    decreases set.len(),
{
    if set.len() > 0 {
        let prev_set = set.drop_last();
        let last = set.last();
        assert(set[set.len() - 1] == last);
        assert forall|i: int, j: int| 0 <= i < j < prev_set.len() implies prev_set[i] != prev_set[j] by {
            assert(set[i] != set[j]);
        }
        assert forall|k: int| 0 <= k < prev_set.len() implies #[trigger] prev_set[k] < s.len() && s[prev_set[k] as int]
            != State::Measured by {
            assert(set[k] == prev_set[k]);
        }
        lemma_measure_round_ok(s, lists, prev_set);
        assert(!prev_set.contains(last)) by {
            if prev_set.contains(last) {
                let i = choose|i: int| 0 <= i < prev_set.len() && prev_set[i] == last;
                assert(set[i] == set[set.len() - 1]);
            }
        }
        assert forall|n: int|
            0 <= n < s.len() && s[n] != State::Measured && !set.contains(n as usize) implies #[trigger] measure_round(
                s,
                lists,
                set,
            ).0[n] != State::Measured by {
            assert(!prev_set.contains(n as usize)) by {
                if prev_set.contains(n as usize) {
                    let i = choose|i: int| 0 <= i < prev_set.len() && prev_set[i] == n as usize;
                    assert(set[i] == n as usize);
                }
            }
            assert(n as usize != last);
        }
    }
}

/// Generates the measurement paths with the quantum memory that they need.
#[derive(Debug)]
pub struct Scheduler<'l> {
    time: PathGenerator<'l>,
    space: Graph,
}

impl<'l> Scheduler<'l> {
    /// The time ordering.
    pub closed spec fn time_view(&self) -> PathGenerator<'l> {
        self.time
    }

    /// The graph.
    pub closed spec fn space_view(&self) -> Graph {
        self.space
    }

    /// Combine a time ordering with a graph.
    pub fn new(time: PathGenerator<'l>, space: Graph) -> (r: Self)
        ensures
            r.time_view() == time,
            r.space_view() == space,
    {
        Self { time, space }
    }

    /// The time ordering.
    pub fn time(&self) -> (r: &PathGenerator<'l>)
        ensures
            *r == self.time_view(),
    {
        &self.time
    }

    /// The graph.
    pub fn space(&self) -> (r: &Graph)
        ensures
            *r == self.space_view(),
    {
        &self.space
    }

    /// The depth-first traversal of all paths, starting at this scheduler.
    pub fn into_iter(self) -> (r: tree::Sweep<Self>)
        ensures
            r.focused() == self,
            r.ancestors() == Seq::<Self>::empty(),
    {
        tree::Sweep::new(self, Vec::new())
    }
}

impl<'l, 'a> Focus<(&'a Vec<usize>, Vec<usize>)> for Scheduler<'l> {
    type Error = InstructionError;

    open spec fn can_focus(&self, instruction: (&'a Vec<usize>, Vec<usize>)) -> bool {
        &&& self.space_view().can_measure(instruction.0@)
        &&& self.time_view().can_focus(instruction)
    }

    /// The graph is focused first, then the time ordering.
    open spec fn focused(
        old: Self,
        after: Self,
        instruction: (&'a Vec<usize>, Vec<usize>),
        result: Result<Self, InstructionError>,
    ) -> bool {
        &&& after == old
        &&& match result {
            Ok(new) => {
                &&& Graph::updated(old.space_view(), new.space_view(), instruction.0@, Ok(()))
                &&& PathGenerator::focused(old.time_view(), old.time_view(), instruction, Ok(new.time_view()))
            },
            Err(InstructionError::AlreadyMeasured(e)) => exists|g: Graph|
                Graph::updated(old.space_view(), g, instruction.0@, Err(e)),
            Err(InstructionError::TimeOrderingViolation(e)) => {
                &&& exists|g: Graph| Graph::updated(old.space_view(), g, instruction.0@, Ok(()))
                &&& PathGenerator::focused(old.time_view(), old.time_view(), instruction, Err(e))
            },
        }
    }

    fn focus(&mut self, instruction: (&'a Vec<usize>, Vec<usize>)) -> (r: Result<Self, InstructionError>) {
        let ghost g0 = self.space_view();
        let bits = instruction.0.as_slice();
        let new_space = match self.space.focus(bits) {
            Ok(g) => g,
            Err(e) => {
                proof {
                    assert(bits@ == instruction.0@);
                    let g = choose|g: Graph| Graph::updated(g0, g, bits@, Err(e));
                    assert(Graph::updated(g0, g, instruction.0@, Err(e)));
                    let r: Result<Self, InstructionError> = Err(InstructionError::AlreadyMeasured(e));
                    assert(r matches Err(InstructionError::AlreadyMeasured(e2)) && e2 == e);
                    assert(<Self as Focus<(&'a Vec<usize>, Vec<usize>)>>::focused(*old(self), *self, instruction, r));
                }
                return Err(InstructionError::AlreadyMeasured(e));
            },
        };
        let new_time = match self.time.focus(instruction) {
            Ok(t) => t,
            Err(e) => {
                return Err(InstructionError::TimeOrderingViolation(e));
            },
        };
        Ok(Self { time: new_time, space: new_space })
    }
}

impl<'l> FocusIterator for Scheduler<'l> {
    type IterItem = Vec<usize>;
    type LeafItem = usize;

    /// The time ordering stepped (see its `stepped`), the graph stays with the parent,
    /// and the child's graph has the measured bits measured.
    open spec fn stepped(old: Self, parent: Self, child: Self, item: Vec<usize>) -> bool {
        &&& <PathGenerator<'l> as FocusIterator>::stepped(old.time_view(), parent.time_view(), child.time_view(), item)
        &&& parent.space_view() == old.space_view()
        &&& Graph::updated(old.space_view(), child.space_view(), item@, Ok(()))
    }

    /// The time ordering is well formed, the graph can measure, and no bit that is not
    /// measured in the time ordering is measured in the graph.
    open spec fn can_step(&self) -> bool {
        let t = self.time_view();
        let g = self.space_view();
        &&& t.wf()
        &&& g.can_measure(Seq::empty())
        &&& forall|m: usize|
            #[trigger] alive(t.measurable(), t.dependencies(), m) ==> m < g.states().len() && g.states()[m as int]
                != State::Measured
    }

    /// Measure the next partition of the measurable bits, in the time ordering and in the
    /// graph: the child scheduler, and the measured bits.
    fn next_and_focus(&mut self) -> (r: Option<(Self, Vec<usize>)>)
        ensures
            old(self).time_view().known().remaining().len() == 0 <==> r is None,
            final(self).space_view() == old(self).space_view(),
            final(self).time_view().lookup() == old(self).time_view().lookup(),
            final(self).time_view().dependencies() == old(self).time_view().dependencies(),
            final(self).time_view().measurable() == old(self).time_view().measurable(),
            old(self).time_view().known().remaining().len() > 0 ==> final(self).time_view().known().remaining()
                == old(self).time_view().known().remaining().drop_first(),
            r matches Some((child, measured)) ==> ({
                let t = old(self).time_view();
                let (measuring, rest) = crate::analyse::combinatoric::split_by(t.measurable(), t.known().remaining()[0]);
                &&& measured@ == measuring
                &&& child.time_view().lookup() == t.lookup()
                &&& time::unlink_all(time::ok_state(t.dependencies(), rest), time::step_pairs(t.lookup(), measuring))
                    == time::ok_state(child.time_view().dependencies(), child.time_view().measurable())
                &&& Graph::updated(old(self).space_view(), child.space_view(), measured@, Ok(()))
            }),
    {
        let ghost t0 = self.time_view();
        let (new_time, mess) = match self.time.next_and_focus() {
            Some(p) => p,
            None => {
                return None;
            },
        };
        proof {
            let (measuring, rest) = crate::analyse::combinatoric::split_by(t0.measurable(), t0.known().remaining()[0]);
            time::lemma_split_parts(t0.measurable(), t0.known().remaining()[0]);
            assert forall|k: int| 0 <= k < mess@.len() implies #[trigger] mess@[k] < self.space_view().states().len()
                && self.space_view().states()[mess@[k] as int] != State::Measured by {
                assert(measuring.contains(mess@[k]));
                assert(alive(t0.measurable(), t0.dependencies(), mess@[k]));
            }
            lemma_measure_round_ok(self.space_view().states(), self.space_view().lists(), mess@);
        }
        let new_space = match self.space.focus(mess.as_slice()) {
            Ok(g) => g,
            Err(e) => {
                proof {
                    assert(false);
                }
                return None;
            },
        };
        proof {
            let (measuring, rest) = crate::analyse::combinatoric::split_by(t0.measurable(), t0.known().remaining()[0]);
            time::lemma_measuring_keeps_resolvable(t0.measurable(), t0.dependencies(), t0.lookup(), t0.known().remaining()[0]);
            let s0 = self.space_view().states();
            let s1 = new_space.states();
            assert forall|m: usize|
                #[trigger] alive(new_time.measurable(), new_time.dependencies(), m) implies m < s1.len() && s1[m as int]
                    != State::Measured by {
                assert(alive(t0.measurable(), t0.dependencies(), m));
                assert(!measuring.contains(m));
            }
        }
        Some((Self { time: new_time, space: new_space }, mess))
    }

    /// The largest memory of the path, if no bit is measurable any more.
    fn at_leaf(&self) -> (r: Option<usize>)
        ensures
            r is Some <==> self.time_view().measurable().len() == 0,
            r matches Some(m) ==> m == self.space_view().peak(),
    {
        if self.time.finished_path() {
            Some(self.space.max_memory())
        } else {
            None
        }
    }
}

} // verus!
