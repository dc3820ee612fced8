//! Depth-first traversal of a tree of states that step to their children themselves.
use vstd::prelude::*;

verus! {

/// A step in the traversal: forward to a child, or backward to the parent.
#[derive(Debug, Clone, Copy, PartialEq, Eq)]
pub enum Step<F, B> {
    /// A step forward, to a child.
    Forward(F),
    /// A step backward, to the parent.
    Backward(B),
}

/// A depth-first traversal of the tree, keeping the current state and the stack of
/// its ancestors.
pub struct Sweep<T> {
    current: T,
    stack: Vec<T>,
}

/// The error when the stack of ancestors is empty.
#[derive(Debug, Clone, Copy, PartialEq, Eq, Structural)]
pub struct EmptyStackError;

/// A state that can step to its children one after the other.
pub trait FocusNext: Sized {
    /// What is produced when stepping to a child.
    type Outcome;
    /// What a state produces when the traversal leaves it.
    type EndOutcome;

    /// Whether stepping from the state `old` produced the `child` with the `outcome`,
    /// leaving `parent` behind (each implementor defines this relation).
    spec fn stepped(old: Self, parent: Self, child: Self, outcome: Self::Outcome) -> bool;

    /// Produce the next child and the outcome that leads to it, or [None] if there are
    /// no more children.
    fn step(&mut self) -> (r: Option<(Self, Self::Outcome)>)
        ensures
            r matches Some((child, outcome)) ==> Self::stepped(*old(self), *final(self), child, outcome),
    ;

    /// The outcome of the state when the traversal leaves it.
    fn check_end(&self) -> Self::EndOutcome;
}

impl<T> Sweep<T> {
    /// The state the traversal currently focuses on.
    pub closed spec fn focused(&self) -> T {
        self.current
    }

    /// The ancestors of the current state, the parent last.
    pub closed spec fn ancestors(&self) -> Seq<T> {
        self.stack@
    }

    /// Create a traversal at `current` with the ancestors `stack`.
    pub fn new(current: T, stack: Vec<T>) -> (r: Self)
        ensures
            r.focused() == current,
            r.ancestors() == stack@,
    {
        Self { current, stack }
    }

    /// The state the traversal currently focuses on.
    pub fn current(&self) -> (r: &T)
        ensures
            *r == self.focused(),
    {
        &self.current
    }

    /// The ancestors of the current state.
    pub fn stack(&self) -> (r: &Vec<T>)
        ensures
            r@ == self.ancestors(),
    {
        &self.stack
    }

    /// Skip the remaining children of the current state: go back to the parent.
    pub fn skip_focus(&mut self) -> (r: Result<(), EmptyStackError>)
        ensures
            old(self).ancestors().len() == 0 <==> r is Err,
            r is Err ==> final(self).focused() == old(self).focused() && final(self).ancestors()
                == old(self).ancestors(),
            r is Ok ==> final(self).focused() == old(self).ancestors().last() && final(self).ancestors() == old(self).ancestors().drop_last(),
    {
        match self.stack.pop() {
            Some(parent) => {
                self.current = parent;
                Ok(())
            },
            None => Err(EmptyStackError),
        }
    }
}

impl<T: FocusNext> Sweep<T> {
    /// The next step of the traversal: to the next child of the current state (the
    /// current state is pushed onto the stack), or, if there is none, back to the
    /// parent with the end outcome of the current state; [None] at the end.
    pub fn next(&mut self) -> (r: Option<Step<T::Outcome, T::EndOutcome>>)
        ensures
            r matches Some(Step::Forward(_)) ==> final(self).ancestors().len() == old(self).ancestors().len() + 1 && final(self).ancestors().drop_last() == old(self).ancestors(),
            r matches Some(Step::Forward(outcome)) ==> T::stepped(
                old(self).focused(),
                final(self).ancestors().last(),
                final(self).focused(),
                outcome,
            ),
            r matches Some(Step::Backward(_)) ==> old(self).ancestors().len() > 0 && final(self).focused() == old(self).ancestors().last() && final(self).ancestors() == old(self).ancestors().drop_last(),
            r is None ==> old(self).ancestors().len() == 0 && final(self).ancestors().len() == 0,
    {
        match self.current.step() {
            Some((child, mess)) => {
                let mut parent = child;
                std::mem::swap(&mut self.current, &mut parent);
                self.stack.push(parent);
                Some(Step::Forward(mess))
            },
            None => {
                let at_end = self.current.check_end();
                match self.stack.pop() {
                    Some(parent) => {
                        self.current = parent;
                        Some(Step::Backward(at_end))
                    },
                    None => None,
                }
            },
        }
    }
}

} // verus!
