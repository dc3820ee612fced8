//! Depth-first traversal of a tree of states: every state can be focused on the
//! outcome of an instruction, producing a child state.
use vstd::prelude::*;

verus! {

/// A state that can be focused on the outcome of an instruction.
pub trait Focus<Instruction>: Sized {
    /// The error when the instruction cannot be applied.
    type Error;

    /// Whether the instruction may be given to the state (a precondition of the
    /// implementor, such as bounds on the instruction).
    spec fn can_focus(&self, instruction: Instruction) -> bool;

    /// Whether `new` is `old` focused on `instruction`, given the outcome `result`.
    spec fn focused(old: Self, new: Self, instruction: Instruction, result: Result<(), Self::Error>) -> bool;

    /// Focus `self` in place on the instruction.
    fn focus_inplace(&mut self, instruction: Instruction) -> (r: Result<(), Self::Error>)
        requires
            old(self).can_focus(instruction),
        ensures
            Self::focused(*old(self), *final(self), instruction, r),
    ;

    /// Create a new state that is `self` focused on the instruction.
    fn focus(&mut self, instruction: Instruction) -> (r: Result<Self, Self::Error>)
        requires
            old(self).can_focus(instruction),
        ensures
            r matches Ok(new) ==> Self::focused(*old(self), new, instruction, Ok(())),
    ;
}

/// A state that can produce its children one after the other.
pub trait FocusIterator: Sized {
    /// What is produced when stepping to a child.
    type IterItem;
    /// What a leaf of the tree produces.
    type LeafItem;

    /// Whether the next child can be produced (or there is none).
    spec fn can_step(&self) -> bool;

    /// Whether stepping from the state `old` produced the `child` with the `item`,
    /// leaving `parent` behind (each implementor defines this relation).
    spec fn stepped(old: Self, parent: Self, child: Self, item: Self::IterItem) -> bool;

    /// Produce the next child and the item that leads to it, or [None] if there are no
    /// more children.
    fn next_and_focus(&mut self) -> (r: Option<(Self, Self::IterItem)>)
        requires
            old(self).can_step(),
        ensures
            r matches Some((child, item)) ==> Self::stepped(*old(self), *final(self), child, item),
    ;

    /// The item of the state if it is a leaf.
    fn at_leaf(&self) -> Option<Self::LeafItem>;
}

/// A step in the traversal: forward to a child, or backward to the parent.
#[derive(Debug, Clone, Copy, PartialEq, Eq, PartialOrd, Ord, Hash)]
pub enum Step<F, B> {
    /// A step forward, to a child.
    Forward(F),
    /// A step backward, to the parent.
    Backward(B),
}

/// A depth-first traversal of the tree, keeping the current state and the stack of
/// its ancestors.
#[derive(Debug, Clone, PartialEq, Eq, PartialOrd, Ord, Hash)]
pub struct Sweep<T> {
    current: T,
    stack: Vec<T>,
}

/// The error when the stack of ancestors is empty.
#[derive(Debug, Clone, Copy, PartialEq, Eq, Structural, PartialOrd, Ord, Hash)]
pub struct EmptyStackError;

impl<T> Sweep<T> {
    /// The state the traversal currently focuses on.
    pub closed spec fn focused(&self) -> T {
        self.current
    }

    /// The ancestors of the current state, the parent last.
    pub closed spec fn ancestors(&self) -> Seq<T> {
        self.stack@
    }

    /// Create a traversal at `current` with the ancestors `stack`.
    pub fn new(current: T, stack: Vec<T>) -> (r: Self)
        ensures
            r.focused() == current,
            r.ancestors() == stack@,
    {
        Self { current, stack }
    }

    /// The state the traversal currently focuses on.
    pub fn current(&self) -> (r: &T)
        ensures
            *r == self.focused(),
    {
        &self.current
    }

    /// The ancestors of the current state.
    pub fn stack(&self) -> (r: &Vec<T>)
        ensures
            r@ == self.ancestors(),
    {
        &self.stack
    }

    /// Skip the remaining children of the current state: go back to the parent.
    pub fn skip_focus(&mut self) -> (r: Result<(), EmptyStackError>)
        ensures
            old(self).ancestors().len() == 0 <==> r is Err,
            r is Err ==> final(self).focused() == old(self).focused() && final(self).ancestors()
                == old(self).ancestors(),
            r is Ok ==> final(self).focused() == old(self).ancestors().last() && final(self).ancestors() == old(self).ancestors().drop_last(),
    {
        match self.stack.pop() {
            Some(parent) => {
                self.current = parent;
                Ok(())
            },
            None => Err(EmptyStackError),
        }
    }
}

impl<T: FocusIterator> Sweep<T> {
    /// The next step of the traversal: to the next child of the current state (the
    /// current state is pushed onto the stack), or, if there is none, back to the
    /// parent with the leaf item of the current state; [None] at the end.
    pub fn next(&mut self) -> (r: Option<Step<T::IterItem, Option<T::LeafItem>>>)
        requires
            old(self).focused().can_step(),
        ensures
            r matches Some(Step::Forward(_)) ==> final(self).ancestors().len() == old(self).ancestors().len() + 1 && final(self).ancestors().subrange(
                0,
                old(self).ancestors().len() as int,
            ) == old(self).ancestors(),
            r matches Some(Step::Forward(item)) ==> T::stepped(
                old(self).focused(),
                final(self).ancestors().last(),
                final(self).focused(),
                item,
            ),
            r matches Some(Step::Backward(_)) ==> old(self).ancestors().len() > 0 && final(self).focused() == old(self).ancestors().last() && final(self).ancestors() == old(self).ancestors().drop_last(),
            r is None ==> old(self).ancestors().len() == 0 && final(self).ancestors().len() == 0,
    {
        match self.current.next_and_focus() {
            Some((child, mess)) => {
                let mut parent = child;
                std::mem::swap(&mut self.current, &mut parent);
                self.stack.push(parent);
                Some(Step::Forward(mess))
            },
            None => {
                let at_end = self.current.at_leaf();
                match self.stack.pop() {
                    Some(parent) => {
                        self.current = parent;
                        Some(Step::Backward(at_end))
                    },
                    None => None,
                }
            },
        }
    }
}

} // verus!
