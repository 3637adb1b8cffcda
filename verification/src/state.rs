//! The executable form of a thread: a cost with a sentinel for "dead", and a
//! shared, immutable chain of checkpoints.

use std::rc::Rc;
use vstd::prelude::*;
use crate::semantics::Thread;

verus! {

/// One checkpoint: the number of tokens consumed before it, its label, and the
/// checkpoint before it. A node is never changed once it is made; threads that
/// split share the nodes they have in common.
pub struct Path<U>(pub usize, pub U, pub Option<Rc<Path<U>>>);

/// A thread as the matcher stores it. The cost `isize::MAX` stands for a dead
/// thread, which carries no checkpoints.
pub struct State<U>(pub isize, pub Option<Rc<Path<U>>>);

/// The checkpoints reachable from `link`, oldest first.
pub open spec fn trail<U>(link: Option<Rc<Path<U>>>) -> Seq<(nat, U)>
    decreases link,
{
    match link {
        None => Seq::empty(),
        Some(node) => trail(node.2).push((node.0 as nat, node.1)),
    }
}

impl<U> View for State<U> {
    type V = Option<Thread<U>>;

    open spec fn view(&self) -> Option<Thread<U>> {
        if self.0 == isize::MAX {
            None
        } else {
            Some(Thread { cost: self.0 as int, marks: trail(self.1) })
        }
    }
}

impl<U> State<U> {
    /// A dead thread holds no chain.
    pub open spec fn wf(&self) -> bool {
        self.0 == isize::MAX ==> self.1 is None
    }

    /// The dead thread.
    pub fn dead() -> (r: State<U>)
        ensures
            r@ is None,
            r.wf(),
    {
        State(isize::MAX, None)
    }

    /// The thread with which every match begins.
    pub fn origin() -> (r: State<U>)
        ensures
            r@ == Some(crate::semantics::origin::<U>()),
            r.wf(),
    {
        State(0, None)
    }

    /// Whether the thread is alive.
    pub fn is_live(&self) -> (r: bool)
        ensures
            r == (self@ is Some),
    {
        self.0 != isize::MAX
    }
}

impl<U> Clone for State<U> {
    /// A second handle on the same thread; the chain is shared, not copied.
    fn clone(&self) -> (r: State<U>)
        ensures
            r == *self,
    {
        match &self.1 {
            Some(node) => State(self.0, Some(Rc::clone(node))),
            None => State(self.0, None),
        }
    }
}

/// The values of a row of memo cells.
pub open spec fn cells<U>(states: Seq<State<U>>) -> Seq<Option<Thread<U>>> {
    Seq::new(states.len(), |i: int| states[i]@)
}

/// Whether every cell of the row is well formed.
pub open spec fn all_wf<U>(states: Seq<State<U>>) -> bool {
    forall|i: int| 0 <= i < states.len() ==> (#[trigger] states[i]).wf()
}

} // verus!
