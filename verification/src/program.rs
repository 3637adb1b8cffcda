//! Compiling a pattern: giving every concatenation and repetition its memo cell.

use vstd::prelude::*;
use crate::pattern::Pattern;
use crate::regex::RegEx;

verus! {

/// A compiled pattern: the tree with its memo cells numbered, and their count.
#[verifier::reject_recursive_types(T)]
pub struct RegExRoot<'a, T, U: Copy = ()> {
    regex: Box<RegEx<'a, T, U>>,
    nstate: usize,
}

impl<'a, T, U: Copy> View for RegExRoot<'a, T, U> {
    type V = Pattern<T, U>;

    /// The pattern that was compiled.
    closed spec fn view(&self) -> Pattern<T, U> {
        self.regex@
    }
}

impl<'a, T, U: Copy> RegExRoot<'a, T, U> {
    #[verifier::type_invariant]
    spec fn compiled(&self) -> bool {
        &&& self.regex.numbered_from(0)
        &&& self.nstate == self.regex@.slots()
    }

    /// The numbered tree.
    pub closed spec fn regex(&self) -> RegEx<'a, T, U> {
        *self.regex
    }

    /// The number of memo cells.
    pub closed spec fn nstate(&self) -> usize {
        self.nstate
    }

    /// Compiles `e`. The pattern stays the same; its memo cells are numbered from
    /// zero, depth first and from left to right, and counted.
    pub fn new(e: Box<RegEx<'a, T, U>>) -> (root: RegExRoot<'a, T, U>)
        requires
            e@.slots() <= usize::MAX,
        ensures
            root@ == e@,
            root.regex()@ == e@,
            root.regex().numbered_from(0),
            root.nstate() == e@.slots(),
    {
        let mut e = e;
        let n: usize = Self::renumber(&mut *e, 0);
        RegExRoot { regex: e, nstate: n }
    }

    /// The numbered tree.
    pub fn program(&self) -> (e: &RegEx<'a, T, U>)
        ensures
            *e == self.regex(),
            e@ == self@,
            e.numbered_from(0),
    {
        proof {
            use_type_invariant(self);
        }
        &*self.regex
    }

    /// The number of memo cells.
    pub fn slot_count(&self) -> (n: usize)
        ensures
            n == self.nstate(),
            n == self@.slots(),
    {
        proof {
            use_type_invariant(self);
        }
        self.nstate
    }

    /// Numbers the memo cells of `e` from `i` on and returns the first number
    /// that is left.
    fn renumber(e: &mut RegEx<'a, T, U>, i: usize) -> (next: usize)
        requires
            i + old(e)@.slots() <= usize::MAX,
        ensures
            final(e)@ == old(e)@,
            final(e).numbered_from(i as nat),
            next == i + old(e)@.slots(),
        decreases *old(e),
    {
        match e {
            RegEx::Eps => i,
            RegEx::Atom(_) => i,
            RegEx::Alt(e0, e1) => {
                let mid: usize = Self::renumber(&mut **e0, i);
                Self::renumber(&mut **e1, mid)
            },
            RegEx::Concat(e0, e1, s) => {
                *s = Self::renumber(&mut **e0, i);
                Self::renumber(&mut **e1, *s + 1)
            },
            RegEx::Repeat(e0, s) => {
                *s = i;
                Self::renumber(&mut **e0, i + 1)
            },
            RegEx::Weight(_) => i,
            RegEx::Mark(_) => i,
        }
    }
}

} // verus!
