//! The matcher: a compiled pattern, its memo cells, and the two passes that
//! advance them by one token.

use vstd::prelude::*;
use crate::pattern::Pattern;
use crate::program::RegExRoot;
use crate::regex::{Predicate, RegEx};
use crate::language::lemma_match_in_language;
use crate::laws::{
    lemma_cost_limit_grows, lemma_cost_limit_step, lemma_dead_step, lemma_propagate_within,
    lemma_run_fits, lemma_shift_within, lemma_start_fits, lemma_start_tidy, lemma_step_tidy,
};
use crate::semantics::{all_within, choice, ordered, within, Config, Pass, Thread};
use crate::state::{all_wf, cells, trail, Path, State};
use std::rc::Rc;

verus! {

/// A matcher for one compiled pattern.
#[verifier::reject_recursive_types(T)]
pub struct Matcher<'a, T, U: Copy = ()> {
    root: &'a RegExRoot<'a, T, U>,
    index: usize,
    s0: State<U>,
    states: Vec<State<U>>,
    s1: State<U>,
    fed: Ghost<Seq<T>>,
}

impl<'a, T, U: Copy> View for Matcher<'a, T, U> {
    type V = Config<U>;

    /// The state of the matcher: the tokens counted, the waiting thread, the
    /// memo cells and the accepted thread.
    closed spec fn view(&self) -> Config<U> {
        Config {
            index: self.index as nat,
            entry: self.s0@,
            slots: cells(self.states@),
            accepted: self.s1@,
        }
    }
}

impl<'a, T, U: Copy> Clone for Matcher<'a, T, U> {
    /// A second matcher for the same pattern, in the same state. The two share
    /// the checkpoints passed so far and advance independently.
    fn clone(&self) -> (m: Self)
        ensures
            m@ == self@,
            m.pattern() == self.pattern(),
            m.consumed() == self.consumed(),
            self.wf() ==> m.wf(),
    {
        let mut states: Vec<State<U>> = Vec::new();
        let mut i: usize = 0;
        while i < self.states.len()
            invariant
                i <= self.states.len(),
                states@ == self.states@.take(i as int),
            decreases self.states.len() - i,
        {
            states.push(self.states[i].clone());
            proof {
                assert(states@ =~= self.states@.take(i + 1));
            }
            i += 1;
        }
        proof {
            assert(states@ =~= self.states@);
        }
        Matcher {
            root: self.root,
            index: self.index,
            s0: self.s0.clone(),
            states,
            s1: self.s1.clone(),
            fed: Ghost(self.fed@),
        }
    }
}

impl<'a, T, U: Copy> Matcher<'a, T, U> {
    /// Whether the matcher is in a state that its own operations produce: one
    /// memo cell for each cell of the pattern, no checkpoints on a dead thread,
    /// every cost within the limit for the tokens counted, the checkpoints of
    /// every thread in the order of their positions, and the state that the
    /// tokens consumed lead to from the start.
    pub closed spec fn wf(&self) -> bool {
        &&& self@ == self.root@.run(self.root@.start(), self.fed@)
        &&& self@.is_tidy()
        &&& self.states.len() == self.root@.slots()
        &&& all_wf(self.states@)
        &&& self.s0.wf()
        &&& self.s1.wf()
        &&& all_within(cells(self.states@), self.root@.cost_limit(self.index as nat))
        &&& within(self.s0@, self.root@.cost_limit(self.index as nat))
        &&& within(self.s1@, self.root@.cost_limit(self.index as nat))
    }

    /// The pattern that the matcher runs.
    pub closed spec fn pattern(&self) -> Pattern<T, U> {
        self.root@
    }

    /// The tokens consumed so far, in their order.
    pub closed spec fn consumed(&self) -> Seq<T> {
        self.fed@
    }

    /// Whether `n` more tokens can be fed: the matcher is well formed, the count
    /// of tokens stays a `usize`, and no cost can leave the range of `isize` or
    /// reach `isize::MAX`, which stands for a dead thread.
    pub open spec fn has_room(&self, n: nat) -> bool {
        &&& self.wf()
        &&& self@.index + n <= usize::MAX
        &&& self.pattern().cost_limit(self@.index + n) < isize::MAX
    }

    /// A well-formed matcher is in the state that the tokens it has consumed
    /// lead to from the start. It has one memo cell for each cell of its
    /// pattern, it has counted the tokens it has consumed, and the checkpoints
    /// of each of its threads stand in the order of their positions, none
    /// beyond that count.
    pub proof fn lemma_wf_fits(&self)
        requires
            self.wf(),
        ensures
            self@ == self.pattern().run(self.pattern().start(), self.consumed()),
            self@.fits(self.pattern()),
            self@.index == self.consumed().len(),
            self@.is_tidy(),
    {
        lemma_start_fits(self.root@);
        lemma_run_fits(self.root@, self.root@.start(), self.fed@);
    }

    /// A match that a well-formed matcher reports is a match: the tokens it has
    /// consumed form a sequence of the language of its pattern.
    pub proof fn lemma_match_in_language(&self)
        requires
            self.wf(),
            self@.is_match(),
        ensures
            self.pattern().spans(self.consumed(), 0, self.consumed().len()),
    {
        lemma_match_in_language(self.root@, self.fed@);
    }

    /// A matcher for `root` that has consumed nothing.
    pub fn new(root: &'a RegExRoot<'a, T, U>) -> (m: Matcher<'a, T, U>)
        requires
            root@.weight_sum() < isize::MAX,
        ensures
            m.wf(),
            m.pattern() == root@,
            m.consumed() == Seq::<T>::empty(),
            m@ == root@.start(),
    {
        let n: usize = root.slot_count();
        let mut states: Vec<State<U>> = Vec::new();
        while states.len() < n
            invariant
                states.len() <= n,
                forall|i: int| 0 <= i < states.len() ==> (#[trigger] states[i])@ is None,
                all_wf(states@),
            decreases n - states.len(),
        {
            states.push(State::dead());
        }
        let ghost blank = Seq::new(root@.slots(), |i: int| None::<Thread<U>>);
        proof {
            assert(cells(states@) =~= blank);
            lemma_propagate_within(root@, 0, blank, 0, Some(crate::semantics::origin::<U>()), 0);
            lemma_cost_limit_step(root@, 0);
            lemma_start_tidy(root@);
        }
        let s1 = Self::propagate(&mut states, 0, root.program(), State::origin(), Ghost(0), Ghost(0));
        Matcher { root, index: 0, s0: State::origin(), states, s1, fed: Ghost(Seq::empty()) }
    }

    /// Consumes the token `v`.
    pub fn feed(&mut self, v: &T)
        requires
            old(self).has_room(1),
        ensures
            final(self).wf(),
            final(self).pattern() == old(self).pattern(),
            final(self).consumed() == old(self).consumed().push(*v),
            final(self)@ == old(self).pattern().step(old(self)@, *v),
            !old(self)@.is_alive() ==> !final(self)@.is_alive(),
    {
        proof {
            assert(self.fed@.push(*v).drop_last() =~= self.fed@);
            if !self@.is_alive() {
                lemma_dead_step(self.root@, self@, *v);
            }
            lemma_step_tidy(self.root@, self@, *v);
        }
        let root = self.root;
        let e = root.program();
        let ghost before = root@.cost_limit(self.index as nat);
        proof {
            lemma_cost_limit_step(root@, self.index as nat);
            lemma_shift_within(e@, 0, cells(self.states@), self.index as nat, *v, self.s0@, before);
        }
        let mut s0 = State::dead();
        std::mem::swap(&mut self.s0, &mut s0);
        let s1 = Self::shift(&mut self.states, self.index, e, v, s0, Ghost(0));
        proof {
            lemma_propagate_within(e@, 0, cells(self.states@), (self.index + 1) as nat, None, before);
        }
        self.index += 1;
        let s2 = Self::propagate(&mut self.states, self.index, e, State::dead(), Ghost(0), Ghost(before));
        self.s1 = Self::choice(s1, s2);
        self.fed = Ghost(self.fed@.push(*v));
    }

    /// Consumes `tokens` one after the other, as `feed` would.
    pub fn feed_iter(&mut self, tokens: &[T])
        requires
            old(self).has_room(tokens@.len()),
        ensures
            final(self).wf(),
            final(self).pattern() == old(self).pattern(),
            final(self).consumed() == old(self).consumed() + tokens@,
            final(self)@ == old(self).pattern().run(old(self)@, tokens@),
    {
        let ghost p = self.pattern();
        let ghost first = self@;
        let ghost earlier = self.consumed();
        let mut i: usize = 0;
        while i < tokens.len()
            invariant
                i <= tokens@.len(),
                self.wf(),
                self.pattern() == p,
                self@ == p.run(first, tokens@.take(i as int)),
                self.consumed() == earlier + tokens@.take(i as int),
                self@.index == first.index + i,
                first.index + tokens@.len() <= usize::MAX,
                p.cost_limit(first.index + tokens@.len()) < isize::MAX,
            decreases tokens@.len() - i,
        {
            proof {
                lemma_cost_limit_grows(p, self@.index + 1, first.index + tokens@.len());
                assert(tokens@.take(i + 1).drop_last() =~= tokens@.take(i as int));
                assert((earlier + tokens@.take(i as int)).push(tokens@[i as int]) =~= earlier
                    + tokens@.take(i + 1));
            }
            self.feed(&tokens[i]);
            i += 1;
        }
        proof {
            assert(tokens@.take(i as int) =~= tokens@);
        }
    }

    /// Whether the tokens consumed so far match the pattern.
    pub fn is_match(&self) -> (r: bool)
        ensures
            r == self@.is_match(),
    {
        self.s1.is_live()
    }

    /// Whether any derivation is left. Once none is, no further token can
    /// bring a match.
    pub fn is_alive(&self) -> (r: bool)
        ensures
            r == self@.is_alive(),
    {
        if self.s0.is_live() || self.s1.is_live() {
            return true;
        }
        let mut i: usize = 0;
        while i < self.states.len()
            invariant
                i <= self.states.len(),
                forall|j: int| 0 <= j < i ==> (#[trigger] cells(self.states@)[j]) is None,
            decreases self.states.len() - i,
        {
            if self.states[i].is_live() {
                assert(cells(self.states@)[i as int] is Some);
                return true;
            }
            i += 1;
        }
        false
    }

    /// The checkpoints of the cheapest derivation that matches, oldest first,
    /// each with the number of tokens consumed before it; empty where nothing
    /// matches or no checkpoint was passed.
    pub fn path(&self) -> (r: Vec<(usize, U)>)
        requires
            self.wf(),
        ensures
            r@.map_values(|m: (usize, U)| (m.0 as nat, m.1)) == self@.path(),
            ordered(self@.path(), self@.index),
    {
        let mut newest_first: Vec<(usize, U)> = Vec::new();
        let mut it: &Option<Rc<Path<U>>> = &self.s1.1;
        loop
            invariant
                trail(self.s1.1) == trail(*it) + newest_first@.map_values(
                    |m: (usize, U)| (m.0 as nat, m.1),
                ).reverse(),
            ensures
                *it is None,
            decreases trail(*it).len(),
        {
            match it {
                Some(node) => {
                    let ghost earlier = newest_first@;
                    newest_first.push((node.0, node.1));
                    proof {
                        let f = |m: (usize, U)| (m.0 as nat, m.1);
                        assert(newest_first@.map_values(f).reverse() =~= seq![
                            (node.0 as nat, node.1),
                        ] + earlier.map_values(f).reverse());
                        assert(trail(*it) =~= trail(node.2) + seq![(node.0 as nat, node.1)]);
                    }
                    it = &node.2;
                },
                None => {
                    break;
                },
            }
        }
        let mut result: Vec<(usize, U)> = Vec::new();
        let mut i: usize = newest_first.len();
        while i > 0
            invariant
                i <= newest_first.len(),
                result@ == newest_first@.subrange(i as int, newest_first.len() as int).reverse(),
            decreases i,
        {
            i -= 1;
            result.push(newest_first[i]);
        }
        proof {
            let f = |m: (usize, U)| (m.0 as nat, m.1);
            assert(newest_first@.subrange(0, newest_first.len() as int) =~= newest_first@);
            assert(result@.map_values(f) =~= newest_first@.map_values(f).reverse());
            assert(trail(self.s1.1) =~= newest_first@.map_values(f).reverse());
        }
        result
    }
}

impl<'a, T, U: Copy> Matcher<'a, T, U> {
    /// The cheaper of two threads; the first one on equal cost.
    fn choice(s0: State<U>, s1: State<U>) -> (r: State<U>)
        requires
            s0.wf(),
            s1.wf(),
        ensures
            r.wf(),
            r@ == choice(s0@, s1@),
    {
        if s1.0 < s0.0 {
            s1
        } else {
            s0
        }
    }

    /// Replaces `*s0` by `s1` where `s1` is cheaper.
    fn choice_inplace(s0: &mut State<U>, s1: State<U>)
        requires
            old(s0).wf(),
            s1.wf(),
        ensures
            final(s0).wf(),
            final(s0)@ == choice(old(s0)@, s1@),
    {
        if s1.0 < s0.0 {
            *s0 = s1;
        }
    }

    /// The pass that consumes the token `v`.
    fn shift(
        states: &mut Vec<State<U>>,
        index: usize,
        e: &RegEx<'a, T, U>,
        v: &T,
        s0: State<U>,
        Ghost(base): Ghost<nat>,
    ) -> (r: State<U>)
        requires
            e.numbered_from(base),
            base + e@.slots() <= old(states).len(),
            all_wf(old(states)@),
            s0.wf(),
        ensures
            final(states).len() == old(states).len(),
            all_wf(final(states)@),
            r.wf(),
            e@.shift(base, cells(old(states)@), index as nat, *v, s0@) == (Pass {
                slots: cells(final(states)@),
                out: r@,
            }),
        decreases e,
    {
        match e {
            RegEx::Eps => State::dead(),
            RegEx::Atom(f) => {
                if s0.is_live() && f.test(index, v) {
                    s0
                } else {
                    State::dead()
                }
            },
            RegEx::Alt(e0, e1) => {
                let s1 = Self::shift(states, index, e0, v, s0.clone(), Ghost(base));
                let s2 = Self::shift(states, index, e1, v, s0, Ghost(base + e0@.slots()));
                Self::choice(s1, s2)
            },
            RegEx::Concat(e0, e1, s) => {
                let mut s2 = Self::shift(states, index, e0, v, s0, Ghost(base));
                let ghost before = states@;
                std::mem::swap(&mut states[*s], &mut s2);
                proof {
                    assert(cells(states@) =~= cells(before).update(*s as int, states@[*s as int]@));
                }
                Self::shift(states, index, e1, v, s2, Ghost(base + e0@.slots() + 1))
            },
            RegEx::Repeat(e0, s) => {
                let ghost before = states@;
                let mut s1 = State::dead();
                std::mem::swap(&mut states[*s], &mut s1);
                proof {
                    assert(cells(states@) =~= cells(before).update(*s as int, None));
                }
                let r = Self::shift(states, index, e0, v, s1, Ghost(base + 1));
                let ghost inner = states@;
                states[*s] = r;
                proof {
                    assert(cells(states@) =~= cells(inner).update(*s as int, r@));
                }
                State::dead()
            },
            RegEx::Weight(_) => State::dead(),
            RegEx::Mark(_) => State::dead(),
        }
    }

    /// The pass that follows the transitions which consume no token.
    ///
    /// `limit` bounds the costs that enter the pass; the weights of `e` must
    /// leave room above it.
    fn propagate(
        states: &mut Vec<State<U>>,
        index: usize,
        e: &RegEx<'a, T, U>,
        s0: State<U>,
        Ghost(base): Ghost<nat>,
        Ghost(limit): Ghost<int>,
    ) -> (r: State<U>)
        requires
            e.numbered_from(base),
            base + e@.slots() <= old(states).len(),
            all_wf(old(states)@),
            s0.wf(),
            all_within(cells(old(states)@), limit),
            within(s0@, limit),
            limit + e@.weight_sum() < isize::MAX,
        ensures
            final(states).len() == old(states).len(),
            all_wf(final(states)@),
            r.wf(),
            e@.propagate(base, cells(old(states)@), index as nat, s0@) == (Pass {
                slots: cells(final(states)@),
                out: r@,
            }),
        decreases e,
    {
        match e {
            RegEx::Eps => s0,
            RegEx::Atom(_) => State::dead(),
            RegEx::Alt(e0, e1) => {
                proof {
                    lemma_propagate_within(e0@, base, cells(states@), index as nat, s0@, limit);
                }
                let s1 = Self::propagate(states, index, e0, s0.clone(), Ghost(base), Ghost(limit));
                let s2 = Self::propagate(
                    states,
                    index,
                    e1,
                    s0,
                    Ghost(base + e0@.slots()),
                    Ghost(limit + e0@.weight_sum()),
                );
                Self::choice(s1, s2)
            },
            RegEx::Concat(e0, e1, s) => {
                proof {
                    lemma_propagate_within(e0@, base, cells(states@), index as nat, s0@, limit);
                }
                let s1 = Self::propagate(states, index, e0, s0, Ghost(base), Ghost(limit));
                let ghost before = states@;
                Self::choice_inplace(&mut states[*s], s1);
                let s2 = states[*s].clone();
                proof {
                    assert(cells(states@) =~= cells(before).update(*s as int, s2@));
                }
                Self::propagate(
                    states,
                    index,
                    e1,
                    s2,
                    Ghost(base + e0@.slots() + 1),
                    Ghost(limit + e0@.weight_sum()),
                )
            },
            RegEx::Repeat(e0, s) => {
                let ghost before = states@;
                Self::choice_inplace(&mut states[*s], s0);
                let s1 = states[*s].clone();
                proof {
                    assert(cells(states@) =~= cells(before).update(*s as int, s1@));
                }
                let s2 = Self::propagate(states, index, e0, s1, Ghost(base + 1), Ghost(limit));
                let ghost inner = states@;
                Self::choice_inplace(&mut states[*s], s2);
                let r = states[*s].clone();
                proof {
                    assert(cells(states@) =~= cells(inner).update(*s as int, r@));
                }
                r
            },
            RegEx::Weight(w) => {
                if s0.is_live() {
                    State(s0.0 + *w, s0.1)
                } else {
                    s0
                }
            },
            RegEx::Mark(m) => {
                if s0.is_live() {
                    State(s0.0, Some(Rc::new(Path(index, *m, s0.1))))
                } else {
                    s0
                }
            },
        }
    }
}

} // verus!
