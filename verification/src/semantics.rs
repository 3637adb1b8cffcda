//! What the matcher computes, stated over mathematical values.
//!
//! A derivation that is still possible is a [`Thread`]; a derivation that is not
//! is `None`. A pattern is simulated by two passes over its tree. The shift pass
//! consumes one token; the propagate pass follows the transitions that consume
//! nothing. Both read and write the memo cells of the pattern: the cell of a
//! concatenation holds the thread waiting between its two sides, the cell of a
//! repetition holds the thread waiting at the head of the loop.
//!
//! The cells of a pattern are numbered by its shape alone. A pattern placed at
//! cell `base` owns the cells `base .. base + slots()`: an alternative gives the
//! first of them to its left side; a concatenation gives the first of them to its
//! left side, takes the next one for itself and gives the rest to its right side;
//! a repetition takes the first one for itself and gives the rest to its body.

use vstd::prelude::*;
use crate::pattern::Pattern;

verus! {

/// A live derivation: its accumulated cost and the checkpoints it went through,
/// oldest first, each with the number of tokens consumed before it.
pub struct Thread<U> {
    pub cost: int,
    pub marks: Seq<(nat, U)>,
}

/// The result of one pass over a pattern: the memo cells after the pass and the
/// thread that leaves the pattern.
pub struct Pass<U> {
    pub slots: Seq<Option<Thread<U>>>,
    pub out: Option<Thread<U>>,
}

/// The state of a matcher between two tokens.
pub struct Config<U> {
    /// The number of tokens consumed.
    pub index: nat,
    /// The thread that enters the pattern with the next token.
    pub entry: Option<Thread<U>>,
    /// The memo cells.
    pub slots: Seq<Option<Thread<U>>>,
    /// The thread that has reached the end of the pattern.
    pub accepted: Option<Thread<U>>,
}

/// The thread with which every match begins.
pub open spec fn origin<U>() -> Thread<U> {
    Thread { cost: 0, marks: Seq::empty() }
}

/// The cheaper of two threads. A dead thread always loses, and on equal cost
/// the first one is kept.
pub open spec fn choice<U>(first: Option<Thread<U>>, second: Option<Thread<U>>) -> Option<
    Thread<U>,
> {
    if second is Some && (first is None || second->0.cost < first->0.cost) {
        second
    } else {
        first
    }
}

/// A thread after a weight: the cost moves, a dead thread stays dead.
pub open spec fn weigh<U>(s: Option<Thread<U>>, w: int) -> Option<Thread<U>> {
    match s {
        Some(t) => Some(Thread { cost: t.cost + w, marks: t.marks }),
        None => None,
    }
}

/// A thread after a checkpoint: the position and the label are appended, a dead
/// thread stays dead and records nothing.
pub open spec fn stamp<U>(s: Option<Thread<U>>, index: nat, label: U) -> Option<Thread<U>> {
    match s {
        Some(t) => Some(Thread { cost: t.cost, marks: t.marks.push((index, label)) }),
        None => None,
    }
}

/// Whether the cost of `s`, where `s` is alive, lies within `limit` of zero.
pub open spec fn within<U>(s: Option<Thread<U>>, limit: int) -> bool {
    s matches Some(t) ==> -limit <= t.cost <= limit
}

/// Whether every live cell of the row has its cost within `limit` of zero.
pub open spec fn all_within<U>(slots: Seq<Option<Thread<U>>>, limit: int) -> bool {
    forall|i: int| 0 <= i < slots.len() ==> within(#[trigger] slots[i], limit)
}

/// Whether the checkpoints stand in the order of their positions and none of
/// them lies beyond `index`.
pub open spec fn ordered<U>(marks: Seq<(nat, U)>, index: nat) -> bool {
    &&& forall|i: int, j: int|
        0 <= i <= j < marks.len() ==> (#[trigger] marks[i]).0 <= (#[trigger] marks[j]).0
    &&& forall|i: int| 0 <= i < marks.len() ==> (#[trigger] marks[i]).0 <= index
}

/// Whether the checkpoints of `s`, where `s` is alive, are ordered up to `index`.
pub open spec fn tidy<U>(s: Option<Thread<U>>, index: nat) -> bool {
    s matches Some(t) ==> ordered(t.marks, index)
}

/// Whether every live cell of the row has its checkpoints ordered up to `index`.
pub open spec fn all_tidy<U>(slots: Seq<Option<Thread<U>>>, index: nat) -> bool {
    forall|i: int| 0 <= i < slots.len() ==> tidy(#[trigger] slots[i], index)
}

impl<T, U> Pattern<T, U> {
    /// The pass that consumes `token`, the token at position `index`, for the
    /// pattern placed at cell `base`, entered by thread `s`.
    pub open spec fn shift(
        self,
        base: nat,
        slots: Seq<Option<Thread<U>>>,
        index: nat,
        token: T,
        s: Option<Thread<U>>,
    ) -> Pass<U>
        decreases self,
    {
        match self {
            Pattern::Eps => Pass { slots, out: None },
            Pattern::Atom(f) => Pass { slots, out: if s is Some && f(index, token) { s } else { None } },
            Pattern::Alt(a, b) => {
                let left = a.shift(base, slots, index, token, s);
                let right = b.shift(base + a.slots(), left.slots, index, token, s);
                Pass { slots: right.slots, out: choice(left.out, right.out) }
            },
            Pattern::Concat(a, b) => {
                let left = a.shift(base, slots, index, token, s);
                let k = base + a.slots();
                b.shift(k + 1, left.slots.update(k as int, left.out), index, token, left.slots[k as int])
            },
            Pattern::Repeat(a) => {
                let body = a.shift(base + 1, slots.update(base as int, None), index, token, slots[base as int]);
                Pass { slots: body.slots.update(base as int, body.out), out: None }
            },
            Pattern::Weight(_) => Pass { slots, out: None },
            Pattern::Mark(_) => Pass { slots, out: None },
        }
    }

    /// The pass that follows the transitions which consume no token, after `index`
    /// tokens, for the pattern placed at cell `base`, entered by thread `s`.
    pub open spec fn propagate(
        self,
        base: nat,
        slots: Seq<Option<Thread<U>>>,
        index: nat,
        s: Option<Thread<U>>,
    ) -> Pass<U>
        decreases self,
    {
        match self {
            Pattern::Eps => Pass { slots, out: s },
            Pattern::Atom(_) => Pass { slots, out: None },
            Pattern::Alt(a, b) => {
                let left = a.propagate(base, slots, index, s);
                let right = b.propagate(base + a.slots(), left.slots, index, s);
                Pass { slots: right.slots, out: choice(left.out, right.out) }
            },
            Pattern::Concat(a, b) => {
                let left = a.propagate(base, slots, index, s);
                let k = base + a.slots();
                let joined = choice(left.slots[k as int], left.out);
                b.propagate(k + 1, left.slots.update(k as int, joined), index, joined)
            },
            Pattern::Repeat(a) => {
                let entered = choice(slots[base as int], s);
                let body = a.propagate(base + 1, slots.update(base as int, entered), index, entered);
                let looped = choice(body.slots[base as int], body.out);
                Pass { slots: body.slots.update(base as int, looped), out: looped }
            },
            Pattern::Weight(w) => Pass { slots, out: weigh(s, w) },
            Pattern::Mark(label) => Pass { slots, out: stamp(s, index, label) },
        }
    }

    /// The state of a matcher before any token: all cells dead, then one
    /// propagate pass from the origin.
    pub open spec fn start(self) -> Config<U> {
        let blank = Seq::new(self.slots(), |i: int| None::<Thread<U>>);
        let pass = self.propagate(0, blank, 0, Some(origin()));
        Config { index: 0, entry: Some(origin()), slots: pass.slots, accepted: pass.out }
    }

    /// The state after one more token: a shift pass entered by the waiting
    /// thread, then a propagate pass entered by nothing; the accepted thread is
    /// the cheaper of the two results, and nothing waits at the entry any more.
    pub open spec fn step(self, c: Config<U>, token: T) -> Config<U> {
        let shifted = self.shift(0, c.slots, c.index, token, c.entry);
        let closed = self.propagate(0, shifted.slots, c.index + 1, None);
        Config {
            index: c.index + 1,
            entry: None,
            slots: closed.slots,
            accepted: choice(shifted.out, closed.out),
        }
    }

    /// The state after a sequence of tokens, taken one after the other.
    pub open spec fn run(self, c: Config<U>, tokens: Seq<T>) -> Config<U>
        decreases tokens.len(),
    {
        if tokens.len() == 0 {
            c
        } else {
            self.step(self.run(c, tokens.drop_last()), tokens.last())
        }
    }

    /// Whether a fresh matcher for this pattern reports a match after `tokens`.
    pub open spec fn matches(self, tokens: Seq<T>) -> bool {
        self.run(self.start(), tokens).is_match()
    }
}

impl<U> Config<U> {
    /// Whether the tokens consumed so far match.
    pub open spec fn is_match(self) -> bool {
        self.accepted is Some
    }

    /// Whether any derivation is left: at the entry, at the end, or in a cell.
    pub open spec fn is_alive(self) -> bool {
        ||| self.entry is Some
        ||| self.accepted is Some
        ||| exists|i: int| 0 <= i < self.slots.len() && (#[trigger] self.slots[i]) is Some
    }

    /// The checkpoints of the accepted thread, oldest first; empty without a match.
    pub open spec fn path(self) -> Seq<(nat, U)> {
        match self.accepted {
            Some(t) => t.marks,
            None => Seq::empty(),
        }
    }

    /// Whether every thread of the state has its checkpoints in the order of
    /// their positions, none beyond the number of tokens consumed.
    pub open spec fn is_tidy(self) -> bool {
        &&& tidy(self.entry, self.index)
        &&& tidy(self.accepted, self.index)
        &&& all_tidy(self.slots, self.index)
    }

    /// Whether the state has one cell for each cell of `p`.
    pub open spec fn fits<T>(self, p: Pattern<T, U>) -> bool {
        self.slots.len() == p.slots()
    }
}

} // verus!
