//! The mathematical form of a pattern: a tree without any memo-cell numbers.

use vstd::prelude::*;

verus! {

/// A pattern over tokens of type `T` whose checkpoints carry labels of type `U`.
///
/// An atom is a predicate on the position of a token and the token itself.
#[verifier::reject_recursive_types(T)]
pub enum Pattern<T, U> {
    /// Matches the empty sequence.
    Eps,
    /// Matches one token that satisfies the predicate.
    Atom(spec_fn(nat, T) -> bool),
    /// Matches what either side matches.
    Alt(Box<Pattern<T, U>>, Box<Pattern<T, U>>),
    /// Matches the left side followed by the right side.
    Concat(Box<Pattern<T, U>>, Box<Pattern<T, U>>),
    /// Matches zero or more repetitions of the body.
    Repeat(Box<Pattern<T, U>>),
    /// Consumes nothing and adds a signed amount to the cost of a derivation.
    Weight(int),
    /// Consumes nothing and records the current position under a label.
    Mark(U),
}

impl<T, U> Pattern<T, U> {
    /// The number of memo cells the pattern needs: one for each concatenation
    /// and one for each repetition.
    pub open spec fn slots(self) -> nat
        decreases self,
    {
        match self {
            Pattern::Eps => 0,
            Pattern::Atom(_) => 0,
            Pattern::Alt(a, b) => a.slots() + b.slots(),
            Pattern::Concat(a, b) => a.slots() + 1 + b.slots(),
            Pattern::Repeat(a) => 1 + a.slots(),
            Pattern::Weight(_) => 0,
            Pattern::Mark(_) => 0,
        }
    }

    /// The sum of the magnitudes of all weights in the pattern. One pass over the
    /// pattern moves the cost of a derivation by at most this much.
    pub open spec fn weight_sum(self) -> nat
        decreases self,
    {
        match self {
            Pattern::Eps => 0,
            Pattern::Atom(_) => 0,
            Pattern::Alt(a, b) => a.weight_sum() + b.weight_sum(),
            Pattern::Concat(a, b) => a.weight_sum() + b.weight_sum(),
            Pattern::Repeat(a) => a.weight_sum(),
            Pattern::Weight(w) => if w < 0 { (-w) as nat } else { w as nat },
            Pattern::Mark(_) => 0,
        }
    }

    /// The largest distance from zero that the cost of a derivation can have
    /// after `index` tokens: the start and every token since have each run one
    /// propagate pass.
    pub open spec fn cost_limit(self, index: nat) -> int {
        ((index + 1) * self.weight_sum()) as int
    }

    /// Zero or one occurrence of `a`: the empty alternative comes first.
    pub open spec fn opt(a: Pattern<T, U>) -> Pattern<T, U> {
        Pattern::Alt(Box::new(Pattern::Eps), Box::new(a))
    }

    /// Zero or more occurrences of `a`.
    pub open spec fn rep(a: Pattern<T, U>) -> Pattern<T, U> {
        Pattern::Repeat(Box::new(a))
    }
}

} // verus!
