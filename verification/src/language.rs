//! The language of a pattern, and the proof that the matcher reports no match
//! outside it.
//!
//! The matcher follows each loop once per token, so it may miss a sequence of
//! the language; what it reports as a match is always in the language.

use vstd::prelude::*;
use crate::laws::{
    all_dead, lemma_propagate_frame, lemma_run_fits, lemma_shift_frame, lemma_start_fits,
};
use crate::pattern::Pattern;
use crate::semantics::{choice, origin, Config, Thread};

verus! {

/// A position between two tokens. Always true: it marks the positions that
/// the statements below speak of.
pub open spec fn cut(k: nat) -> bool {
    true
}

impl<T, U> Pattern<T, U> {
    /// Whether the tokens of `w` from position `from` up to, not including,
    /// position `to` form a sequence of the language of the pattern. Weights
    /// and checkpoints stand for the empty sequence.
    pub open spec fn spans(self, w: Seq<T>, from: nat, to: nat) -> bool
        decreases self, to - from,
    {
        match self {
            Pattern::Eps => from == to,
            Pattern::Atom(f) => to == from + 1 && to <= w.len() && f(from, w[from as int]),
            Pattern::Alt(a, b) => a.spans(w, from, to) || b.spans(w, from, to),
            Pattern::Concat(a, b) => exists|k: nat|
                #[trigger] cut(k) && from <= k <= to && a.spans(w, from, k) && b.spans(w, k, to),
            Pattern::Repeat(a) => from == to || exists|k: nat|
                #[trigger] cut(k) && from < k <= to && a.spans(w, from, k) && self.spans(w, k, to),
            Pattern::Weight(_) => from == to,
            Pattern::Mark(_) => from == to,
        }
    }
}

/// Whether the pattern `q`, entered at one of the positions `entries`, can have
/// been left at position `m`.
pub open spec fn reaches<T, U>(
    q: Pattern<T, U>,
    w: Seq<T>,
    entries: spec_fn(nat) -> bool,
    m: nat,
) -> bool {
    exists|i: nat| #[trigger] cut(i) && entries(i) && i <= m && q.spans(w, i, m)
}

/// The positions at which `q`, entered at one of the positions `entries`, can
/// have been left.
pub open spec fn exits<T, U>(q: Pattern<T, U>, w: Seq<T>, entries: spec_fn(nat) -> bool) -> spec_fn(
    nat,
) -> bool {
    |m: nat| reaches(q, w, entries, m)
}

/// Whether every live cell of `q`, placed at cell `base`, holds a thread that
/// the tokens before position `n` account for, given the positions at which
/// `q` may have been entered.
pub open spec fn justified<T, U>(
    q: Pattern<T, U>,
    w: Seq<T>,
    base: nat,
    slots: Seq<Option<Thread<U>>>,
    n: nat,
    entries: spec_fn(nat) -> bool,
) -> bool
    decreases q,
{
    match q {
        Pattern::Alt(a, b) => {
            &&& justified(*a, w, base, slots, n, entries)
            &&& justified(*b, w, base + a.slots(), slots, n, entries)
        },
        Pattern::Concat(a, b) => {
            let k = base + a.slots();
            &&& justified(*a, w, base, slots, n, entries)
            &&& (slots[k as int] is Some ==> reaches(*a, w, entries, n))
            &&& justified(*b, w, k + 1, slots, n, exits(*a, w, entries))
        },
        Pattern::Repeat(a) => {
            &&& (slots[base as int] is Some ==> reaches(q, w, entries, n))
            &&& justified(*a, w, base + 1, slots, n, exits(q, w, entries))
        },
        _ => true,
    }
}

/// Whether a cell is justified depends on the cells of the pattern alone.
pub proof fn lemma_justified_frame<T, U>(
    q: Pattern<T, U>,
    w: Seq<T>,
    base: nat,
    before: Seq<Option<Thread<U>>>,
    after: Seq<Option<Thread<U>>>,
    n: nat,
    entries: spec_fn(nat) -> bool,
)
    requires
        base + q.slots() <= before.len(),
        before.len() == after.len(),
        forall|i: int| base <= i < base + q.slots() ==> before[i] == after[i],
        justified(q, w, base, before, n, entries),
    ensures
        justified(q, w, base, after, n, entries),
    decreases q,
{
    match q {
        Pattern::Alt(a, b) => {
            lemma_justified_frame(*a, w, base, before, after, n, entries);
            lemma_justified_frame(*b, w, base + a.slots(), before, after, n, entries);
        },
        Pattern::Concat(a, b) => {
            let k = base + a.slots();
            lemma_justified_frame(*a, w, base, before, after, n, entries);
            lemma_justified_frame(*b, w, k + 1, before, after, n, exits(*a, w, entries));
        },
        Pattern::Repeat(a) => {
            lemma_justified_frame(*a, w, base + 1, before, after, n, exits(q, w, entries));
        },
        _ => {},
    }
}

/// Dead cells are justified.
pub proof fn lemma_justified_dead<T, U>(
    q: Pattern<T, U>,
    w: Seq<T>,
    base: nat,
    slots: Seq<Option<Thread<U>>>,
    n: nat,
    entries: spec_fn(nat) -> bool,
)
    requires
        base + q.slots() <= slots.len(),
        all_dead(slots),
    ensures
        justified(q, w, base, slots, n, entries),
    decreases q,
{
    match q {
        Pattern::Alt(a, b) => {
            lemma_justified_dead(*a, w, base, slots, n, entries);
            lemma_justified_dead(*b, w, base + a.slots(), slots, n, entries);
        },
        Pattern::Concat(a, b) => {
            lemma_justified_dead(*a, w, base, slots, n, entries);
            lemma_justified_dead(*b, w, base + a.slots() + 1, slots, n, exits(*a, w, entries));
        },
        Pattern::Repeat(a) => {
            lemma_justified_dead(*a, w, base + 1, slots, n, exits(q, w, entries));
        },
        _ => {},
    }
}

/// A repetition followed by one more round of its body is a repetition.
pub proof fn lemma_repeat_append<T, U>(a: Pattern<T, U>, w: Seq<T>, from: nat, mid: nat, to: nat)
    requires
        from <= mid <= to,
        Pattern::rep(a).spans(w, from, mid),
        a.spans(w, mid, to),
    ensures
        Pattern::rep(a).spans(w, from, to),
    decreases mid - from,
{
    let r = Pattern::rep(a);
    if mid == to {
    } else if from == mid {
        assert(cut(to) && a.spans(w, from, to) && r.spans(w, to, to));
    } else {
        let k = choose|k: nat|
            #[trigger] cut(k) && from < k <= mid && a.spans(w, from, k) && r.spans(w, k, mid);
        lemma_repeat_append(a, w, k, mid, to);
        assert(cut(k) && a.spans(w, from, k) && r.spans(w, k, to));
    }
}

/// What can leave the right side of a concatenation, entered where its left
/// side can be left, can leave the concatenation.
pub proof fn lemma_reaches_concat<T, U>(
    a: Pattern<T, U>,
    b: Pattern<T, U>,
    w: Seq<T>,
    entries: spec_fn(nat) -> bool,
    n: nat,
)
    requires
        reaches(b, w, exits(a, w, entries), n),
    ensures
        reaches(Pattern::Concat(Box::new(a), Box::new(b)), w, entries, n),
{
    let q = Pattern::Concat(Box::new(a), Box::new(b));
    let m = choose|m: nat| #[trigger] cut(m) && exits(a, w, entries)(m) && m <= n && b.spans(w, m, n);
    assert(reaches(a, w, entries, m));
    let i = choose|i: nat| #[trigger] cut(i) && entries(i) && i <= m && a.spans(w, i, m);
    assert(cut(m) && i <= m <= n && a.spans(w, i, m) && b.spans(w, m, n));
    assert(q.spans(w, i, n));
    assert(cut(i) && entries(i) && i <= n && q.spans(w, i, n));
}

/// What can leave the body of a repetition, entered where the repetition can
/// be left, can leave the repetition.
pub proof fn lemma_reaches_repeat<T, U>(
    a: Pattern<T, U>,
    w: Seq<T>,
    entries: spec_fn(nat) -> bool,
    n: nat,
)
    requires
        reaches(a, w, exits(Pattern::rep(a), w, entries), n),
    ensures
        reaches(Pattern::rep(a), w, entries, n),
{
    let q = Pattern::rep(a);
    let m = choose|m: nat| #[trigger] cut(m) && exits(q, w, entries)(m) && m <= n && a.spans(w, m, n);
    assert(reaches(q, w, entries, m));
    let i = choose|i: nat| #[trigger] cut(i) && entries(i) && i <= m && q.spans(w, i, m);
    lemma_repeat_append(a, w, i, m, n);
    assert(cut(i) && entries(i) && i <= n && q.spans(w, i, n));
}

/// A shift pass keeps the cells justified: after the token at position `n`,
/// every live cell and the thread that leaves the pattern are accounted for
/// by the tokens before position `n + 1`.
pub proof fn lemma_shift_sound<T, U>(
    q: Pattern<T, U>,
    w: Seq<T>,
    base: nat,
    slots: Seq<Option<Thread<U>>>,
    n: nat,
    s: Option<Thread<U>>,
    entries: spec_fn(nat) -> bool,
)
    requires
        base + q.slots() <= slots.len(),
        n < w.len(),
        justified(q, w, base, slots, n, entries),
        s is Some ==> entries(n),
    ensures
        justified(q, w, base, q.shift(base, slots, n, w[n as int], s).slots, n + 1, entries),
        q.shift(base, slots, n, w[n as int], s).out is Some ==> reaches(q, w, entries, n + 1),
    decreases q,
{
    let token = w[n as int];
    let result = q.shift(base, slots, n, token, s);
    match q {
        Pattern::Atom(f) => {
            if result.out is Some {
                assert(cut(n) && entries(n) && q.spans(w, n, n + 1));
            }
        },
        Pattern::Alt(a, b) => {
            let left = a.shift(base, slots, n, token, s);
            let right = b.shift(base + a.slots(), left.slots, n, token, s);
            lemma_shift_frame(*a, base, slots, n, token, s);
            lemma_shift_frame(*b, base + a.slots(), left.slots, n, token, s);
            lemma_shift_sound(*a, w, base, slots, n, s, entries);
            lemma_justified_frame(*b, w, base + a.slots(), slots, left.slots, n, entries);
            lemma_shift_sound(*b, w, base + a.slots(), left.slots, n, s, entries);
            lemma_justified_frame(*a, w, base, left.slots, right.slots, n + 1, entries);
            if result.out is Some {
                if result.out == left.out {
                    let i = choose|i: nat|
                        #[trigger] cut(i) && entries(i) && i <= n + 1 && a.spans(w, i, n + 1);
                    assert(cut(i) && entries(i) && i <= n + 1 && q.spans(w, i, n + 1));
                } else {
                    let i = choose|i: nat|
                        #[trigger] cut(i) && entries(i) && i <= n + 1 && b.spans(w, i, n + 1);
                    assert(cut(i) && entries(i) && i <= n + 1 && q.spans(w, i, n + 1));
                }
            }
        },
        Pattern::Concat(a, b) => {
            let k = base + a.slots();
            let between = exits(*a, w, entries);
            let left = a.shift(base, slots, n, token, s);
            let stored = left.slots.update(k as int, left.out);
            lemma_shift_frame(*a, base, slots, n, token, s);
            lemma_shift_frame(*b, k + 1, stored, n, token, left.slots[k as int]);
            lemma_shift_sound(*a, w, base, slots, n, s, entries);
            assert(left.slots[k as int] == slots[k as int]);
            assert(left.slots[k as int] is Some ==> between(n));
            lemma_justified_frame(*b, w, k + 1, slots, stored, n, between);
            lemma_shift_sound(*b, w, k + 1, stored, n, left.slots[k as int], between);
            lemma_justified_frame(*a, w, base, left.slots, result.slots, n + 1, entries);
            assert(result.slots[k as int] == left.out);
            if result.out is Some {
                lemma_reaches_concat(*a, *b, w, entries, n + 1);
            }
        },
        Pattern::Repeat(a) => {
            let around = exits(q, w, entries);
            let cleared = slots.update(base as int, None);
            let body = a.shift(base + 1, cleared, n, token, slots[base as int]);
            lemma_shift_frame(*a, base + 1, cleared, n, token, slots[base as int]);
            assert(slots[base as int] is Some ==> around(n));
            lemma_justified_frame(*a, w, base + 1, slots, cleared, n, around);
            lemma_shift_sound(*a, w, base + 1, cleared, n, slots[base as int], around);
            lemma_justified_frame(*a, w, base + 1, body.slots, result.slots, n + 1, around);
            if body.out is Some {
                lemma_reaches_repeat(*a, w, entries, n + 1);
            }
        },
        _ => {},
    }
}

/// A propagate pass keeps the cells justified: after it, every live cell and
/// the thread that leaves the pattern are accounted for by the tokens before
/// position `n`.
pub proof fn lemma_propagate_sound<T, U>(
    q: Pattern<T, U>,
    w: Seq<T>,
    base: nat,
    slots: Seq<Option<Thread<U>>>,
    n: nat,
    s: Option<Thread<U>>,
    entries: spec_fn(nat) -> bool,
)
    requires
        base + q.slots() <= slots.len(),
        justified(q, w, base, slots, n, entries),
        s is Some ==> entries(n),
    ensures
        justified(q, w, base, q.propagate(base, slots, n, s).slots, n, entries),
        q.propagate(base, slots, n, s).out is Some ==> reaches(q, w, entries, n),
    decreases q,
{
    let result = q.propagate(base, slots, n, s);
    match q {
        Pattern::Eps => {
            if s is Some {
                assert(cut(n) && entries(n) && q.spans(w, n, n));
            }
        },
        Pattern::Weight(_) => {
            if s is Some {
                assert(cut(n) && entries(n) && q.spans(w, n, n));
            }
        },
        Pattern::Mark(_) => {
            if s is Some {
                assert(cut(n) && entries(n) && q.spans(w, n, n));
            }
        },
        Pattern::Atom(_) => {},
        Pattern::Alt(a, b) => {
            let left = a.propagate(base, slots, n, s);
            let right = b.propagate(base + a.slots(), left.slots, n, s);
            lemma_propagate_frame(*a, base, slots, n, s);
            lemma_propagate_frame(*b, base + a.slots(), left.slots, n, s);
            lemma_propagate_sound(*a, w, base, slots, n, s, entries);
            lemma_justified_frame(*b, w, base + a.slots(), slots, left.slots, n, entries);
            lemma_propagate_sound(*b, w, base + a.slots(), left.slots, n, s, entries);
            lemma_justified_frame(*a, w, base, left.slots, right.slots, n, entries);
            if result.out is Some {
                if result.out == left.out {
                    let i = choose|i: nat| #[trigger] cut(i) && entries(i) && i <= n && a.spans(w, i, n);
                    assert(cut(i) && entries(i) && i <= n && q.spans(w, i, n));
                } else {
                    let i = choose|i: nat| #[trigger] cut(i) && entries(i) && i <= n && b.spans(w, i, n);
                    assert(cut(i) && entries(i) && i <= n && q.spans(w, i, n));
                }
            }
        },
        Pattern::Concat(a, b) => {
            let k = base + a.slots();
            let between = exits(*a, w, entries);
            let left = a.propagate(base, slots, n, s);
            let joined = choice(left.slots[k as int], left.out);
            let stored = left.slots.update(k as int, joined);
            lemma_propagate_frame(*a, base, slots, n, s);
            lemma_propagate_frame(*b, k + 1, stored, n, joined);
            lemma_propagate_sound(*a, w, base, slots, n, s, entries);
            assert(left.slots[k as int] == slots[k as int]);
            assert(joined is Some ==> between(n));
            lemma_justified_frame(*b, w, k + 1, slots, stored, n, between);
            lemma_propagate_sound(*b, w, k + 1, stored, n, joined, between);
            lemma_justified_frame(*a, w, base, left.slots, result.slots, n, entries);
            assert(result.slots[k as int] == joined);
            if result.out is Some {
                lemma_reaches_concat(*a, *b, w, entries, n);
            }
        },
        Pattern::Repeat(a) => {
            let around = exits(q, w, entries);
            let entered = choice(slots[base as int], s);
            let primed = slots.update(base as int, entered);
            let body = a.propagate(base + 1, primed, n, entered);
            lemma_propagate_frame(*a, base + 1, primed, n, entered);
            if s is Some {
                assert(cut(n) && entries(n) && q.spans(w, n, n));
            }
            assert(entered is Some ==> around(n));
            lemma_justified_frame(*a, w, base + 1, slots, primed, n, around);
            lemma_propagate_sound(*a, w, base + 1, primed, n, entered, around);
            lemma_justified_frame(*a, w, base + 1, body.slots, result.slots, n, around);
            assert(body.slots[base as int] == entered);
            if body.out is Some {
                lemma_reaches_repeat(*a, w, entries, n);
            }
        },
    }
}

/// The one position at which a matcher enters its pattern: before the first
/// token.
pub open spec fn at_start() -> spec_fn(nat) -> bool {
    |i: nat| i == 0
}

/// Whether the state `c` is accounted for by the first `c.index` tokens of
/// `w`: every live cell is justified, a thread waits at the entry only before
/// the first token, and a thread is accepted only if those tokens are in the
/// language.
pub open spec fn accounted<T, U>(p: Pattern<T, U>, w: Seq<T>, c: Config<U>) -> bool {
    &&& c.fits(p)
    &&& c.index <= w.len()
    &&& justified(p, w, 0, c.slots, c.index, at_start())
    &&& (c.entry is Some ==> c.index == 0)
    &&& (c.accepted is Some ==> p.spans(w, 0, c.index))
}

/// The state before any token is accounted for.
pub proof fn lemma_start_accounted<T, U>(p: Pattern<T, U>, w: Seq<T>)
    ensures
        accounted(p, w, p.start()),
{
    let blank = Seq::new(p.slots(), |i: int| None::<Thread<U>>);
    lemma_start_fits(p);
    lemma_justified_dead(p, w, 0, blank, 0, at_start());
    lemma_propagate_sound(p, w, 0, blank, 0, Some(origin()), at_start());
    if p.start().accepted is Some {
        let i = choose|i: nat| #[trigger] cut(i) && at_start()(i) && i <= 0 && p.spans(w, i, 0);
        assert(p.spans(w, 0, 0));
    }
}

/// The next token of `w` keeps the state accounted for.
pub proof fn lemma_step_accounted<T, U>(p: Pattern<T, U>, w: Seq<T>, c: Config<U>)
    requires
        accounted(p, w, c),
        c.index < w.len(),
    ensures
        accounted(p, w, p.step(c, w[c.index as int])),
{
    let n = c.index;
    let token = w[n as int];
    let shifted = p.shift(0, c.slots, n, token, c.entry);
    let closed = p.propagate(0, shifted.slots, n + 1, None);
    let next = p.step(c, token);
    lemma_shift_frame(p, 0, c.slots, n, token, c.entry);
    lemma_propagate_frame(p, 0, shifted.slots, n + 1, None);
    lemma_shift_sound(p, w, 0, c.slots, n, c.entry, at_start());
    lemma_propagate_sound(p, w, 0, shifted.slots, n + 1, None, at_start());
    if next.accepted is Some {
        assert(reaches(p, w, at_start(), n + 1));
        let i = choose|i: nat|
            #[trigger] cut(i) && at_start()(i) && i <= n + 1 && p.spans(w, i, n + 1);
        assert(p.spans(w, 0, n + 1));
    }
}

/// The first `k` tokens of `w`, fed to a fresh matcher, leave a state that is
/// accounted for.
pub proof fn lemma_run_accounted<T, U>(p: Pattern<T, U>, w: Seq<T>, k: nat)
    requires
        k <= w.len(),
    ensures
        accounted(p, w, p.run(p.start(), w.take(k as int))),
        p.run(p.start(), w.take(k as int)).index == k,
    decreases k,
{
    lemma_start_fits(p);
    lemma_run_fits(p, p.start(), w.take(k as int));
    if k == 0 {
        assert(p.run(p.start(), w.take(0)) == p.start());
        lemma_start_accounted(p, w);
    } else {
        let shorter = w.take(k - 1);
        assert(w.take(k as int).drop_last() =~= shorter);
        assert(w.take(k as int).last() == w[k - 1]);
        lemma_run_accounted(p, w, (k - 1) as nat);
        lemma_step_accounted(p, w, p.run(p.start(), shorter));
    }
}

/// The matcher reports no match outside the language: whatever sequence a
/// fresh matcher matches is in the language of its pattern.
pub proof fn lemma_match_in_language<T, U>(p: Pattern<T, U>, tokens: Seq<T>)
    requires
        p.matches(tokens),
    ensures
        p.spans(tokens, 0, tokens.len()),
{
    assert(tokens.take(tokens.len() as int) =~= tokens);
    lemma_run_accounted(p, tokens, tokens.len());
}

} // verus!
