//! What holds of the two passes and of the states they produce.

use vstd::prelude::*;
use crate::pattern::Pattern;
use crate::semantics::{
    all_tidy, all_within, choice, ordered, tidy, weigh, within, Config, Pass, Thread,
};

verus! {

/// A shift pass keeps the number of cells and touches none but the cells of
/// its pattern.
pub proof fn lemma_shift_frame<T, U>(
    p: Pattern<T, U>,
    base: nat,
    slots: Seq<Option<Thread<U>>>,
    index: nat,
    token: T,
    s: Option<Thread<U>>,
)
    requires
        base + p.slots() <= slots.len(),
    ensures
        p.shift(base, slots, index, token, s).slots.len() == slots.len(),
        forall|i: int|
            0 <= i < slots.len() && !(base <= i < base + p.slots()) ==> (#[trigger] p.shift(
                base,
                slots,
                index,
                token,
                s,
            ).slots[i]) == slots[i],
    decreases p,
{
    let after = p.shift(base, slots, index, token, s).slots;
    match p {
        Pattern::Alt(a, b) => {
            let left = a.shift(base, slots, index, token, s);
            lemma_shift_frame(*a, base, slots, index, token, s);
            lemma_shift_frame(*b, base + a.slots(), left.slots, index, token, s);
            assert forall|i: int|
                0 <= i < slots.len() && !(base <= i < base + p.slots()) implies (#[trigger] after[i])
                == slots[i] by {
                assert(left.slots[i] == slots[i]);
            }
        },
        Pattern::Concat(a, b) => {
            let left = a.shift(base, slots, index, token, s);
            let k = base + a.slots();
            let stored = left.slots.update(k as int, left.out);
            lemma_shift_frame(*a, base, slots, index, token, s);
            lemma_shift_frame(*b, k + 1, stored, index, token, left.slots[k as int]);
            assert forall|i: int|
                0 <= i < slots.len() && !(base <= i < base + p.slots()) implies (#[trigger] after[i])
                == slots[i] by {
                assert(stored[i] == left.slots[i]);
                assert(left.slots[i] == slots[i]);
            }
        },
        Pattern::Repeat(a) => {
            let cleared = slots.update(base as int, None);
            let body = a.shift(base + 1, cleared, index, token, slots[base as int]);
            lemma_shift_frame(*a, base + 1, cleared, index, token, slots[base as int]);
            assert forall|i: int|
                0 <= i < slots.len() && !(base <= i < base + p.slots()) implies (#[trigger] after[i])
                == slots[i] by {
                assert(body.slots[i] == cleared[i]);
            }
        },
        _ => {},
    }
}

/// A propagate pass keeps the number of cells and touches none but the cells
/// of its pattern.
pub proof fn lemma_propagate_frame<T, U>(
    p: Pattern<T, U>,
    base: nat,
    slots: Seq<Option<Thread<U>>>,
    index: nat,
    s: Option<Thread<U>>,
)
    requires
        base + p.slots() <= slots.len(),
    ensures
        p.propagate(base, slots, index, s).slots.len() == slots.len(),
        forall|i: int|
            0 <= i < slots.len() && !(base <= i < base + p.slots()) ==> (#[trigger] p.propagate(
                base,
                slots,
                index,
                s,
            ).slots[i]) == slots[i],
    decreases p,
{
    let after = p.propagate(base, slots, index, s).slots;
    match p {
        Pattern::Alt(a, b) => {
            let left = a.propagate(base, slots, index, s);
            lemma_propagate_frame(*a, base, slots, index, s);
            lemma_propagate_frame(*b, base + a.slots(), left.slots, index, s);
            assert forall|i: int|
                0 <= i < slots.len() && !(base <= i < base + p.slots()) implies (#[trigger] after[i])
                == slots[i] by {
                assert(left.slots[i] == slots[i]);
            }
        },
        Pattern::Concat(a, b) => {
            lemma_propagate_frame(*a, base, slots, index, s);
            let left = a.propagate(base, slots, index, s);
            let k = base + a.slots();
            let joined = choice(left.slots[k as int], left.out);
            let stored = left.slots.update(k as int, joined);
            lemma_propagate_frame(*b, k + 1, stored, index, joined);
            assert forall|i: int|
                0 <= i < slots.len() && !(base <= i < base + p.slots()) implies (#[trigger] after[i])
                == slots[i] by {
                assert(stored[i] == left.slots[i]);
                assert(left.slots[i] == slots[i]);
            }
        },
        Pattern::Repeat(a) => {
            let entered = choice(slots[base as int], s);
            let primed = slots.update(base as int, entered);
            let body = a.propagate(base + 1, primed, index, entered);
            lemma_propagate_frame(*a, base + 1, primed, index, entered);
            assert forall|i: int|
                0 <= i < slots.len() && !(base <= i < base + p.slots()) implies (#[trigger] after[i])
                == slots[i] by {
                assert(body.slots[i] == primed[i]);
            }
        },
        _ => {},
    }
}

/// A shift pass moves threads and changes no cost: what was within a limit
/// before the pass is within it after.
pub proof fn lemma_shift_within<T, U>(
    p: Pattern<T, U>,
    base: nat,
    slots: Seq<Option<Thread<U>>>,
    index: nat,
    token: T,
    s: Option<Thread<U>>,
    limit: int,
)
    requires
        base + p.slots() <= slots.len(),
        all_within(slots, limit),
        within(s, limit),
    ensures
        all_within(p.shift(base, slots, index, token, s).slots, limit),
        within(p.shift(base, slots, index, token, s).out, limit),
    decreases p,
{
    match p {
        Pattern::Alt(a, b) => {
            let left = a.shift(base, slots, index, token, s);
            lemma_shift_frame(*a, base, slots, index, token, s);
            lemma_shift_within(*a, base, slots, index, token, s, limit);
            lemma_shift_within(*b, base + a.slots(), left.slots, index, token, s, limit);
        },
        Pattern::Concat(a, b) => {
            let left = a.shift(base, slots, index, token, s);
            let k = base + a.slots();
            lemma_shift_frame(*a, base, slots, index, token, s);
            lemma_shift_within(*a, base, slots, index, token, s, limit);
            lemma_shift_within(
                *b,
                k + 1,
                left.slots.update(k as int, left.out),
                index,
                token,
                left.slots[k as int],
                limit,
            );
        },
        Pattern::Repeat(a) => {
            let cleared = slots.update(base as int, None);
            lemma_shift_frame(*a, base + 1, cleared, index, token, slots[base as int]);
            lemma_shift_within(*a, base + 1, cleared, index, token, slots[base as int], limit);
        },
        _ => {},
    }
}

/// A propagate pass moves the cost of a thread by no more than the weights of
/// its pattern add up to.
pub proof fn lemma_propagate_within<T, U>(
    p: Pattern<T, U>,
    base: nat,
    slots: Seq<Option<Thread<U>>>,
    index: nat,
    s: Option<Thread<U>>,
    limit: int,
)
    requires
        base + p.slots() <= slots.len(),
        all_within(slots, limit),
        within(s, limit),
    ensures
        all_within(p.propagate(base, slots, index, s).slots, limit + p.weight_sum()),
        within(p.propagate(base, slots, index, s).out, limit + p.weight_sum()),
    decreases p,
{
    match p {
        Pattern::Alt(a, b) => {
            let left = a.propagate(base, slots, index, s);
            lemma_propagate_frame(*a, base, slots, index, s);
            lemma_propagate_within(*a, base, slots, index, s, limit);
            lemma_propagate_within(*b, base + a.slots(), left.slots, index, s, limit + a.weight_sum());
        },
        Pattern::Concat(a, b) => {
            let left = a.propagate(base, slots, index, s);
            let k = base + a.slots();
            let joined = choice(left.slots[k as int], left.out);
            lemma_propagate_frame(*a, base, slots, index, s);
            lemma_propagate_within(*a, base, slots, index, s, limit);
            lemma_propagate_within(
                *b,
                k + 1,
                left.slots.update(k as int, joined),
                index,
                joined,
                limit + a.weight_sum(),
            );
        },
        Pattern::Repeat(a) => {
            let entered = choice(slots[base as int], s);
            let primed = slots.update(base as int, entered);
            lemma_propagate_frame(*a, base + 1, primed, index, entered);
            lemma_propagate_within(*a, base + 1, primed, index, entered, limit);
        },
        _ => {},
    }
}

/// Each token raises the limit on the costs by the weights of the pattern.
pub proof fn lemma_cost_limit_step<T, U>(p: Pattern<T, U>, index: nat)
    ensures
        p.cost_limit(0) == p.weight_sum(),
        p.cost_limit(index + 1) == p.cost_limit(index) + p.weight_sum(),
{
    let w = p.weight_sum();
    assert((0 + 1) * w == w) by (nonlinear_arith);
    assert((index + 1 + 1) * w == (index + 1) * w + w) by (nonlinear_arith);
}

/// The limit on the costs never falls as tokens are consumed, and a pattern
/// without weights keeps every cost at zero.
pub proof fn lemma_cost_limit_grows<T, U>(p: Pattern<T, U>, earlier: nat, later: nat)
    requires
        earlier <= later,
    ensures
        0 <= p.cost_limit(earlier) <= p.cost_limit(later),
        p.weight_sum() == 0 ==> p.cost_limit(later) == 0,
{
    let w = p.weight_sum();
    assert(0 <= (earlier + 1) * w <= (later + 1) * w) by (nonlinear_arith)
        requires
            earlier <= later,
            0 <= w,
    ;
    assert(w == 0 ==> (later + 1) * w == 0) by (nonlinear_arith);
}

/// Whether every cell of the row is dead.
pub open spec fn all_dead<U>(slots: Seq<Option<Thread<U>>>) -> bool {
    forall|i: int| 0 <= i < slots.len() ==> (#[trigger] slots[i]) is None
}

/// A shift pass over dead cells, entered by nothing, changes nothing and lets
/// nothing out.
pub proof fn lemma_shift_dead<T, U>(
    p: Pattern<T, U>,
    base: nat,
    slots: Seq<Option<Thread<U>>>,
    index: nat,
    token: T,
)
    requires
        base + p.slots() <= slots.len(),
        all_dead(slots),
    ensures
        p.shift(base, slots, index, token, None) == (Pass { slots, out: None }),
    decreases p,
{
    match p {
        Pattern::Alt(a, b) => {
            lemma_shift_dead(*a, base, slots, index, token);
            lemma_shift_dead(*b, base + a.slots(), slots, index, token);
        },
        Pattern::Concat(a, b) => {
            let k = base + a.slots();
            lemma_shift_dead(*a, base, slots, index, token);
            assert(slots.update(k as int, None) =~= slots);
            lemma_shift_dead(*b, k + 1, slots, index, token);
        },
        Pattern::Repeat(a) => {
            assert(slots.update(base as int, None) =~= slots);
            lemma_shift_dead(*a, base + 1, slots, index, token);
        },
        _ => {},
    }
}

/// A propagate pass over dead cells, entered by nothing, changes nothing and
/// lets nothing out.
pub proof fn lemma_propagate_dead<T, U>(
    p: Pattern<T, U>,
    base: nat,
    slots: Seq<Option<Thread<U>>>,
    index: nat,
)
    requires
        base + p.slots() <= slots.len(),
        all_dead(slots),
    ensures
        p.propagate(base, slots, index, None) == (Pass { slots, out: None }),
    decreases p,
{
    match p {
        Pattern::Alt(a, b) => {
            lemma_propagate_dead(*a, base, slots, index);
            lemma_propagate_dead(*b, base + a.slots(), slots, index);
        },
        Pattern::Concat(a, b) => {
            let k = base + a.slots();
            lemma_propagate_dead(*a, base, slots, index);
            assert(slots.update(k as int, None) =~= slots);
            lemma_propagate_dead(*b, k + 1, slots, index);
        },
        Pattern::Repeat(a) => {
            assert(slots.update(base as int, None) =~= slots);
            lemma_propagate_dead(*a, base + 1, slots, index);
        },
        _ => {},
    }
}

/// The state before any token has one cell for each cell of the pattern.
pub proof fn lemma_start_fits<T, U>(p: Pattern<T, U>)
    ensures
        p.start().fits(p),
        p.start().index == 0,
{
    let blank = Seq::new(p.slots(), |i: int| None::<Thread<U>>);
    lemma_propagate_frame(p, 0, blank, 0, Some(crate::semantics::origin()));
}

/// A token keeps the number of cells and advances the count of tokens by one.
pub proof fn lemma_step_fits<T, U>(p: Pattern<T, U>, c: Config<U>, token: T)
    requires
        c.fits(p),
    ensures
        p.step(c, token).fits(p),
        p.step(c, token).index == c.index + 1,
{
    let shifted = p.shift(0, c.slots, c.index, token, c.entry);
    lemma_shift_frame(p, 0, c.slots, c.index, token, c.entry);
    lemma_propagate_frame(p, 0, shifted.slots, c.index + 1, None);
}

/// A sequence of tokens keeps the number of cells and advances the count of
/// tokens by its length.
pub proof fn lemma_run_fits<T, U>(p: Pattern<T, U>, c: Config<U>, tokens: Seq<T>)
    requires
        c.fits(p),
    ensures
        p.run(c, tokens).fits(p),
        p.run(c, tokens).index == c.index + tokens.len(),
    decreases tokens.len(),
{
    if tokens.len() > 0 {
        lemma_run_fits(p, c, tokens.drop_last());
        lemma_step_fits(p, p.run(c, tokens.drop_last()), tokens.last());
    }
}

/// Feeding one token is feeding the sequence that holds just that token.
pub proof fn lemma_run_one<T, U>(p: Pattern<T, U>, c: Config<U>, token: T)
    ensures
        p.run(c, seq![token]) == p.step(c, token),
{
    let one = seq![token];
    assert(one.drop_last() =~= Seq::<T>::empty());
    assert(p.run(c, one.drop_last()) == c);
    assert(one.last() == token);
}

/// Feeding a sequence in one piece ends in the same state as feeding a first
/// part of it and then the rest. With `lemma_run_one`: feeding token by token
/// and feeding in any number of batches end in the same state, so they agree
/// on the match and on the path.
pub proof fn lemma_run_split<T, U>(p: Pattern<T, U>, c: Config<U>, first: Seq<T>, rest: Seq<T>)
    ensures
        p.run(c, first + rest) == p.run(p.run(c, first), rest),
    decreases rest.len(),
{
    if rest.len() == 0 {
        assert(first + rest =~= first);
    } else {
        assert((first + rest).drop_last() =~= first + rest.drop_last());
        assert((first + rest).last() == rest.last());
        lemma_run_split(p, c, first, rest.drop_last());
    }
}

/// Death is final, one token at a time: a state without a live derivation
/// stays as it is but for the count of tokens.
pub proof fn lemma_dead_step<T, U>(p: Pattern<T, U>, c: Config<U>, token: T)
    requires
        c.fits(p),
        !c.is_alive(),
    ensures
        !p.step(c, token).is_alive(),
        p.step(c, token).fits(p),
{
    assert(all_dead(c.slots));
    lemma_shift_dead(p, 0, c.slots, c.index, token);
    lemma_propagate_dead(p, 0, c.slots, c.index + 1);
}

/// Death is final: once no derivation is left, no sequence of further tokens
/// brings a match, or any derivation, back.
pub proof fn lemma_dead_stays_dead<T, U>(p: Pattern<T, U>, c: Config<U>, tokens: Seq<T>)
    requires
        c.fits(p),
        !c.is_alive(),
    ensures
        !p.run(c, tokens).is_alive(),
        !p.run(c, tokens).is_match(),
        p.run(c, tokens).path() == Seq::<(nat, U)>::empty(),
    decreases tokens.len(),
{
    if tokens.len() > 0 {
        lemma_dead_stays_dead(p, c, tokens.drop_last());
        lemma_run_fits(p, c, tokens.drop_last());
        lemma_dead_step(p, p.run(c, tokens.drop_last()), tokens.last());
    }
}

/// A shift pass records nothing: checkpoints that were ordered stay ordered.
pub proof fn lemma_shift_tidy<T, U>(
    p: Pattern<T, U>,
    base: nat,
    slots: Seq<Option<Thread<U>>>,
    index: nat,
    token: T,
    s: Option<Thread<U>>,
    upto: nat,
)
    requires
        base + p.slots() <= slots.len(),
        all_tidy(slots, upto),
        tidy(s, upto),
    ensures
        all_tidy(p.shift(base, slots, index, token, s).slots, upto),
        tidy(p.shift(base, slots, index, token, s).out, upto),
    decreases p,
{
    match p {
        Pattern::Alt(a, b) => {
            let left = a.shift(base, slots, index, token, s);
            lemma_shift_frame(*a, base, slots, index, token, s);
            lemma_shift_tidy(*a, base, slots, index, token, s, upto);
            lemma_shift_tidy(*b, base + a.slots(), left.slots, index, token, s, upto);
        },
        Pattern::Concat(a, b) => {
            let left = a.shift(base, slots, index, token, s);
            let k = base + a.slots();
            lemma_shift_frame(*a, base, slots, index, token, s);
            lemma_shift_tidy(*a, base, slots, index, token, s, upto);
            lemma_shift_tidy(
                *b,
                k + 1,
                left.slots.update(k as int, left.out),
                index,
                token,
                left.slots[k as int],
                upto,
            );
        },
        Pattern::Repeat(a) => {
            let cleared = slots.update(base as int, None);
            lemma_shift_frame(*a, base + 1, cleared, index, token, slots[base as int]);
            lemma_shift_tidy(*a, base + 1, cleared, index, token, slots[base as int], upto);
        },
        _ => {},
    }
}

/// A propagate pass records the current position only, at the end of what a
/// thread has recorded before: checkpoints that were ordered up to the current
/// position stay so.
pub proof fn lemma_propagate_tidy<T, U>(
    p: Pattern<T, U>,
    base: nat,
    slots: Seq<Option<Thread<U>>>,
    index: nat,
    s: Option<Thread<U>>,
)
    requires
        base + p.slots() <= slots.len(),
        all_tidy(slots, index),
        tidy(s, index),
    ensures
        all_tidy(p.propagate(base, slots, index, s).slots, index),
        tidy(p.propagate(base, slots, index, s).out, index),
    decreases p,
{
    match p {
        Pattern::Alt(a, b) => {
            let left = a.propagate(base, slots, index, s);
            lemma_propagate_frame(*a, base, slots, index, s);
            lemma_propagate_tidy(*a, base, slots, index, s);
            lemma_propagate_tidy(*b, base + a.slots(), left.slots, index, s);
        },
        Pattern::Concat(a, b) => {
            let left = a.propagate(base, slots, index, s);
            let k = base + a.slots();
            let joined = choice(left.slots[k as int], left.out);
            lemma_propagate_frame(*a, base, slots, index, s);
            lemma_propagate_tidy(*a, base, slots, index, s);
            lemma_propagate_tidy(*b, k + 1, left.slots.update(k as int, joined), index, joined);
        },
        Pattern::Repeat(a) => {
            let entered = choice(slots[base as int], s);
            let primed = slots.update(base as int, entered);
            lemma_propagate_frame(*a, base + 1, primed, index, entered);
            lemma_propagate_tidy(*a, base + 1, primed, index, entered);
        },
        _ => {},
    }
}

/// The state before any token is tidy.
pub proof fn lemma_start_tidy<T, U>(p: Pattern<T, U>)
    ensures
        p.start().is_tidy(),
{
    let blank = Seq::new(p.slots(), |i: int| None::<Thread<U>>);
    lemma_propagate_tidy(p, 0, blank, 0, Some(crate::semantics::origin()));
}

/// A token keeps a state tidy.
pub proof fn lemma_step_tidy<T, U>(p: Pattern<T, U>, c: Config<U>, token: T)
    requires
        c.fits(p),
        c.is_tidy(),
    ensures
        p.step(c, token).is_tidy(),
{
    let shifted = p.shift(0, c.slots, c.index, token, c.entry);
    lemma_shift_frame(p, 0, c.slots, c.index, token, c.entry);
    lemma_shift_tidy(p, 0, c.slots, c.index, token, c.entry, c.index);
    assert(all_tidy(shifted.slots, c.index + 1)) by {
        assert forall|i: int| 0 <= i < shifted.slots.len() implies tidy(
            #[trigger] shifted.slots[i],
            c.index + 1,
        ) by {
            assert(tidy(shifted.slots[i], c.index));
        }
    }
    lemma_propagate_tidy(p, 0, shifted.slots, c.index + 1, None);
}

/// A sequence of tokens keeps a state tidy.
pub proof fn lemma_run_tidy<T, U>(p: Pattern<T, U>, c: Config<U>, tokens: Seq<T>)
    requires
        c.fits(p),
        c.is_tidy(),
    ensures
        p.run(c, tokens).is_tidy(),
    decreases tokens.len(),
{
    if tokens.len() > 0 {
        lemma_run_tidy(p, c, tokens.drop_last());
        lemma_run_fits(p, c, tokens.drop_last());
        lemma_step_tidy(p, p.run(c, tokens.drop_last()), tokens.last());
    }
}

/// The path of a matcher never goes back: its positions stand in rising order,
/// and none lies beyond the number of tokens consumed.
pub proof fn lemma_path_ordered<T, U>(p: Pattern<T, U>, tokens: Seq<T>)
    ensures
        ordered(p.run(p.start(), tokens).path(), tokens.len()),
{
    lemma_start_fits(p);
    lemma_start_tidy(p);
    lemma_run_tidy(p, p.start(), tokens);
    lemma_run_fits(p, p.start(), tokens);
}

/// Between two threads of equal cost a weight on one of them decides: with a
/// negative weight the weighted thread is kept, with a positive weight the
/// other one, and with no weight at all the first.
pub proof fn lemma_weight_breaks_tie<U>(first: Thread<U>, second: Thread<U>, w: int)
    requires
        first.cost == second.cost,
    ensures
        w < 0 ==> choice(Some(first), weigh(Some(second), w)) == weigh(Some(second), w),
        w >= 0 ==> choice(Some(first), weigh(Some(second), w)) == Some(first),
        w > 0 ==> choice(weigh(Some(first), w), Some(second)) == Some(second),
        w <= 0 ==> choice(weigh(Some(first), w), Some(second)) == weigh(Some(first), w),
{
}

/// An optional pattern matches the empty sequence.
pub proof fn lemma_opt_matches_empty<T, U>(a: Pattern<T, U>)
    ensures
        Pattern::opt(a).matches(Seq::empty()),
{
    reveal_with_fuel(Pattern::propagate, 2);
}

/// After the first token an optional pattern is in the state of the pattern
/// it wraps, so from then on the two agree on the match and on the path.
pub proof fn lemma_opt_run<T, U>(a: Pattern<T, U>, tokens: Seq<T>)
    requires
        tokens.len() > 0,
    ensures
        Pattern::opt(a).run(Pattern::opt(a).start(), tokens) == a.run(a.start(), tokens),
    decreases tokens.len(),
{
    let o = Pattern::opt(a);
    reveal_with_fuel(Pattern::propagate, 2);
    reveal_with_fuel(Pattern::shift, 2);
    reveal_with_fuel(Pattern::slots, 2);
    let before = tokens.drop_last();
    let co = o.run(o.start(), before);
    let ca = a.run(a.start(), before);
    if before.len() > 0 {
        lemma_opt_run(a, before);
    } else {
        assert(co == o.start());
        assert(ca == a.start());
    }
    assert(co.index == ca.index && co.entry == ca.entry && co.slots == ca.slots);
    assert(o.step(co, tokens.last()) == a.step(ca, tokens.last()));
}

/// The optional pattern matches whatever the pattern it wraps matches.
pub proof fn lemma_opt_includes<T, U>(a: Pattern<T, U>, tokens: Seq<T>)
    requires
        a.matches(tokens),
    ensures
        Pattern::opt(a).matches(tokens),
{
    if tokens.len() > 0 {
        lemma_opt_run(a, tokens);
    } else {
        assert(tokens =~= Seq::empty());
        lemma_opt_matches_empty(a);
    }
}

/// A repetition of a repetition of an atom matches exactly what the
/// repetition of the atom matches.
pub proof fn lemma_rep_rep_atom<T, U>(f: spec_fn(nat, T) -> bool, tokens: Seq<T>)
    ensures
        Pattern::<T, U>::rep(Pattern::rep(Pattern::Atom(f))).matches(tokens) == Pattern::<
            T,
            U,
        >::rep(Pattern::Atom(f)).matches(tokens),
{
    lemma_rep_rep_atom_run::<T, U>(f, tokens);
}

/// The repetition of an atom matches the sequences in which every token, at
/// its position, satisfies the atom.
pub proof fn lemma_rep_atom_matches<T, U>(f: spec_fn(nat, T) -> bool, tokens: Seq<T>)
    ensures
        Pattern::<T, U>::rep(Pattern::Atom(f)).matches(tokens) <==> forall|i: int|
            0 <= i < tokens.len() ==> f(i as nat, #[trigger] tokens[i]),
{
    lemma_rep_rep_atom_run::<T, U>(f, tokens);
}

/// The states of the two repetitions side by side: the inner cell of the
/// nested one, its outer cell and its accepted thread all hold what the single
/// cell of the plain one holds.
proof fn lemma_rep_rep_atom_run<T, U>(f: spec_fn(nat, T) -> bool, tokens: Seq<T>)
    ensures
        ({
            let once = Pattern::<T, U>::rep(Pattern::Atom(f));
            let twice = Pattern::<T, U>::rep(once);
            let c1 = once.run(once.start(), tokens);
            let c2 = twice.run(twice.start(), tokens);
            &&& c1.index == c2.index
            &&& c1.slots.len() == 1
            &&& c2.slots.len() == 2
            &&& c2.slots[0] == c1.slots[0]
            &&& c2.slots[1] == c1.slots[0]
            &&& c1.accepted == c1.slots[0]
            &&& c2.accepted == c1.slots[0]
            &&& c1.accepted is Some <==> forall|i: int|
                0 <= i < tokens.len() ==> f(i as nat, #[trigger] tokens[i])
        }),
    decreases tokens.len(),
{
    let once = Pattern::<T, U>::rep(Pattern::Atom(f));
    let twice = Pattern::<T, U>::rep(once);
    reveal_with_fuel(Pattern::propagate, 3);
    reveal_with_fuel(Pattern::shift, 3);
    reveal_with_fuel(Pattern::slots, 3);
    if tokens.len() > 0 {
        let before = tokens.drop_last();
        lemma_rep_rep_atom_run::<T, U>(f, before);
        lemma_run_fits(once, once.start(), before);
        lemma_start_fits(once);
        assert(forall|i: int| 0 <= i < before.len() ==> before[i] == tokens[i]);
        if forall|i: int| 0 <= i < tokens.len() ==> f(i as nat, #[trigger] tokens[i]) {
            assert forall|i: int| 0 <= i < before.len() implies f(i as nat, #[trigger] before[i]) by {
                assert(before[i] == tokens[i]);
            }
        }
    }
}

} // verus!
