//! Patterns as executable trees, and the combinators that build them.

use vstd::prelude::*;
use crate::pattern::Pattern;

verus! {

/// The test an atom applies to one token.
///
/// `holds` is the mathematical predicate; `test` computes it. The predicate
/// depends on the position and the token alone, so asking twice gives the same
/// answer.
pub trait Predicate<T> {
    /// Whether the token at position `index` is accepted.
    spec fn holds(&self, index: nat, token: T) -> bool;

    /// Decides `holds` for the token about to be consumed.
    fn test(&self, index: usize, token: &T) -> (r: bool)
        ensures
            r == self.holds(index as nat, *token),
    ;
}

/// Whether `f` can be called on every position and token, and returns one
/// result for each.
pub open spec fn is_total_function<T, F: Fn(usize, &T) -> bool>(f: F) -> bool {
    &&& forall|i: usize, t: &T| #[trigger] call_requires(f, (i, t))
    &&& forall|i: usize, t: &T, r1: bool, r2: bool|
        #![trigger call_ensures(f, (i, t), r1), call_ensures(f, (i, t), r2)]
        call_ensures(f, (i, t), r1) && call_ensures(f, (i, t), r2) ==> r1 == r2
}

/// The predicate that a total function computes: true where the function
/// returns true. No position beyond `usize::MAX` is accepted.
pub open spec fn computed_by<T, F: Fn(usize, &T) -> bool>(f: F) -> spec_fn(nat, T) -> bool {
    |i: nat, t: T| i <= usize::MAX && call_ensures(f, (i as usize, &t), true)
}

/// The predicate that accepts every token.
pub open spec fn always<T>() -> spec_fn(nat, T) -> bool {
    |i: nat, t: T| true
}

/// The predicate that accepts the tokens equal to `v`.
pub open spec fn equal_to<T>(v: T) -> spec_fn(nat, T) -> bool {
    |i: nat, t: T| t == v
}

/// Whether `==` on `T` decides equality: whatever it returns on two values is
/// whether the two are the same value.
pub open spec fn eq_decides_equality<T: PartialEq>() -> bool {
    forall|x: &T, y: &T, r: bool| #[trigger] call_ensures(T::eq, (x, y), r) ==> r == (*x == *y)
}

/// `<char as PartialEq>::eq` of the standard library, which is `==` on `char`:
/// it compares the two code points, so it is true exactly where the two
/// characters are the same. Believed, not proved.
pub assume_specification[ <char as PartialEq>::eq ](x: &char, y: &char) -> (r: bool)
    ensures
        r == (*x == *y),
;

/// A predicate given by a function.
pub struct FnPredicate<T, F: Fn(usize, &T) -> bool> {
    f: F,
    token: std::marker::PhantomData<T>,
}

impl<T, F: Fn(usize, &T) -> bool> FnPredicate<T, F> {
    #[verifier::type_invariant]
    spec fn total(self) -> bool {
        is_total_function(self.f)
    }

    /// The function inside.
    pub closed spec fn function(self) -> F {
        self.f
    }

    /// Wraps a total function.
    pub fn new(f: F) -> (r: Self)
        requires
            is_total_function(f),
        ensures
            r.function() == f,
    {
        FnPredicate { f, token: std::marker::PhantomData }
    }
}

impl<T, F: Fn(usize, &T) -> bool> Predicate<T> for FnPredicate<T, F> {
    open spec fn holds(&self, index: nat, token: T) -> bool {
        computed_by(self.function())(index, token)
    }

    fn test(&self, index: usize, token: &T) -> (r: bool) {
        proof {
            use_type_invariant(self);
        }
        (self.f)(index, token)
    }
}

/// The predicate that accepts every token.
pub struct Always;

impl<T> Predicate<T> for Always {
    open spec fn holds(&self, index: nat, token: T) -> bool {
        true
    }

    fn test(&self, index: usize, token: &T) -> (r: bool) {
        true
    }
}

/// The predicate that accepts the tokens equal to a given value.
pub struct Equals<T: PartialEq> {
    value: T,
}

impl<T: PartialEq> Equals<T> {
    #[verifier::type_invariant]
    spec fn lawful(self) -> bool {
        eq_decides_equality::<T>()
    }

    /// The value compared against.
    pub closed spec fn value(self) -> T {
        self.value
    }

    /// A predicate for equality with `value`.
    pub fn new(value: T) -> (r: Self)
        requires
            eq_decides_equality::<T>(),
        ensures
            r.value() == value,
    {
        Equals { value }
    }
}

impl<T: PartialEq> Predicate<T> for Equals<T> {
    open spec fn holds(&self, index: nat, token: T) -> bool {
        token == self.value()
    }

    fn test(&self, index: usize, token: &T) -> (r: bool) {
        proof {
            use_type_invariant(self);
        }
        *token == self.value
    }
}

/// A pattern as an executable tree.
///
/// A concatenation and a repetition each carry the number of their memo cell.
/// The combinators leave that number unset; compiling the pattern assigns it.
#[verifier::reject_recursive_types(T)]
pub enum RegEx<'a, T, U: Copy = ()> {
    /// Matches the empty sequence.
    Eps,
    /// Matches one token accepted by the predicate.
    Atom(Box<dyn Predicate<T> + 'a>),
    /// Matches what either side matches; the cheaper derivation wins.
    Alt(Box<RegEx<'a, T, U>>, Box<RegEx<'a, T, U>>),
    /// Matches the left side followed by the right side.
    Concat(Box<RegEx<'a, T, U>>, Box<RegEx<'a, T, U>>, usize),
    /// Matches zero or more repetitions of the body.
    Repeat(Box<RegEx<'a, T, U>>, usize),
    /// Adds a signed amount to the cost of a derivation.
    Weight(isize),
    /// Records the current position under a label.
    Mark(U),
}

impl<'a, T, U: Copy> View for RegEx<'a, T, U> {
    type V = Pattern<T, U>;

    /// The pattern the tree stands for; the cell numbers are not part of it.
    open spec fn view(&self) -> Pattern<T, U> {
        self.pattern()
    }
}

impl<'a, T, U: Copy> RegEx<'a, T, U> {
    /// The pattern the tree stands for.
    pub open spec fn pattern(&self) -> Pattern<T, U>
        decreases self,
    {
        match self {
            RegEx::Eps => Pattern::Eps,
            RegEx::Atom(p) => Pattern::Atom(|i: nat, t: T| p.holds(i, t)),
            RegEx::Alt(a, b) => Pattern::Alt(Box::new(a.pattern()), Box::new(b.pattern())),
            RegEx::Concat(a, b, _) => Pattern::Concat(Box::new(a.pattern()), Box::new(b.pattern())),
            RegEx::Repeat(a, _) => Pattern::Repeat(Box::new(a.pattern())),
            RegEx::Weight(w) => Pattern::Weight(*w as int),
            RegEx::Mark(label) => Pattern::Mark(*label),
        }
    }

    /// Whether every concatenation and repetition of the tree carries the cell
    /// number that its place gives it, for the tree placed at cell `base`: the
    /// cells are numbered depth first and from left to right, a repetition
    /// before its body, a concatenation between its two sides.
    pub open spec fn numbered_from(&self, base: nat) -> bool
        decreases self,
    {
        match self {
            RegEx::Eps => true,
            RegEx::Atom(_) => true,
            RegEx::Alt(a, b) => a.numbered_from(base) && b.numbered_from(base + a@.slots()),
            RegEx::Concat(a, b, slot) => {
                &&& a.numbered_from(base)
                &&& *slot == base + a@.slots()
                &&& b.numbered_from(base + a@.slots() + 1)
            },
            RegEx::Repeat(a, slot) => *slot == base && a.numbered_from(base + 1),
            RegEx::Weight(_) => true,
            RegEx::Mark(_) => true,
        }
    }
}

/// The pattern that matches the empty sequence.
pub fn eps<'a, T, U: Copy>() -> (r: Box<RegEx<'a, T, U>>)
    ensures
        r@ == Pattern::<T, U>::Eps,
{
    Box::new(RegEx::Eps)
}

/// The pattern that matches one token on which `f` returns true. `f` is given
/// the position of the token and the token.
pub fn atom<'a, T: 'a, U: Copy, F: 'a + Fn(usize, &T) -> bool>(f: F) -> (r: Box<RegEx<'a, T, U>>)
    requires
        is_total_function(f),
    ensures
        r@ == Pattern::<T, U>::Atom(computed_by(f)),
{
    let r = Box::new(RegEx::Atom(Box::new(FnPredicate::new(f))));
    proof {
        assert(r@->Atom_0 =~= computed_by(f));
    }
    r
}

/// Zero or more repetitions of `e0`.
pub fn rep<'a, T, U: Copy>(e0: Box<RegEx<'a, T, U>>) -> (r: Box<RegEx<'a, T, U>>)
    ensures
        r@ == Pattern::rep(e0@),
{
    Box::new(RegEx::Repeat(e0, usize::MAX))
}

/// The pattern that consumes nothing and adds `w` to the cost.
pub fn weight<'a, T, U: Copy>(w: isize) -> (r: Box<RegEx<'a, T, U>>)
    ensures
        r@ == Pattern::<T, U>::Weight(w as int),
{
    Box::new(RegEx::Weight(w))
}

/// The pattern that consumes nothing and records the position under `m`.
pub fn mark<'a, T, U: Copy>(m: U) -> (r: Box<RegEx<'a, T, U>>)
    ensures
        r@ == Pattern::<T, U>::Mark(m),
{
    Box::new(RegEx::Mark(m))
}

/// Zero or one occurrence of `e0`.
pub fn opt<'a, T, U: Copy>(e0: Box<RegEx<'a, T, U>>) -> (r: Box<RegEx<'a, T, U>>)
    ensures
        r@ == Pattern::opt(e0@),
{
    alt(eps(), e0)
}

/// The pattern that matches any one token.
pub fn any<'a, T, U: Copy>() -> (r: Box<RegEx<'a, T, U>>)
    ensures
        r@ == Pattern::<T, U>::Atom(always()),
{
    let r = Box::new(RegEx::Atom(Box::new(Always)));
    proof {
        assert(r@->Atom_0 =~= always::<T>());
    }
    r
}

/// The pattern that matches one token equal to `v0`.
pub fn val<'a, T: 'a + PartialEq, U: Copy>(v0: T) -> (r: Box<RegEx<'a, T, U>>)
    requires
        eq_decides_equality::<T>(),
    ensures
        r@ == Pattern::<T, U>::Atom(equal_to(v0)),
{
    let r = Box::new(RegEx::Atom(Box::new(Equals::new(v0))));
    proof {
        assert(r@->Atom_0 =~= equal_to(v0));
    }
    r
}

/// `a` followed by `b`.
pub fn concat<'a, T, U: Copy>(a: Box<RegEx<'a, T, U>>, b: Box<RegEx<'a, T, U>>) -> (r: Box<
    RegEx<'a, T, U>,
>)
    ensures
        r@ == Pattern::Concat(Box::new(a@), Box::new(b@)),
{
    Box::new(RegEx::Concat(a, b, usize::MAX))
}

/// `a` or `b`.
pub fn alt<'a, T, U: Copy>(a: Box<RegEx<'a, T, U>>, b: Box<RegEx<'a, T, U>>) -> (r: Box<
    RegEx<'a, T, U>,
>)
    ensures
        r@ == Pattern::Alt(Box::new(a@), Box::new(b@)),
{
    Box::new(RegEx::Alt(a, b))
}

impl<'a, T, U: Copy> vstd::std_specs::ops::AddSpecImpl for Box<RegEx<'a, T, U>> {
    open spec fn obeys_add_spec() -> bool {
        true
    }

    open spec fn add_req(self, other: Self) -> bool {
        true
    }

    open spec fn add_spec(self, other: Self) -> Self::Output {
        Box::new(RegEx::Alt(self, other))
    }
}

/// `a + b` is `a` or `b`.
impl<'a, T, U: Copy> std::ops::Add for Box<RegEx<'a, T, U>> {
    type Output = Box<RegEx<'a, T, U>>;

    fn add(self, other: Self) -> (r: Self::Output)
        ensures
            r@ == Pattern::Alt(Box::new(self@), Box::new(other@)),
    {
        Box::new(RegEx::Alt(self, other))
    }
}

impl<'a, T, U: Copy> vstd::std_specs::ops::MulSpecImpl for Box<RegEx<'a, T, U>> {
    open spec fn obeys_mul_spec() -> bool {
        true
    }

    open spec fn mul_req(self, other: Self) -> bool {
        true
    }

    open spec fn mul_spec(self, other: Self) -> Self::Output {
        Box::new(RegEx::Concat(self, other, usize::MAX))
    }
}

/// `a * b` is `a` followed by `b`.
impl<'a, T, U: Copy> std::ops::Mul for Box<RegEx<'a, T, U>> {
    type Output = Box<RegEx<'a, T, U>>;

    fn mul(self, other: Self) -> (r: Self::Output)
        ensures
            r@ == Pattern::Concat(Box::new(self@), Box::new(other@)),
    {
        Box::new(RegEx::Concat(self, other, usize::MAX))
    }
}

} // verus!
