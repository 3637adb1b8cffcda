//! A streaming pattern matcher over sequences of arbitrary tokens.
//!
//! A pattern is built from combinators (`val`, `atom`, `any`, `rep`, `opt`,
//! `mark`, `weight`, `eps`, and `*` for "followed by" and `+` for "or"), compiled
//! once into a [`RegExRoot`] with a fixed number of memo cells, and then advanced
//! one token at a time by a [`Matcher`]. After every token the matcher says
//! whether the tokens consumed so far match, and which labelled checkpoints the
//! cheapest derivation went through. Memory and the work per token depend on the
//! size of the pattern, not on the number of tokens.
//!
//! The modules:
//! - `pattern`: the mathematical form of a pattern;
//! - `semantics`: what the two passes of the matcher compute, as functions on
//!   mathematical values;
//! - `laws`: what is proved of those functions;
//! - `language`: the language of a pattern, and the proof that every match
//!   the matcher reports lies in it;
//! - `regex`: the executable pattern tree and its combinators;
//! - `program`: compiling a tree, which numbers its memo cells;
//! - `matcher`: the matcher itself, proved to compute what `semantics` states.

pub mod pattern;
pub mod semantics;
pub mod laws;
pub mod language;
pub mod regex;
pub mod program;
mod state;
pub mod matcher;

pub use matcher::Matcher;
pub use pattern::Pattern;
pub use program::RegExRoot;
pub use regex::{any, atom, eps, mark, opt, rep, val, weight, Predicate, RegEx};
pub use semantics::{Config, Pass, Thread};
