//! Regular-expression combinators with a verified linear-time matcher.
//!
//! A pattern is a tree of combinator values, each of which simulates a
//! non-deterministic finite automaton through a small shared protocol: reset
//! the machine, seed it with the empty string, push one input character at a
//! time through the whole tree, and ask whether the set of partial matches
//! tracked so far contains an accepted string.  The protocol is the [`Regex`]
//! trait; the combinators are built by the functions in [`combinators`].
//!
//! Beside the matcher the crate carries two small verified utilities:
//! dynamically shaped arithmetic values ([`arith`]) and fixed-width binary
//! rendering of indices ([`bits`]).

pub mod arith;
pub mod bits;
pub mod combinators;
pub mod matcher;
pub mod tracking;

pub mod alternation;
pub mod concatenation;
pub mod epsilon;
pub mod leaf;
pub mod optional;
pub mod repetition;

mod text;

pub use matcher::Regex;
