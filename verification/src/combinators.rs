//! Constructors for the pattern-building API.
//!
//! Each constructor pins down the language of the pattern it builds, so that
//! [`Regex::is_match`](crate::matcher::Regex::is_match) — whose result is
//! exactly language membership — gives a complete specification of matching
//! for every tree built from these functions.

use crate::alternation::Alt;
use crate::concatenation::Cat;
use crate::epsilon::Empty;
use crate::leaf::{Char, CharRange, Dot, SingleChar};
use crate::matcher::Regex;
use crate::optional::Maybe;
use crate::repetition::{star_lang, Star};
use vstd::prelude::*;

verus! {

/// Match only the empty string.
pub fn empty() -> (r: Empty)
    ensures
        forall|s: Seq<char>| #[trigger] r.lang(s) <==> s.len() == 0,
{
    Empty::new()
}

/// Match any single character.
pub fn dot() -> (r: SingleChar<Dot>)
    ensures
        forall|s: Seq<char>| #[trigger] r.lang(s) <==> s.len() == 1,
{
    SingleChar::new(Dot)
}

/// Match the single character `ch` and nothing else.
pub fn achar(ch: char) -> (r: SingleChar<Char>)
    ensures
        forall|s: Seq<char>| #[trigger] r.lang(s) <==> s.len() == 1 && s[0] == ch,
{
    SingleChar::new(Char(ch))
}

/// Match any single character whose code point lies in the inclusive range
/// from `min_ch` to `max_ch`.  An inverted range matches nothing.
pub fn char_range(min_ch: char, max_ch: char) -> (r: SingleChar<CharRange>)
    ensures
        forall|s: Seq<char>| #[trigger] r.lang(s) <==> s.len() == 1 && min_ch as u32 <= s[0] as u32
            && s[0] as u32 <= max_ch as u32,
{
    SingleChar::new(CharRange(min_ch, max_ch))
}

/// Match a string iff it can be split into a first and a second half such
/// that `first` matches the first half and `second` matches the second half.
pub fn seq<A: Regex, B: Regex>(first: A, second: B) -> (r: Cat<A, B>)
    ensures
        forall|s: Seq<char>| #[trigger] r.lang(s) <==> exists|u: Seq<char>, v: Seq<char>|
            (#[trigger] first.lang(u)) && (#[trigger] second.lang(v)) && s == u + v,
{
    Cat::new(first, second)
}

/// Match a string iff `left` or `right` (or both) match it.
pub fn alt<A: Regex, B: Regex>(left: A, right: B) -> (r: Alt<A, B>)
    ensures
        forall|s: Seq<char>| #[trigger] r.lang(s) <==> left.lang(s) || right.lang(s),
{
    Alt::new(left, right)
}

/// Match zero or more consecutive occurrences of `regex`.
pub fn star<A: Regex>(regex: A) -> (r: Star<A>)
    ensures
        forall|s: Seq<char>| #[trigger] r.lang(s) == star_lang(&regex, s),
{
    Star::new(regex)
}

/// Match the empty string or a single occurrence of `regex`.
pub fn maybe<A: Regex>(regex: A) -> (r: Maybe<A>)
    ensures
        forall|s: Seq<char>| #[trigger] r.lang(s) <==> s.len() == 0 || regex.lang(s),
{
    Maybe::new(regex)
}

} // verus!
