//! The shared state protocol that every combinator implements.

use crate::tracking::{lemma_run_set, lemma_split_parts, lemma_step_singleton, run_set, step_set};
use vstd::prelude::*;
use vstd::string::StrSliceExecFns;

verus! {

/// The capability shared by all regex combinators.
///
/// A running combinator tracks a set of strings, never materialized: resetting
/// tracks nothing, `start` adds the empty string, and `advance` appends the
/// character to every tracked string.  The ghost function [`Regex::marks`]
/// names that set, [`Regex::lang`] is the language of the pattern itself, and
/// [`Regex::wf`] ties the concrete state to the tracked set.  `accepts`
/// reports whether some tracked string lies in the language; `is_dead` is a
/// sound (possibly incomplete) check that no future input can ever make the
/// machine accept again.
pub trait Regex: Clone + Sized {
    /// The invariant linking the concrete state to the tracked set.
    spec fn wf(&self) -> bool;

    /// The set of strings currently tracked.
    spec fn marks(&self) -> Set<Seq<char>>;

    /// The language of the pattern: which whole strings it matches.
    /// Depends only on the shape of the pattern, never on the running state.
    spec fn lang(&self, s: Seq<char>) -> bool;

    /// The concrete dead test: when it holds, no tracked string has an
    /// extension in the language (see [`Regex::lemma_dead_sound`]).
    spec fn dead(&self) -> bool;

    /// Reset to the initial state: no string is tracked.
    fn initialize(&mut self)
        ensures
            final(self).wf(),
            final(self).marks() == Set::<Seq<char>>::empty(),
            forall|s: Seq<char>| #[trigger] final(self).lang(s) == old(self).lang(s),
    ;

    /// Track the empty string, in addition to everything already tracked.
    fn start(&mut self)
        requires
            old(self).wf(),
        ensures
            final(self).wf(),
            final(self).marks() == old(self).marks().insert(Seq::<char>::empty()),
            forall|s: Seq<char>| #[trigger] final(self).lang(s) == old(self).lang(s),
    ;

    /// Append `ch` to every tracked string.  Deadness is never undone by
    /// consuming input: a dead machine stays dead.
    fn advance(&mut self, ch: char)
        requires
            old(self).wf(),
        ensures
            final(self).wf(),
            final(self).marks() == step_set(old(self).marks(), ch),
            old(self).dead() ==> final(self).dead(),
            forall|s: Seq<char>| #[trigger] final(self).lang(s) == old(self).lang(s),
    ;

    /// Does some tracked string belong to the pattern's language?
    fn accepts(&self) -> (r: bool)
        requires
            self.wf(),
        ensures
            r == exists|s: Seq<char>| #[trigger] self.marks().contains(s) && self.lang(s),
    ;

    /// The short-circuit test: returns exactly the concrete dead state.
    fn is_dead(&self) -> (r: bool)
        requires
            self.wf(),
        ensures
            r == self.dead(),
    ;

    /// Soundness of the dead test: a dead machine accepts no extension of any
    /// tracked string, so `accepts` stays false forever.
    proof fn lemma_dead_sound(&self, s: Seq<char>, w: Seq<char>)
        requires
            self.wf(),
            self.dead(),
            self.marks().contains(s),
        ensures
            !self.lang(s + w),
    ;

    /// Does the whole input match this pattern?
    ///
    /// This is whole-string acceptance: the result says exactly whether the
    /// input lies in the pattern's language.  The early exit on a dead
    /// machine never changes the answer, because deadness is sound and is
    /// preserved by every later `advance`.
    fn is_match(&mut self, input: &str) -> (r: bool)
        ensures
            r == old(self).lang(input@),
            final(self).wf(),
            forall|s: Seq<char>| #[trigger] final(self).lang(s) == old(self).lang(s),
    {
        self.initialize();
        self.start();
        let n = input.unicode_len();
        let mut i: usize = 0;
        proof {
            assert(input@.take(0int) =~= Seq::<char>::empty());
        }
        while i < n
            invariant
                i <= n,
                n == input@.len(),
                self.wf(),
                self.marks() == Set::<Seq<char>>::empty().insert(input@.take(i as int)),
                forall|s: Seq<char>| #[trigger] self.lang(s) == old(self).lang(s),
            decreases n - i,
        {
            let ch = input.get_char(i);
            self.advance(ch);
            proof {
                lemma_step_singleton(input@.take(i as int), ch);
                assert(input@.take(i as int).push(ch) =~= input@.take(i + 1));
            }
            if self.is_dead() {
                proof {
                    self.lemma_dead_sound(input@.take(i + 1), input@.skip(i + 1));
                    lemma_split_parts(input@, i + 1);
                }
                return false;
            }
            i = i + 1;
        }
        proof {
            assert(input@.take(n as int) =~= input@);
        }
        let r = self.accepts();
        proof {
            if r {
                let s = choose|s: Seq<char>| #[trigger] self.marks().contains(s) && self.lang(s);
                assert(s == input@);
            } else {
                assert(self.marks().contains(input@));
            }
        }
        r
    }
}

/// The early exit in [`Regex::is_match`] never changes the answer: once
/// `is_dead` reports a dead machine, consuming any further input `w` leaves
/// the tracked set without a single accepted string, so `accepts` would
/// still return false had the run continued to the end of the input.
pub proof fn lemma_short_circuit<R: Regex>(r: &R, w: Seq<char>)
    requires
        r.wf(),
        r.dead(),
    ensures
        !exists|s: Seq<char>| #[trigger] run_set(r.marks(), w).contains(s) && r.lang(s),
{
    lemma_run_set(r.marks(), w);
    if exists|s: Seq<char>| #[trigger] run_set(r.marks(), w).contains(s) && r.lang(s) {
        let t = choose|t: Seq<char>| #[trigger] run_set(r.marks(), w).contains(t) && r.lang(t);
        let s = choose|s: Seq<char>| #[trigger] r.marks().contains(s) && t == s + w;
        r.lemma_dead_sound(s, w);
    }
}

} // verus!
