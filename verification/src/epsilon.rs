//! The pattern that matches only the empty string.

use crate::matcher::Regex;
use crate::tracking::{lemma_empty_seq, lemma_step_no_empty, step_set};
use vstd::prelude::*;

verus! {

/// State for the empty-string pattern: one flag recording whether the empty
/// string is currently tracked.  Every other tracked string is irrelevant,
/// since appending characters can never produce the empty string again.
#[derive(Clone, Copy)]
pub struct Empty {
    pub empty: bool,
    pub marks: Ghost<Set<Seq<char>>>,
}

impl Empty {
    /// A fresh empty-string pattern, tracking nothing.
    pub fn new() -> (r: Empty)
        ensures
            r.wf(),
            r.marks() == Set::<Seq<char>>::empty(),
            forall|s: Seq<char>| #[trigger] r.lang(s) <==> s.len() == 0,
    {
        Empty { empty: false, marks: Ghost(Set::empty()) }
    }
}

impl Regex for Empty {
    open spec fn wf(&self) -> bool {
        self.empty == self.marks@.contains(Seq::<char>::empty())
    }

    open spec fn marks(&self) -> Set<Seq<char>> {
        self.marks@
    }

    open spec fn lang(&self, s: Seq<char>) -> bool {
        s.len() == 0
    }

    open spec fn dead(&self) -> bool {
        !self.empty
    }

    fn initialize(&mut self) {
        self.empty = false;
        proof {
            self.marks = Ghost(Set::empty());
            assert(self.marks() == Set::<Seq<char>>::empty());
        }
    }

    fn start(&mut self) {
        self.empty = true;
        proof {
            self.marks = Ghost(self.marks@.insert(Seq::empty()));
            assert(self.marks() == old(self).marks().insert(Seq::<char>::empty()));
        }
    }

    fn advance(&mut self, ch: char) {
        self.empty = false;
        proof {
            self.marks = Ghost(step_set(self.marks@, ch));
            lemma_step_no_empty(old(self).marks@, ch);
            assert(self.marks() == step_set(old(self).marks(), ch));
            assert(old(self).dead() ==> self.dead());
        }
    }

    fn accepts(&self) -> (r: bool) {
        let r = self.empty;
        proof {
            if r {
                assert(self.marks().contains(Seq::<char>::empty()) && self.lang(
                    Seq::<char>::empty(),
                ));
            } else {
                assert forall|s: Seq<char>|
                    #[trigger] self.marks().contains(s) implies !self.lang(s) by {
                    if s.len() == 0 {
                        lemma_empty_seq(s);
                    }
                }
            }
            assert(r == exists|s: Seq<char>|
                #[trigger] self.marks().contains(s) && self.lang(s));
        }
        r
    }

    fn is_dead(&self) -> (r: bool) {
        let r = !self.empty;
        proof {
            assert(r == self.dead());
        }
        r
    }

    proof fn lemma_dead_sound(&self, s: Seq<char>, w: Seq<char>) {
        if (s + w).len() == 0 {
            lemma_empty_seq(s);
        }
        assert(!self.lang(s + w));
    }
}

} // verus!
