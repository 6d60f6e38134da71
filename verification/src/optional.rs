//! The zero-or-one combinator.

use crate::matcher::Regex;
use crate::tracking::{lemma_empty_seq, lemma_step_no_empty, step_set};
use vstd::prelude::*;

verus! {

/// State for a zero-or-one pattern: `init` records whether the empty string
/// is tracked at this level (the "zero occurrences" branch), while the child
/// tracks the "one occurrence" branch.  The child sees exactly the same
/// operations as the whole pattern, so it tracks exactly the same strings.
#[derive(Clone)]
pub struct Maybe<P: Regex> {
    pub init: bool,
    pub state: P,
    pub marks: Ghost<Set<Seq<char>>>,
}

impl<P: Regex> Maybe<P> {
    /// A fresh zero-or-one pattern around `regex`, tracking nothing.
    pub fn new(regex: P) -> (r: Maybe<P>)
        ensures
            forall|s: Seq<char>| #[trigger] r.lang(s) <==> s.len() == 0 || regex.lang(s),
    {
        Maybe { init: false, state: regex, marks: Ghost(Set::empty()) }
    }
}

impl<P: Regex> Regex for Maybe<P> {
    open spec fn wf(&self) -> bool {
        &&& self.state.wf()
        &&& self.state.marks() == self.marks@
        &&& self.init == self.marks@.contains(Seq::<char>::empty())
    }

    open spec fn marks(&self) -> Set<Seq<char>> {
        self.marks@
    }

    open spec fn lang(&self, s: Seq<char>) -> bool {
        s.len() == 0 || self.state.lang(s)
    }

    open spec fn dead(&self) -> bool {
        !self.init && self.state.dead()
    }

    fn initialize(&mut self) {
        self.init = false;
        self.state.initialize();
        proof {
            self.marks = Ghost(Set::empty());
            assert(self.marks() == Set::<Seq<char>>::empty());
            assert(forall|s: Seq<char>| #[trigger] self.lang(s) == old(self).lang(s));
        }
    }

    fn start(&mut self) {
        self.init = true;
        self.state.start();
        proof {
            self.marks = Ghost(self.marks@.insert(Seq::empty()));
            assert(self.marks() == old(self).marks().insert(Seq::<char>::empty()));
            assert(forall|s: Seq<char>| #[trigger] self.lang(s) == old(self).lang(s));
        }
    }

    fn advance(&mut self, ch: char) {
        self.init = false;
        self.state.advance(ch);
        proof {
            self.marks = Ghost(step_set(old(self).marks@, ch));
            lemma_step_no_empty(old(self).marks@, ch);
            assert(self.marks() == step_set(old(self).marks(), ch));
            assert(old(self).dead() ==> self.dead());
            assert(forall|s: Seq<char>| #[trigger] self.lang(s) == old(self).lang(s));
        }
    }

    fn accepts(&self) -> (r: bool) {
        let from_child = self.state.accepts();
        let r = self.init || from_child;
        proof {
            if self.init {
                assert(self.marks().contains(Seq::<char>::empty()) && self.lang(
                    Seq::<char>::empty(),
                ));
            }
            if from_child {
                let s = choose|s: Seq<char>|
                    #[trigger] self.state.marks().contains(s) && self.state.lang(s);
                assert(self.marks().contains(s) && self.lang(s));
            }
            if !r {
                assert forall|s: Seq<char>|
                    #[trigger] self.marks().contains(s) implies !self.lang(s) by {
                    if s.len() == 0 {
                        lemma_empty_seq(s);
                    }
                    assert(self.state.marks().contains(s));
                }
            }
            assert(r == exists|s: Seq<char>|
                #[trigger] self.marks().contains(s) && self.lang(s));
        }
        r
    }

    fn is_dead(&self) -> (r: bool) {
        let r = !self.init && self.state.is_dead();
        proof {
            assert(r == self.dead());
        }
        r
    }

    proof fn lemma_dead_sound(&self, s: Seq<char>, w: Seq<char>) {
        if (s + w).len() == 0 {
            lemma_empty_seq(s);
        }
        assert(self.state.marks().contains(s));
        self.state.lemma_dead_sound(s, w);
        assert(!self.lang(s + w));
    }
}

} // verus!
