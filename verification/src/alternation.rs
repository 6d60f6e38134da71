//! The union combinator.

use crate::matcher::Regex;
use crate::tracking::step_set;
use vstd::prelude::*;

verus! {

/// State for a union pattern: both branches are driven in lock-step, so each
/// child tracks exactly the strings the whole pattern tracks, and the union
/// accepts as soon as either child does.
#[derive(Clone)]
pub struct Alt<P: Regex, Q: Regex> {
    pub left: P,
    pub right: Q,
    pub marks: Ghost<Set<Seq<char>>>,
}

impl<P: Regex, Q: Regex> Alt<P, Q> {
    /// A fresh union pattern over `left` and `right`, tracking nothing.
    pub fn new(left: P, right: Q) -> (r: Alt<P, Q>)
        ensures
            forall|s: Seq<char>| #[trigger] r.lang(s) <==> left.lang(s) || right.lang(s),
    {
        Alt { left, right, marks: Ghost(Set::empty()) }
    }
}

impl<P: Regex, Q: Regex> Regex for Alt<P, Q> {
    open spec fn wf(&self) -> bool {
        &&& self.left.wf()
        &&& self.right.wf()
        &&& self.left.marks() == self.marks@
        &&& self.right.marks() == self.marks@
    }

    open spec fn marks(&self) -> Set<Seq<char>> {
        self.marks@
    }

    open spec fn lang(&self, s: Seq<char>) -> bool {
        self.left.lang(s) || self.right.lang(s)
    }

    open spec fn dead(&self) -> bool {
        self.left.dead() && self.right.dead()
    }

    fn initialize(&mut self) {
        self.left.initialize();
        self.right.initialize();
        proof {
            self.marks = Ghost(Set::empty());
            assert(self.marks() == Set::<Seq<char>>::empty());
            assert(forall|s: Seq<char>| #[trigger] self.lang(s) == old(self).lang(s));
        }
    }

    fn start(&mut self) {
        self.left.start();
        self.right.start();
        proof {
            self.marks = Ghost(self.marks@.insert(Seq::empty()));
            assert(self.marks() == old(self).marks().insert(Seq::<char>::empty()));
            assert(forall|s: Seq<char>| #[trigger] self.lang(s) == old(self).lang(s));
        }
    }

    fn advance(&mut self, ch: char) {
        self.left.advance(ch);
        self.right.advance(ch);
        proof {
            self.marks = Ghost(step_set(old(self).marks@, ch));
            assert(self.marks() == step_set(old(self).marks(), ch));
            assert(old(self).dead() ==> self.dead());
            assert(forall|s: Seq<char>| #[trigger] self.lang(s) == old(self).lang(s));
        }
    }

    fn accepts(&self) -> (r: bool) {
        let from_left = self.left.accepts();
        let from_right = self.right.accepts();
        let r = from_left || from_right;
        proof {
            if from_left {
                let s = choose|s: Seq<char>|
                    #[trigger] self.left.marks().contains(s) && self.left.lang(s);
                assert(self.marks().contains(s) && self.lang(s));
            }
            if from_right {
                let s = choose|s: Seq<char>|
                    #[trigger] self.right.marks().contains(s) && self.right.lang(s);
                assert(self.marks().contains(s) && self.lang(s));
            }
            if !r {
                assert forall|s: Seq<char>|
                    #[trigger] self.marks().contains(s) implies !self.lang(s) by {
                    assert(self.left.marks().contains(s));
                    assert(self.right.marks().contains(s));
                }
            }
            assert(r == exists|s: Seq<char>|
                #[trigger] self.marks().contains(s) && self.lang(s));
        }
        r
    }

    fn is_dead(&self) -> (r: bool) {
        let r = self.left.is_dead() && self.right.is_dead();
        proof {
            assert(r == self.dead());
        }
        r
    }

    proof fn lemma_dead_sound(&self, s: Seq<char>, w: Seq<char>) {
        assert(self.left.marks().contains(s));
        assert(self.right.marks().contains(s));
        self.left.lemma_dead_sound(s, w);
        self.right.lemma_dead_sound(s, w);
        assert(!self.lang(s + w));
    }
}

} // verus!
