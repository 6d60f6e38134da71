//! Patterns that match exactly one character, chosen by a predicate.

use crate::matcher::Regex;
use crate::tracking::{lemma_empty_seq, lemma_step_no_empty, step_set};
use vstd::prelude::*;

verus! {

/// A test on a single character.
pub trait Predicate: Copy + Sized {
    /// Which characters the predicate holds of.
    spec fn holds(&self, ch: char) -> bool;

    /// Decide the predicate.
    fn matches(&self, ch: char) -> (r: bool)
        ensures
            r == self.holds(ch),
    ;
}

/// Holds of every character.
#[derive(Clone, Copy)]
pub struct Dot;

impl Predicate for Dot {
    open spec fn holds(&self, ch: char) -> bool {
        true
    }

    fn matches(&self, ch: char) -> (r: bool) {
        let r = true;
        proof {
            assert(r == self.holds(ch));
        }
        r
    }
}

/// Holds of one specific character.
#[derive(Clone, Copy)]
pub struct Char(pub char);

impl Predicate for Char {
    open spec fn holds(&self, ch: char) -> bool {
        self.0 == ch
    }

    fn matches(&self, ch: char) -> (r: bool) {
        let r = self.0 == ch;
        proof {
            assert(r == self.holds(ch));
        }
        r
    }
}

/// Holds of every character in an inclusive code-point range.  An inverted
/// range holds of no character at all.
#[derive(Clone, Copy)]
pub struct CharRange(pub char, pub char);

impl Predicate for CharRange {
    open spec fn holds(&self, ch: char) -> bool {
        self.0 as u32 <= ch as u32 && ch as u32 <= self.1 as u32
    }

    fn matches(&self, ch: char) -> (r: bool) {
        let r = self.0 as u32 <= ch as u32 && ch as u32 <= self.1 as u32;
        proof {
            assert(r == self.holds(ch));
        }
        r
    }
}

/// The four-valued state of a single-character pattern: whether the empty
/// string and a just-matched character are currently tracked.  No further
/// history matters, because the pattern only ever accepts strings of length
/// one, and a tracked string only grows.
#[derive(Clone, Copy)]
pub enum SimpleState {
    Start,
    End,
    Both,
    Neither,
}

/// Does the state record the empty string as tracked?
pub open spec fn has_start(st: SimpleState) -> bool {
    match st {
        SimpleState::Start | SimpleState::Both => true,
        SimpleState::End | SimpleState::Neither => false,
    }
}

/// Does the state record an accepted one-character string as tracked?
pub open spec fn has_end(st: SimpleState) -> bool {
    match st {
        SimpleState::End | SimpleState::Both => true,
        SimpleState::Start | SimpleState::Neither => false,
    }
}

/// Is some string of `m` a single character that `pred` holds of?
pub open spec fn hit_tracked<P: Predicate>(pred: P, m: Set<Seq<char>>) -> bool {
    exists|s: Seq<char>| #[trigger] m.contains(s) && s.len() == 1 && pred.holds(s[0])
}

/// A single-character pattern: a predicate together with its running state.
#[derive(Clone, Copy)]
pub struct SingleChar<P: Predicate> {
    pub predicate: P,
    pub state: SimpleState,
    pub marks: Ghost<Set<Seq<char>>>,
}

impl<P: Predicate> SingleChar<P> {
    /// A fresh single-character pattern, tracking nothing.
    pub fn new(predicate: P) -> (r: SingleChar<P>)
        ensures
            r.wf(),
            r.marks() == Set::<Seq<char>>::empty(),
            forall|s: Seq<char>| #[trigger] r.lang(s) <==> s.len() == 1 && predicate.holds(s[0]),
    {
        SingleChar { predicate, state: SimpleState::Neither, marks: Ghost(Set::empty()) }
    }

    /// Bridge between the two-bit state and the trait-level acceptance
    /// formula.
    proof fn lemma_hit_is_accepting(&self)
        ensures
            hit_tracked(self.predicate, self.marks@) == exists|s: Seq<char>|
                #[trigger] self.marks().contains(s) && self.lang(s),
    {
        if hit_tracked(self.predicate, self.marks@) {
            let s = choose|s: Seq<char>|
                #[trigger] self.marks@.contains(s) && s.len() == 1 && self.predicate.holds(s[0]);
            assert(self.marks().contains(s) && self.lang(s));
        }
        if exists|s: Seq<char>| #[trigger] self.marks().contains(s) && self.lang(s) {
            let s = choose|s: Seq<char>| #[trigger] self.marks().contains(s) && self.lang(s);
            assert(self.marks@.contains(s) && s.len() == 1 && self.predicate.holds(s[0]));
        }
    }
}

impl<P: Predicate> Regex for SingleChar<P> {
    open spec fn wf(&self) -> bool {
        &&& has_start(self.state) == self.marks@.contains(Seq::<char>::empty())
        &&& has_end(self.state) == hit_tracked(self.predicate, self.marks@)
    }

    open spec fn marks(&self) -> Set<Seq<char>> {
        self.marks@
    }

    open spec fn lang(&self, s: Seq<char>) -> bool {
        s.len() == 1 && self.predicate.holds(s[0])
    }

    open spec fn dead(&self) -> bool {
        !has_start(self.state) && !has_end(self.state)
    }

    fn initialize(&mut self) {
        self.state = SimpleState::Neither;
        proof {
            self.marks = Ghost(Set::empty());
            assert(self.marks() == Set::<Seq<char>>::empty());
            if hit_tracked(self.predicate, self.marks@) {
                let s = choose|s: Seq<char>|
                    #[trigger] self.marks@.contains(s) && s.len() == 1 && self.predicate.holds(
                        s[0],
                    );
            }
            assert(self.wf());
        }
    }

    fn start(&mut self) {
        self.state = match self.state {
            SimpleState::Neither | SimpleState::Start => SimpleState::Start,
            SimpleState::Both | SimpleState::End => SimpleState::Both,
        };
        proof {
            self.marks = Ghost(self.marks@.insert(Seq::empty()));
            assert(self.marks() == old(self).marks().insert(Seq::<char>::empty()));
            // Adding the empty string never adds an accepted string, since
            // accepted strings have length one.
            assert(hit_tracked(self.predicate, self.marks@) == hit_tracked(
                self.predicate,
                old(self).marks@,
            )) by {
                if hit_tracked(self.predicate, self.marks@) {
                    let s = choose|s: Seq<char>|
                        #[trigger] self.marks@.contains(s) && s.len() == 1
                            && self.predicate.holds(s[0]);
                    assert(old(self).marks@.contains(s));
                }
                if hit_tracked(self.predicate, old(self).marks@) {
                    let s = choose|s: Seq<char>|
                        #[trigger] old(self).marks@.contains(s) && s.len() == 1
                            && self.predicate.holds(s[0]);
                    assert(self.marks@.contains(s));
                }
            }
            assert(self.wf());
        }
    }

    fn advance(&mut self, ch: char) {
        if self.predicate.matches(ch) {
            self.state = match self.state {
                SimpleState::Neither | SimpleState::End => SimpleState::Neither,
                SimpleState::Both | SimpleState::Start => SimpleState::End,
            };
        } else {
            self.state = SimpleState::Neither;
        }
        proof {
            self.marks = Ghost(step_set(old(self).marks@, ch));
            lemma_step_no_empty(old(self).marks@, ch);
            assert(self.marks() == step_set(old(self).marks(), ch));
            // An accepted string is tracked now iff the character matched
            // and the empty string was tracked before.
            assert(hit_tracked(self.predicate, self.marks@) == (self.predicate.holds(ch) && old(
                self,
            ).marks@.contains(Seq::<char>::empty()))) by {
                if hit_tracked(self.predicate, self.marks@) {
                    let s = choose|s: Seq<char>|
                        #[trigger] self.marks@.contains(s) && s.len() == 1
                            && self.predicate.holds(s[0]);
                    let s0 = choose|s0: Seq<char>|
                        #[trigger] old(self).marks@.contains(s0) && s == s0.push(ch);
                    lemma_empty_seq(s0);
                }
                if self.predicate.holds(ch) && old(self).marks@.contains(Seq::<char>::empty()) {
                    let t = Seq::<char>::empty().push(ch);
                    assert(old(self).marks@.contains(Seq::<char>::empty()) && t
                        == Seq::<char>::empty().push(ch));
                    assert(self.marks@.contains(t) && t.len() == 1 && self.predicate.holds(t[0]));
                }
            }
            assert(self.wf());
            assert(old(self).dead() ==> self.dead());
        }
    }

    fn accepts(&self) -> (r: bool) {
        let r = match self.state {
            SimpleState::End | SimpleState::Both => true,
            SimpleState::Start | SimpleState::Neither => false,
        };
        proof {
            self.lemma_hit_is_accepting();
            assert(r == exists|s: Seq<char>|
                #[trigger] self.marks().contains(s) && self.lang(s));
        }
        r
    }

    fn is_dead(&self) -> (r: bool) {
        let r = match self.state {
            SimpleState::Neither => true,
            _ => false,
        };
        proof {
            assert(r == self.dead());
        }
        r
    }

    proof fn lemma_dead_sound(&self, s: Seq<char>, w: Seq<char>) {
        if self.lang(s + w) {
            if s.len() == 0 {
                lemma_empty_seq(s);
                assert(self.marks@.contains(Seq::<char>::empty()));
            } else {
                assert((s + w).len() == 1);
                assert(w.len() == 0);
                assert(s + w == s) by {
                    assert(s + w =~= s);
                }
                assert(self.marks@.contains(s) && s.len() == 1 && self.predicate.holds(s[0]));
                assert(hit_tracked(self.predicate, self.marks@));
            }
        }
        assert(!self.lang(s + w));
    }
}

} // verus!
