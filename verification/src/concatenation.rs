//! The sequencing combinator.

use crate::matcher::Regex;
use crate::tracking::{
    lemma_concat_empty, lemma_concat_push, lemma_empty_seq, lemma_push_decompose, lemma_split_parts,
    step_set,
};
use vstd::prelude::*;

verus! {

/// The suffixes the second half of a concatenation must track, given the
/// tracked set `m` of the whole pattern: continuations `v` of some string
/// `u + v` in `m` whose prefix `u` is matched by the first half.  Every such
/// split point is tracked at once.
pub open spec fn tail_set<P: Regex>(first: &P, m: Set<Seq<char>>) -> Set<Seq<char>> {
    Set::new(
        |v: Seq<char>| exists|u: Seq<char>| first.lang(u) && m.contains(#[trigger] (u + v)),
    )
}

/// The tail set only depends on the first half's language, not its state.
proof fn lemma_tail_congruent<P: Regex>(a: &P, b: &P, m: Set<Seq<char>>)
    requires
        forall|s: Seq<char>| #[trigger] a.lang(s) == b.lang(s),
    ensures
        tail_set(a, m) == tail_set(b, m),
{
    assert forall|v: Seq<char>| tail_set(a, m).contains(v) implies tail_set(b, m).contains(v) by {
        let u = choose|u: Seq<char>| a.lang(u) && m.contains(#[trigger] (u + v));
        assert(b.lang(u) && m.contains(u + v));
    }
    assert forall|v: Seq<char>| tail_set(b, m).contains(v) implies tail_set(a, m).contains(v) by {
        let u = choose|u: Seq<char>| b.lang(u) && m.contains(#[trigger] (u + v));
        assert(a.lang(u) && m.contains(u + v));
    }
    assert(tail_set(a, m) =~= tail_set(b, m));
}

/// How the tail set changes when the empty string is added to the tracked
/// set: the empty suffix appears exactly when the first half accepts.
proof fn lemma_tail_seed<P: Regex>(first: &P, m: Set<Seq<char>>, seeded: bool)
    requires
        first.marks() == m.insert(Seq::<char>::empty()),
        seeded == exists|s: Seq<char>| #[trigger] first.marks().contains(s) && first.lang(s),
    ensures
        seeded ==> tail_set(first, m.insert(Seq::<char>::empty())) == tail_set(
            first,
            m,
        ).insert(Seq::<char>::empty()),
        !seeded ==> tail_set(first, m.insert(Seq::<char>::empty())) == tail_set(first, m),
{
    let me = m.insert(Seq::<char>::empty());
    assert forall|v: Seq<char>| tail_set(first, me).contains(v) implies tail_set(
        first,
        m,
    ).contains(v) || (seeded && v == Seq::<char>::empty()) by {
        let u = choose|u: Seq<char>| first.lang(u) && me.contains(#[trigger] (u + v));
        if m.contains(u + v) {
            assert(tail_set(first, m).contains(v));
        } else {
            assert((u + v).len() == 0);
            lemma_empty_seq(u);
            lemma_empty_seq(v);
            assert(first.marks().contains(u) && first.lang(u));
        }
    }
    assert forall|v: Seq<char>| tail_set(first, m).contains(v) implies tail_set(
        first,
        me,
    ).contains(v) by {
        let u = choose|u: Seq<char>| first.lang(u) && m.contains(#[trigger] (u + v));
        assert(me.contains(u + v));
    }
    if seeded {
        let s = choose|s: Seq<char>| #[trigger] first.marks().contains(s) && first.lang(s);
        lemma_concat_empty(s);
        assert(first.lang(s) && me.contains(s + Seq::<char>::empty()));
        assert(tail_set(first, me).contains(Seq::<char>::empty()));
        assert(tail_set(first, me) =~= tail_set(first, m).insert(Seq::<char>::empty()));
    } else {
        assert(tail_set(first, me) =~= tail_set(first, m));
    }
}

/// How the tail set changes when a character is consumed: old suffixes are
/// extended by the character, and the empty suffix appears exactly when the
/// first half accepts afterwards (a split point ending at this character).
proof fn lemma_tail_step<P: Regex>(first: &P, m: Set<Seq<char>>, ch: char, seeded: bool)
    requires
        first.marks() == step_set(m, ch),
        seeded == exists|s: Seq<char>| #[trigger] first.marks().contains(s) && first.lang(s),
    ensures
        seeded ==> tail_set(first, step_set(m, ch)) == step_set(
            tail_set(first, m),
            ch,
        ).insert(Seq::<char>::empty()),
        !seeded ==> tail_set(first, step_set(m, ch)) == step_set(tail_set(first, m), ch),
{
    let ms = step_set(m, ch);
    let ts = step_set(tail_set(first, m), ch);
    assert forall|v: Seq<char>| tail_set(first, ms).contains(v) implies ts.contains(v) || (seeded
        && v == Seq::<char>::empty()) by {
        let u = choose|u: Seq<char>| first.lang(u) && ms.contains(#[trigger] (u + v));
        let s0 = choose|s0: Seq<char>| #[trigger] m.contains(s0) && u + v == s0.push(ch);
        lemma_push_decompose(u, v, s0, ch);
        if v.len() == 0 {
            lemma_empty_seq(v);
            assert(first.marks().contains(u) && first.lang(u));
        } else {
            let v0 = v.drop_last();
            assert(first.lang(u) && m.contains(u + v0));
            assert(tail_set(first, m).contains(v0));
            assert(tail_set(first, m).contains(v0) && v == v0.push(ch));
            assert(ts.contains(v));
        }
    }
    assert forall|v: Seq<char>| ts.contains(v) implies tail_set(first, ms).contains(v) by {
        let v0 = choose|v0: Seq<char>|
            #[trigger] tail_set(first, m).contains(v0) && v == v0.push(ch);
        let u = choose|u: Seq<char>| first.lang(u) && m.contains(#[trigger] (u + v0));
        lemma_concat_push(u, v0, ch);
        assert(m.contains(u + v0) && (u + v) == (u + v0).push(ch));
        assert(ms.contains(u + v));
        assert(first.lang(u) && ms.contains(u + v));
    }
    if seeded {
        let s = choose|s: Seq<char>| #[trigger] first.marks().contains(s) && first.lang(s);
        lemma_concat_empty(s);
        assert(first.lang(s) && ms.contains(s + Seq::<char>::empty()));
        assert(tail_set(first, ms).contains(Seq::<char>::empty()));
        assert(tail_set(first, ms) =~= ts.insert(Seq::<char>::empty()));
    } else {
        assert(tail_set(first, ms) =~= ts);
    }
}

/// State for a concatenation: the first half sees exactly the operations the
/// whole pattern sees, while the second half is seeded with the empty string
/// at every position where the first half accepts, so that it tracks one
/// suffix per live split point.
#[derive(Clone)]
pub struct Cat<P: Regex, Q: Regex> {
    pub first: P,
    pub second: Q,
    pub marks: Ghost<Set<Seq<char>>>,
}

impl<P: Regex, Q: Regex> Cat<P, Q> {
    /// A fresh concatenation of `first` then `second`, tracking nothing.
    pub fn new(first: P, second: Q) -> (r: Cat<P, Q>)
        ensures
            forall|s: Seq<char>| #[trigger] r.lang(s) <==> exists|u: Seq<char>, v: Seq<char>|
                (#[trigger] first.lang(u)) && (#[trigger] second.lang(v)) && s == u + v,
    {
        let r = Cat { first, second, marks: Ghost(Set::empty()) };
        proof {
            assert forall|s: Seq<char>| #[trigger] r.lang(s) <==> exists|u: Seq<char>, v: Seq<char>|
                (#[trigger] first.lang(u)) && (#[trigger] second.lang(v)) && s == u + v by {
                if r.lang(s) {
                    let (u, v) = choose|u: Seq<char>, v: Seq<char>|
                        (#[trigger] r.first.lang(u)) && (#[trigger] r.second.lang(v)) && s == u + v;
                    assert(first.lang(u) && second.lang(v) && s == u + v);
                }
                if exists|u: Seq<char>, v: Seq<char>|
                    (#[trigger] first.lang(u)) && (#[trigger] second.lang(v)) && s == u + v {
                    let (u, v) = choose|u: Seq<char>, v: Seq<char>|
                        (#[trigger] first.lang(u)) && (#[trigger] second.lang(v)) && s == u + v;
                    assert(r.first.lang(u) && r.second.lang(v) && s == u + v);
                }
            }
        }
        r
    }
}

impl<P: Regex, Q: Regex> Regex for Cat<P, Q> {
    open spec fn wf(&self) -> bool {
        &&& self.first.wf()
        &&& self.second.wf()
        &&& self.first.marks() == self.marks@
        &&& self.second.marks() == tail_set(&self.first, self.marks@)
    }

    open spec fn marks(&self) -> Set<Seq<char>> {
        self.marks@
    }

    open spec fn lang(&self, s: Seq<char>) -> bool {
        exists|u: Seq<char>, v: Seq<char>|
            (#[trigger] self.first.lang(u)) && (#[trigger] self.second.lang(v)) && s == u + v
    }

    open spec fn dead(&self) -> bool {
        self.first.dead() && self.second.dead()
    }

    fn initialize(&mut self) {
        self.first.initialize();
        self.second.initialize();
        proof {
            self.marks = Ghost(Set::empty());
            assert(self.marks() == Set::<Seq<char>>::empty());
            assert(tail_set(&self.first, self.marks@) =~= Set::<Seq<char>>::empty()) by {
                assert forall|v: Seq<char>| !tail_set(&self.first, self.marks@).contains(v) by {
                    if tail_set(&self.first, self.marks@).contains(v) {
                        let u = choose|u: Seq<char>|
                            self.first.lang(u) && self.marks@.contains(#[trigger] (u + v));
                    }
                }
            }
            assert forall|s: Seq<char>| #[trigger] self.lang(s) == old(self).lang(s) by {
                if self.lang(s) {
                    let (u, v) = choose|u: Seq<char>, v: Seq<char>|
                        (#[trigger] self.first.lang(u)) && (#[trigger] self.second.lang(v)) && s
                            == u + v;
                    assert(old(self).first.lang(u) && old(self).second.lang(v) && s == u + v);
                }
                if old(self).lang(s) {
                    let (u, v) = choose|u: Seq<char>, v: Seq<char>|
                        (#[trigger] old(self).first.lang(u)) && (#[trigger] old(self).second.lang(
                            v,
                        )) && s == u + v;
                    assert(self.first.lang(u) && self.second.lang(v) && s == u + v);
                }
            }
        }
    }

    fn start(&mut self) {
        self.first.start();
        let seeded = self.first.accepts();
        if seeded {
            self.second.start();
        }
        proof {
            self.marks = Ghost(old(self).marks@.insert(Seq::empty()));
            assert(self.marks() == old(self).marks().insert(Seq::<char>::empty()));
            lemma_tail_congruent(&self.first, &old(self).first, old(self).marks@);
            lemma_tail_seed(&self.first, old(self).marks@, seeded);
            assert(self.second.marks() == tail_set(&self.first, self.marks@));
            assert forall|s: Seq<char>| #[trigger] self.lang(s) == old(self).lang(s) by {
                if self.lang(s) {
                    let (u, v) = choose|u: Seq<char>, v: Seq<char>|
                        (#[trigger] self.first.lang(u)) && (#[trigger] self.second.lang(v)) && s
                            == u + v;
                    assert(old(self).first.lang(u) && old(self).second.lang(v) && s == u + v);
                }
                if old(self).lang(s) {
                    let (u, v) = choose|u: Seq<char>, v: Seq<char>|
                        (#[trigger] old(self).first.lang(u)) && (#[trigger] old(self).second.lang(
                            v,
                        )) && s == u + v;
                    assert(self.first.lang(u) && self.second.lang(v) && s == u + v);
                }
            }
        }
    }

    fn advance(&mut self, ch: char) {
        self.second.advance(ch);
        self.first.advance(ch);
        let seeded = self.first.accepts();
        if seeded {
            self.second.start();
        }
        proof {
            self.marks = Ghost(step_set(old(self).marks@, ch));
            assert(self.marks() == step_set(old(self).marks(), ch));
            lemma_tail_congruent(&self.first, &old(self).first, old(self).marks@);
            lemma_tail_step(&self.first, old(self).marks@, ch, seeded);
            assert(self.second.marks() == tail_set(&self.first, self.marks@));
            if old(self).dead() && seeded {
                let s = choose|s: Seq<char>|
                    #[trigger] self.first.marks().contains(s) && self.first.lang(s);
                lemma_concat_empty(s);
                self.first.lemma_dead_sound(s, Seq::empty());
            }
            assert(old(self).dead() ==> self.dead());
            assert forall|s: Seq<char>| #[trigger] self.lang(s) == old(self).lang(s) by {
                if self.lang(s) {
                    let (u, v) = choose|u: Seq<char>, v: Seq<char>|
                        (#[trigger] self.first.lang(u)) && (#[trigger] self.second.lang(v)) && s
                            == u + v;
                    assert(old(self).first.lang(u) && old(self).second.lang(v) && s == u + v);
                }
                if old(self).lang(s) {
                    let (u, v) = choose|u: Seq<char>, v: Seq<char>|
                        (#[trigger] old(self).first.lang(u)) && (#[trigger] old(self).second.lang(
                            v,
                        )) && s == u + v;
                    assert(self.first.lang(u) && self.second.lang(v) && s == u + v);
                }
            }
        }
    }

    fn accepts(&self) -> (r: bool) {
        let r = self.second.accepts();
        proof {
            if r {
                let v = choose|v: Seq<char>|
                    #[trigger] self.second.marks().contains(v) && self.second.lang(v);
                let u = choose|u: Seq<char>|
                    self.first.lang(u) && self.marks@.contains(#[trigger] (u + v));
                assert(self.marks().contains(u + v) && self.lang(u + v)) by {
                    assert(self.first.lang(u) && self.second.lang(v) && (u + v) == u + v);
                }
            } else {
                assert forall|s: Seq<char>|
                    #[trigger] self.marks().contains(s) implies !self.lang(s) by {
                    if self.lang(s) {
                        let (u, v) = choose|u: Seq<char>, v: Seq<char>|
                            (#[trigger] self.first.lang(u)) && (#[trigger] self.second.lang(v))
                                && s == u + v;
                        assert(self.marks@.contains(u + v));
                        assert(tail_set(&self.first, self.marks@).contains(v));
                        assert(self.second.marks().contains(v) && self.second.lang(v));
                    }
                }
            }
            assert(r == exists|s: Seq<char>|
                #[trigger] self.marks().contains(s) && self.lang(s));
        }
        r
    }

    fn is_dead(&self) -> (r: bool) {
        let r = self.first.is_dead() && self.second.is_dead();
        proof {
            assert(r == self.dead());
        }
        r
    }

    proof fn lemma_dead_sound(&self, s: Seq<char>, w: Seq<char>) {
        if self.lang(s + w) {
            let (u, v) = choose|u: Seq<char>, v: Seq<char>|
                (#[trigger] self.first.lang(u)) && (#[trigger] self.second.lang(v)) && s + w == u
                    + v;
            if u.len() < s.len() {
                // The split point falls inside `s`: the suffix of `s` after
                // `u` is a tracked split point of the second half, and `w`
                // extends it to an accepted string, contradicting its death.
                let v1 = s.skip(u.len() as int);
                assert(u == s.take(u.len() as int)) by {
                    assert(u =~= s.take(u.len() as int)) by {
                        assert forall|i: int| 0 <= i < u.len() implies u[i] == s[i] by {
                            assert((u + v)[i] == (s + w)[i]);
                        }
                    }
                }
                lemma_split_parts(s, u.len() as int);
                assert(self.first.lang(u) && self.marks@.contains(u + v1));
                assert(tail_set(&self.first, self.marks@).contains(v1));
                assert(v == v1 + w) by {
                    assert((u + v).len() == (s + w).len());
                    assert(v =~= v1 + w) by {
                        assert forall|i: int| 0 <= i < v.len() implies v[i] == (v1 + w)[i] by {
                            assert((u + v)[u.len() + i] == (s + w)[u.len() + i]);
                            assert((u + v)[u.len() + i] == v[i]);
                            if i < v1.len() {
                                assert((s + w)[u.len() + i] == s[u.len() + i]);
                                assert(v1[i] == s[u.len() + i]);
                                assert((v1 + w)[i] == v1[i]);
                            } else {
                                assert((s + w)[u.len() + i] == w[u.len() + i - s.len()]);
                                assert((v1 + w)[i] == w[i - v1.len()]);
                            }
                        }
                    }
                }
                self.second.lemma_dead_sound(v1, w);
            } else {
                // The split point falls at or after the end of `s`: then `u`
                // itself extends the tracked string `s`, contradicting the
                // death of the first half.
                let w1 = u.skip(s.len() as int);
                assert(u == s + w1) by {
                    assert(u =~= s + w1) by {
                        assert forall|i: int| 0 <= i < u.len() implies u[i] == (s + w1)[i] by {
                            assert((u + v)[i] == (s + w)[i]);
                        }
                    }
                }
                assert(self.first.marks().contains(s));
                self.first.lemma_dead_sound(s, w1);
            }
        }
        assert(!self.lang(s + w));
    }
}

} // verus!
