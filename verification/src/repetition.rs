//! The zero-or-more (Kleene closure) combinator.

use crate::matcher::Regex;
use crate::tracking::{
    lemma_concat_assoc, lemma_concat_empty, lemma_concat_parts, lemma_concat_push, lemma_empty_seq,
    lemma_push_decompose, lemma_split_parts, lemma_step_no_empty, step_set,
};
use vstd::prelude::*;

verus! {

/// The language of zero or more consecutive matches of `child`: a string
/// belongs to it iff it is empty or has a non-empty prefix matched by
/// `child` whose remainder again belongs to the language.
pub open spec fn star_lang<P: Regex>(child: &P, s: Seq<char>) -> bool
    decreases s.len(),
{
    s.len() == 0 || exists|i: int|
        0 < i <= s.len() && child.lang(#[trigger] s.take(i)) && star_lang(child, s.skip(i))
}

/// The star language only depends on the child's language, not its state.
pub proof fn lemma_star_congruent<P: Regex>(a: &P, b: &P, s: Seq<char>)
    requires
        forall|t: Seq<char>| #[trigger] a.lang(t) == b.lang(t),
    ensures
        star_lang(a, s) == star_lang(b, s),
    decreases s.len(),
{
    if s.len() > 0 {
        if star_lang(a, s) {
            let i = choose|i: int|
                0 < i <= s.len() && a.lang(#[trigger] s.take(i)) && star_lang(a, s.skip(i));
            lemma_star_congruent(a, b, s.skip(i));
            assert(b.lang(s.take(i)) && star_lang(b, s.skip(i)));
        }
        if star_lang(b, s) {
            let i = choose|i: int|
                0 < i <= s.len() && b.lang(#[trigger] s.take(i)) && star_lang(b, s.skip(i));
            lemma_star_congruent(a, b, s.skip(i));
            assert(a.lang(s.take(i)) && star_lang(a, s.skip(i)));
        }
    }
}

/// A child match followed by a star match is a star match.
pub proof fn lemma_star_cons<P: Regex>(child: &P, x: Seq<char>, y: Seq<char>)
    requires
        child.lang(x),
        star_lang(child, y),
    ensures
        star_lang(child, x + y),
{
    if x.len() == 0 {
        lemma_empty_seq(x);
        lemma_concat_empty(y);
        assert(x + y == y);
    } else {
        let i = x.len() as int;
        lemma_concat_parts(x, y);
        assert(child.lang((x + y).take(i)) && star_lang(child, (x + y).skip(i)));
    }
}

/// A star match followed by a child match is a star match.
pub proof fn lemma_star_append<P: Regex>(child: &P, u: Seq<char>, v: Seq<char>)
    requires
        star_lang(child, u),
        child.lang(v),
    ensures
        star_lang(child, u + v),
    decreases u.len(),
{
    if u.len() == 0 {
        lemma_empty_seq(u);
        lemma_concat_empty(v);
        assert(star_lang(child, v)) by {
            if v.len() > 0 {
                let i = v.len() as int;
                assert(v.take(i) =~= v);
                assert(v.skip(i) =~= Seq::<char>::empty());
                assert(child.lang(v.take(i)) && star_lang(child, v.skip(i)));
            }
        }
        assert(u + v == v);
    } else {
        let i = choose|i: int|
            0 < i <= u.len() && child.lang(#[trigger] u.take(i)) && star_lang(child, u.skip(i));
        lemma_star_append(child, u.skip(i), v);
        lemma_star_cons(child, u.take(i), u.skip(i) + v);
        lemma_split_parts(u, i);
        lemma_concat_assoc(u.take(i), u.skip(i), v);
        assert(u.take(i) + (u.skip(i) + v) == u + v);
    }
}

/// A non-empty star match ends in a non-empty child match, preceded by a
/// star match.
pub proof fn lemma_star_last<P: Regex>(child: &P, s: Seq<char>)
    requires
        star_lang(child, s),
        s.len() > 0,
    ensures
        exists|u: Seq<char>, v: Seq<char>|
            v.len() > 0 && s == u + v && (#[trigger] star_lang(child, u)) && (#[trigger] child.lang(
                v,
            )),
    decreases s.len(),
{
    let i = choose|i: int|
        0 < i <= s.len() && child.lang(#[trigger] s.take(i)) && star_lang(child, s.skip(i));
    lemma_split_parts(s, i);
    if s.skip(i).len() == 0 {
        lemma_empty_seq(s.skip(i));
        lemma_concat_empty(s.take(i));
        assert(s.take(i) == s);
        assert(star_lang(child, Seq::<char>::empty()));
        assert(Seq::<char>::empty() + s =~= s);
        assert(s.len() > 0 && s == Seq::<char>::empty() + s && star_lang(
            child,
            Seq::<char>::empty(),
        ) && child.lang(s));
    } else {
        lemma_star_last(child, s.skip(i));
        let (u1, v1) = choose|u1: Seq<char>, v1: Seq<char>|
            v1.len() > 0 && s.skip(i) == u1 + v1 && (#[trigger] star_lang(child, u1)) && (
            #[trigger] child.lang(v1));
        lemma_star_cons(child, s.take(i), u1);
        lemma_concat_assoc(s.take(i), u1, v1);
        assert(s == (s.take(i) + u1) + v1);
        assert(v1.len() > 0 && s == (s.take(i) + u1) + v1 && star_lang(child, s.take(i) + u1)
            && child.lang(v1));
    }
}

/// A string partitioned into consecutive pieces, each matched by the child,
/// is a star match.  Together with [`lemma_match_pieces`] this says the star
/// language is exactly the set of concatenations of zero or more child
/// matches; in particular the empty string always belongs to it.
pub proof fn lemma_pieces_match<P: Regex>(child: &P, pieces: Seq<Seq<char>>)
    requires
        forall|j: int| 0 <= j < pieces.len() ==> child.lang(#[trigger] pieces[j]),
    ensures
        star_lang(child, pieces.flatten()),
    decreases pieces.len(),
{
    if pieces.len() == 0 {
        assert(pieces.flatten() == Seq::<char>::empty());
    } else {
        assert(pieces.flatten() == pieces.first() + pieces.drop_first().flatten());
        assert forall|j: int| 0 <= j < pieces.drop_first().len() implies child.lang(
            #[trigger] pieces.drop_first()[j],
        ) by {
            assert(pieces.drop_first()[j] == pieces[j + 1]);
        }
        lemma_pieces_match(child, pieces.drop_first());
        lemma_star_cons(child, pieces.first(), pieces.drop_first().flatten());
    }
}

/// A star match can be partitioned into consecutive pieces, each matched by
/// the child.  The converse direction of [`lemma_pieces_match`].
pub proof fn lemma_match_pieces<P: Regex>(child: &P, s: Seq<char>)
    requires
        star_lang(child, s),
    ensures
        exists|pieces: Seq<Seq<char>>|
            (#[trigger] pieces.flatten()) == s && forall|j: int|
                0 <= j < pieces.len() ==> child.lang(#[trigger] pieces[j]),
    decreases s.len(),
{
    if s.len() == 0 {
        let pieces = Seq::<Seq<char>>::empty();
        lemma_empty_seq(s);
        assert(pieces.flatten() == s && forall|j: int|
            0 <= j < pieces.len() ==> child.lang(#[trigger] pieces[j]));
    } else {
        let i = choose|i: int|
            0 < i <= s.len() && child.lang(#[trigger] s.take(i)) && star_lang(child, s.skip(i));
        lemma_match_pieces(child, s.skip(i));
        let rest = choose|rest: Seq<Seq<char>>|
            (#[trigger] rest.flatten()) == s.skip(i) && forall|j: int|
                0 <= j < rest.len() ==> child.lang(#[trigger] rest[j]);
        let pieces = rest.insert(0, s.take(i));
        assert(pieces.drop_first() =~= rest);
        assert(pieces.first() == s.take(i));
        assert(pieces.flatten() == s.take(i) + s.skip(i));
        lemma_split_parts(s, i);
        assert forall|j: int| 0 <= j < pieces.len() implies child.lang(#[trigger] pieces[j]) by {
            if j > 0 {
                assert(pieces[j] == rest[j - 1]);
            }
        }
        assert(pieces.flatten() == s && forall|j: int|
            0 <= j < pieces.len() ==> child.lang(#[trigger] pieces[j]));
    }
}

/// The suffixes the child of a star must track, given the tracked set `m` of
/// the whole pattern: continuations `v` of some string `u + v` in `m` whose
/// prefix `u` consists of complete repetitions.  The child simulates the
/// current, possibly incomplete, repetition for every such restart point.
pub open spec fn loop_set<P: Regex>(child: &P, m: Set<Seq<char>>) -> Set<Seq<char>> {
    Set::new(
        |v: Seq<char>| exists|u: Seq<char>| star_lang(child, u) && m.contains(#[trigger] (u + v)),
    )
}

/// The loop set only depends on the child's language, not its state.
proof fn lemma_loop_congruent<P: Regex>(a: &P, b: &P, m: Set<Seq<char>>)
    requires
        forall|t: Seq<char>| #[trigger] a.lang(t) == b.lang(t),
    ensures
        loop_set(a, m) == loop_set(b, m),
{
    assert forall|v: Seq<char>| loop_set(a, m).contains(v) implies loop_set(b, m).contains(v) by {
        let u = choose|u: Seq<char>| star_lang(a, u) && m.contains(#[trigger] (u + v));
        lemma_star_congruent(a, b, u);
        assert(star_lang(b, u) && m.contains(u + v));
    }
    assert forall|v: Seq<char>| loop_set(b, m).contains(v) implies loop_set(a, m).contains(v) by {
        let u = choose|u: Seq<char>| star_lang(b, u) && m.contains(#[trigger] (u + v));
        lemma_star_congruent(a, b, u);
        assert(star_lang(a, u) && m.contains(u + v));
    }
    assert(loop_set(a, m) =~= loop_set(b, m));
}

/// How the loop set changes when the empty string is added to the tracked
/// set: the empty suffix always appears, seeding a fresh repetition.
proof fn lemma_loop_seed<P: Regex>(child: &P, m: Set<Seq<char>>)
    ensures
        loop_set(child, m.insert(Seq::<char>::empty())) == loop_set(
            child,
            m,
        ).insert(Seq::<char>::empty()),
{
    let me = m.insert(Seq::<char>::empty());
    assert forall|v: Seq<char>| loop_set(child, me).contains(v) implies loop_set(
        child,
        m,
    ).insert(Seq::<char>::empty()).contains(v) by {
        let u = choose|u: Seq<char>| star_lang(child, u) && me.contains(#[trigger] (u + v));
        if m.contains(u + v) {
            assert(loop_set(child, m).contains(v));
        } else {
            assert((u + v).len() == 0);
            lemma_empty_seq(v);
        }
    }
    assert forall|v: Seq<char>| loop_set(child, m).contains(v) implies loop_set(
        child,
        me,
    ).contains(v) by {
        let u = choose|u: Seq<char>| star_lang(child, u) && m.contains(#[trigger] (u + v));
        assert(star_lang(child, u) && me.contains(u + v));
    }
    assert(loop_set(child, me).contains(Seq::<char>::empty())) by {
        lemma_concat_empty(Seq::<char>::empty());
        assert(star_lang(child, Seq::<char>::empty()) && me.contains(
            Seq::<char>::empty() + Seq::<char>::empty(),
        ));
    }
    assert(loop_set(child, me) =~= loop_set(child, m).insert(Seq::<char>::empty()));
}

/// How the loop set changes when a character is consumed: old suffixes are
/// extended by the character, and the empty suffix appears exactly when the
/// child accepts afterwards, restarting the loop at this position.
proof fn lemma_loop_step<P: Regex>(child: &P, m: Set<Seq<char>>, ch: char, seeded: bool)
    requires
        child.marks() == step_set(loop_set(child, m), ch),
        seeded == exists|v: Seq<char>| #[trigger] child.marks().contains(v) && child.lang(v),
    ensures
        seeded ==> loop_set(child, step_set(m, ch)) == step_set(
            loop_set(child, m),
            ch,
        ).insert(Seq::<char>::empty()),
        !seeded ==> loop_set(child, step_set(m, ch)) == step_set(loop_set(child, m), ch),
{
    let ms = step_set(m, ch);
    let ls = step_set(loop_set(child, m), ch);
    assert forall|v: Seq<char>| loop_set(child, ms).contains(v) implies ls.contains(v) || (seeded
        && v == Seq::<char>::empty()) by {
        let u = choose|u: Seq<char>| star_lang(child, u) && ms.contains(#[trigger] (u + v));
        let s0 = choose|s0: Seq<char>| #[trigger] m.contains(s0) && u + v == s0.push(ch);
        lemma_push_decompose(u, v, s0, ch);
        if v.len() == 0 {
            lemma_empty_seq(v);
            // The whole pushed string consists of complete repetitions, so
            // its last repetition witnesses that the child accepts.
            assert(u.len() > 0);
            lemma_star_last(child, u);
            let (u1, u2) = choose|u1: Seq<char>, u2: Seq<char>|
                u2.len() > 0 && u == u1 + u2 && (#[trigger] star_lang(child, u1)) && (
                #[trigger] child.lang(u2));
            lemma_push_decompose(u1, u2, s0, ch);
            let u2d = u2.drop_last();
            assert(star_lang(child, u1) && m.contains(u1 + u2d));
            assert(loop_set(child, m).contains(u2d));
            assert(loop_set(child, m).contains(u2d) && u2 == u2d.push(ch));
            assert(child.marks().contains(u2) && child.lang(u2));
        } else {
            let v0 = v.drop_last();
            assert(star_lang(child, u) && m.contains(u + v0));
            assert(loop_set(child, m).contains(v0));
            assert(loop_set(child, m).contains(v0) && v == v0.push(ch));
            assert(ls.contains(v));
        }
    }
    assert forall|v: Seq<char>| ls.contains(v) implies loop_set(child, ms).contains(v) by {
        let v0 = choose|v0: Seq<char>|
            #[trigger] loop_set(child, m).contains(v0) && v == v0.push(ch);
        let u = choose|u: Seq<char>| star_lang(child, u) && m.contains(#[trigger] (u + v0));
        lemma_concat_push(u, v0, ch);
        assert(m.contains(u + v0) && (u + v) == (u + v0).push(ch));
        assert(ms.contains(u + v));
        assert(star_lang(child, u) && ms.contains(u + v));
    }
    if seeded {
        let v1 = choose|v1: Seq<char>| #[trigger] child.marks().contains(v1) && child.lang(v1);
        let v0 = choose|v0: Seq<char>|
            #[trigger] loop_set(child, m).contains(v0) && v1 == v0.push(ch);
        let u = choose|u: Seq<char>| star_lang(child, u) && m.contains(#[trigger] (u + v0));
        lemma_star_append(child, u, v1);
        lemma_concat_push(u, v0, ch);
        lemma_concat_empty(u + v1);
        assert(ms.contains(u + v1)) by {
            assert(m.contains(u + v0) && (u + v1) == (u + v0).push(ch));
        }
        assert(loop_set(child, ms).contains(Seq::<char>::empty())) by {
            assert(star_lang(child, u + v1) && ms.contains((u + v1) + Seq::<char>::empty()));
        }
        assert(loop_set(child, ms) =~= ls.insert(Seq::<char>::empty()));
    } else {
        assert(loop_set(child, ms) =~= ls);
    }
}

/// State for a star pattern: `init` records whether the empty string is
/// tracked at this level, standing both for "zero repetitions so far" and
/// for "a fresh repetition could start here"; the child simulates the
/// current repetition for every live restart point, and is re-seeded each
/// time it completes one.
#[derive(Clone)]
pub struct Star<P: Regex> {
    pub init: bool,
    pub state: P,
    pub marks: Ghost<Set<Seq<char>>>,
}

impl<P: Regex> Star<P> {
    /// A fresh star pattern around `regex`, tracking nothing.
    pub fn new(regex: P) -> (r: Star<P>)
        ensures
            forall|s: Seq<char>| #[trigger] r.lang(s) == star_lang(&regex, s),
    {
        let r = Star { init: false, state: regex, marks: Ghost(Set::empty()) };
        proof {
            assert forall|s: Seq<char>| #[trigger] r.lang(s) == star_lang(&regex, s) by {
                lemma_star_congruent(&r.state, &regex, s);
            }
        }
        r
    }
}

impl<P: Regex> Regex for Star<P> {
    open spec fn wf(&self) -> bool {
        &&& self.state.wf()
        &&& self.state.marks() == loop_set(&self.state, self.marks@)
        &&& (self.marks@.contains(Seq::<char>::empty()) ==> self.init)
        &&& (self.init ==> self.marks@.contains(Seq::<char>::empty()) || exists|v: Seq<char>|
            #[trigger] self.state.marks().contains(v) && self.state.lang(v))
    }

    open spec fn marks(&self) -> Set<Seq<char>> {
        self.marks@
    }

    open spec fn lang(&self, s: Seq<char>) -> bool {
        star_lang(&self.state, s)
    }

    open spec fn dead(&self) -> bool {
        !self.init && self.state.dead()
    }

    fn initialize(&mut self) {
        self.init = false;
        self.state.initialize();
        proof {
            self.marks = Ghost(Set::empty());
            assert(self.marks() == Set::<Seq<char>>::empty());
            assert(loop_set(&self.state, self.marks@) =~= Set::<Seq<char>>::empty()) by {
                assert forall|v: Seq<char>| !loop_set(&self.state, self.marks@).contains(v) by {
                    if loop_set(&self.state, self.marks@).contains(v) {
                        let u = choose|u: Seq<char>|
                            star_lang(&self.state, u) && self.marks@.contains(#[trigger] (u + v));
                    }
                }
            }
            assert forall|s: Seq<char>| #[trigger] self.lang(s) == old(self).lang(s) by {
                lemma_star_congruent(&self.state, &old(self).state, s);
            }
        }
    }

    fn start(&mut self) {
        self.init = true;
        self.state.start();
        proof {
            self.marks = Ghost(old(self).marks@.insert(Seq::empty()));
            assert(self.marks() == old(self).marks().insert(Seq::<char>::empty()));
            lemma_loop_congruent(&self.state, &old(self).state, old(self).marks@);
            lemma_loop_seed(&self.state, old(self).marks@);
            assert(self.state.marks() == loop_set(&self.state, self.marks@));
            assert forall|s: Seq<char>| #[trigger] self.lang(s) == old(self).lang(s) by {
                lemma_star_congruent(&self.state, &old(self).state, s);
            }
        }
    }

    fn advance(&mut self, ch: char) {
        self.init = false;
        self.state.advance(ch);
        let seeded = self.state.accepts();
        proof {
            self.marks = Ghost(step_set(old(self).marks@, ch));
            lemma_step_no_empty(old(self).marks@, ch);
            lemma_loop_congruent(&self.state, &old(self).state, old(self).marks@);
            lemma_loop_step(&self.state, old(self).marks@, ch, seeded);
            if old(self).dead() && seeded {
                // A dead child cannot accept, so the loop is not re-seeded.
                let v = choose|v: Seq<char>|
                    #[trigger] self.state.marks().contains(v) && self.state.lang(v);
                lemma_concat_empty(v);
                self.state.lemma_dead_sound(v, Seq::empty());
            }
        }
        if seeded {
            self.init = true;
            let ghost mid = self.state;
            self.state.start();
            proof {
                lemma_loop_congruent(&self.state, &mid, old(self).marks@);
                lemma_loop_congruent(&self.state, &mid, self.marks@);
                assert(self.state.marks() == loop_set(&self.state, self.marks@));
                // The accepted repetition stays tracked after the re-seed.
                let v = choose|v: Seq<char>| #[trigger] mid.marks().contains(v) && mid.lang(v);
                assert(self.state.marks().contains(v) && self.state.lang(v));
            }
        }
        proof {
            assert(self.marks() == step_set(old(self).marks(), ch));
            assert(self.state.marks() == loop_set(&self.state, self.marks@));
            assert(old(self).dead() ==> self.dead());
            assert forall|s: Seq<char>| #[trigger] self.lang(s) == old(self).lang(s) by {
                lemma_star_congruent(&self.state, &old(self).state, s);
            }
            assert(self.wf());
        }
    }

    fn accepts(&self) -> (r: bool) {
        let from_child = self.state.accepts();
        let r = self.init || from_child;
        proof {
            if self.init && !from_child {
                // The second disjunct of the well-formedness condition on
                // `init` is exactly the child accepting, so here the empty
                // string must be tracked.
                assert(self.marks@.contains(Seq::<char>::empty()));
            }
            if r {
                if self.marks@.contains(Seq::<char>::empty()) && !from_child {
                    assert(self.marks().contains(Seq::<char>::empty()) && self.lang(
                        Seq::<char>::empty(),
                    ));
                }
                if from_child {
                    let v = choose|v: Seq<char>|
                        #[trigger] self.state.marks().contains(v) && self.state.lang(v);
                    let u = choose|u: Seq<char>|
                        star_lang(&self.state, u) && self.marks@.contains(#[trigger] (u + v));
                    lemma_star_append(&self.state, u, v);
                    assert(self.marks().contains(u + v) && self.lang(u + v));
                }
            } else {
                assert forall|s: Seq<char>|
                    #[trigger] self.marks().contains(s) implies !self.lang(s) by {
                    if self.lang(s) {
                        if s.len() == 0 {
                            lemma_empty_seq(s);
                        } else {
                            lemma_star_last(&self.state, s);
                            let (u, v) = choose|u: Seq<char>, v: Seq<char>|
                                v.len() > 0 && s == u + v && (#[trigger] star_lang(&self.state, u))
                                    && (#[trigger] self.state.lang(v));
                            assert(star_lang(&self.state, u) && self.marks@.contains(u + v));
                            assert(loop_set(&self.state, self.marks@).contains(v));
                            assert(self.state.marks().contains(v) && self.state.lang(v));
                        }
                    }
                }
            }
            assert(r == exists|s: Seq<char>|
                #[trigger] self.marks().contains(s) && self.lang(s));
        }
        r
    }

    fn is_dead(&self) -> (r: bool) {
        let r = !self.init && self.state.is_dead();
        proof {
            assert(r == self.dead());
        }
        r
    }

    proof fn lemma_dead_sound(&self, s: Seq<char>, w: Seq<char>) {
        lemma_star_no_revival(&self.state, self.marks@, s, w);
        assert(!self.lang(s + w));
    }
}

/// The heart of the star's dead test: when the child is dead and the loop
/// flag is down, no tracked string can be extended to a star match, because
/// any such match would end in a child match that extends a tracked suffix.
proof fn lemma_star_no_revival<P: Regex>(child: &P, m: Set<Seq<char>>, s: Seq<char>, w: Seq<char>)
    requires
        child.wf(),
        child.dead(),
        child.marks() == loop_set(child, m),
        m.contains(s),
        !m.contains(Seq::<char>::empty()),
    ensures
        !star_lang(child, s + w),
    decreases w.len(),
{
    if star_lang(child, s + w) {
        if (s + w).len() == 0 {
            lemma_empty_seq(s);
        } else {
            lemma_star_last(child, s + w);
            let (u, v) = choose|u: Seq<char>, v: Seq<char>|
                v.len() > 0 && s + w == u + v && (#[trigger] star_lang(child, u)) && (
                #[trigger] child.lang(v));
            if u.len() <= s.len() {
                // The final repetition starts inside `s`: its suffix within
                // `s` is tracked by the child, which is dead.
                let s2 = s.skip(u.len() as int);
                assert(u == s.take(u.len() as int)) by {
                    assert(u =~= s.take(u.len() as int)) by {
                        assert forall|i: int| 0 <= i < u.len() implies u[i] == s[i] by {
                            assert((u + v)[i] == (s + w)[i]);
                        }
                    }
                }
                lemma_split_parts(s, u.len() as int);
                assert(star_lang(child, u) && m.contains(u + s2));
                assert(loop_set(child, m).contains(s2));
                assert(v == s2 + w) by {
                    assert((u + v).len() == (s + w).len());
                    assert(v =~= s2 + w) by {
                        assert forall|i: int| 0 <= i < v.len() implies v[i] == (s2 + w)[i] by {
                            assert((u + v)[u.len() + i] == (s + w)[u.len() + i]);
                            assert((u + v)[u.len() + i] == v[i]);
                            if i < s2.len() {
                                assert((s + w)[u.len() + i] == s[u.len() + i]);
                                assert(s2[i] == s[u.len() + i]);
                                assert((s2 + w)[i] == s2[i]);
                            } else {
                                assert((s + w)[u.len() + i] == w[u.len() + i - s.len()]);
                                assert((s2 + w)[i] == w[i - s2.len()]);
                            }
                        }
                    }
                }
                child.lemma_dead_sound(s2, w);
            } else {
                // The final repetition starts after `s`: then the complete
                // repetitions before it already form a star match extending
                // `s` by a shorter suffix, which the induction rules out.
                let w1 = u.skip(s.len() as int);
                assert(u == s + w1) by {
                    assert(u =~= s + w1) by {
                        assert forall|i: int| 0 <= i < u.len() implies u[i] == (s + w1)[i] by {
                            assert((u + v)[i] == (s + w)[i]);
                        }
                    }
                }
                assert(w1.len() < w.len()) by {
                    assert((u + v).len() == (s + w).len());
                }
                lemma_star_no_revival(child, m, s, w1);
            }
        }
    }
}

} // verus!
