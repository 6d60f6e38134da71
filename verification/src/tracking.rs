//! The mathematical model of a running match: sets of tracked strings.
//!
//! While a pattern consumes input it conceptually maintains a set of strings,
//! grown from the empty string by appending each character seen so far.  The
//! concrete combinator states are finite quotients of such sets; their
//! contracts speak about the sets themselves, through the operations defined
//! here, together with a handful of small sequence lemmas used throughout the
//! proofs.

use vstd::prelude::*;

verus! {

/// The tracked set after appending `ch` to every tracked string.
pub open spec fn step_set(m: Set<Seq<char>>, ch: char) -> Set<Seq<char>> {
    Set::new(|t: Seq<char>| exists|s: Seq<char>| #[trigger] m.contains(s) && t == s.push(ch))
}

/// The tracked set after appending every character of `w`, in order.
pub open spec fn run_set(m: Set<Seq<char>>, w: Seq<char>) -> Set<Seq<char>>
    decreases w.len(),
{
    if w.len() == 0 {
        m
    } else {
        run_set(step_set(m, w[0]), w.skip(1))
    }
}

/// Consuming a whole suffix appends it to every tracked string.
pub proof fn lemma_run_set(m: Set<Seq<char>>, w: Seq<char>)
    ensures
        run_set(m, w) == Set::new(
            |t: Seq<char>| exists|s: Seq<char>| #[trigger] m.contains(s) && t == s + w,
        ),
    decreases w.len(),
{
    let target = Set::new(|t: Seq<char>| exists|s: Seq<char>| #[trigger] m.contains(s) && t == s + w);
    if w.len() == 0 {
        lemma_empty_seq(w);
        assert forall|t: Seq<char>| m.contains(t) implies target.contains(t) by {
            lemma_concat_empty(t);
            assert(m.contains(t) && t == t + w);
        }
        assert forall|t: Seq<char>| target.contains(t) implies m.contains(t) by {
            let s = choose|s: Seq<char>| #[trigger] m.contains(s) && t == s + w;
            lemma_concat_empty(s);
        }
        assert(run_set(m, w) =~= target);
    } else {
        let c = w[0];
        lemma_run_set(step_set(m, c), w.skip(1));
        let mid = Set::new(
            |t: Seq<char>| exists|s: Seq<char>|
                #[trigger] step_set(m, c).contains(s) && t == s + w.skip(1),
        );
        assert forall|t: Seq<char>| mid.contains(t) implies target.contains(t) by {
            let s1 = choose|s1: Seq<char>| #[trigger] step_set(m, c).contains(s1) && t == s1
                + w.skip(1);
            let s = choose|s: Seq<char>| #[trigger] m.contains(s) && s1 == s.push(c);
            assert(s.push(c) + w.skip(1) == s + w) by {
                assert(s.push(c) + w.skip(1) =~= s + w);
            }
            assert(m.contains(s) && t == s + w);
        }
        assert forall|t: Seq<char>| target.contains(t) implies mid.contains(t) by {
            let s = choose|s: Seq<char>| #[trigger] m.contains(s) && t == s + w;
            assert(m.contains(s) && s.push(c) == s.push(c));
            assert(step_set(m, c).contains(s.push(c)));
            assert(s.push(c) + w.skip(1) == s + w) by {
                assert(s.push(c) + w.skip(1) =~= s + w);
            }
            assert(step_set(m, c).contains(s.push(c)) && t == s.push(c) + w.skip(1));
        }
        assert(run_set(m, w) =~= target);
    }
}

/// A sequence of length zero is the empty sequence.
pub proof fn lemma_empty_seq(s: Seq<char>)
    requires
        s.len() == 0,
    ensures
        s == Seq::<char>::empty(),
{
    assert(s =~= Seq::<char>::empty());
}

/// Concatenating the empty sequence on either side changes nothing.
pub proof fn lemma_concat_empty(s: Seq<char>)
    ensures
        s + Seq::<char>::empty() == s,
        Seq::<char>::empty() + s == s,
{
    assert(s + Seq::<char>::empty() =~= s);
    assert(Seq::<char>::empty() + s =~= s);
}

/// Concatenation of character sequences is associative.
pub proof fn lemma_concat_assoc(a: Seq<char>, b: Seq<char>, c: Seq<char>)
    ensures
        (a + b) + c == a + (b + c),
{
    assert((a + b) + c =~= a + (b + c));
}

/// A sequence is the concatenation of any prefix and the matching suffix.
pub proof fn lemma_split_parts(s: Seq<char>, i: int)
    requires
        0 <= i <= s.len(),
    ensures
        s.take(i) + s.skip(i) == s,
{
    assert(s.take(i) + s.skip(i) =~= s);
}

/// Taking or skipping the length of the left part of a concatenation
/// recovers the two parts.
pub proof fn lemma_concat_parts(u: Seq<char>, v: Seq<char>)
    ensures
        (u + v).take(u.len() as int) == u,
        (u + v).skip(u.len() as int) == v,
{
    assert((u + v).take(u.len() as int) =~= u);
    assert((u + v).skip(u.len() as int) =~= v);
}

/// Appending one character and then concatenating associates with `push`.
pub proof fn lemma_concat_push(u: Seq<char>, v: Seq<char>, c: char)
    ensures
        u + v.push(c) == (u + v).push(c),
{
    assert(u + v.push(c) =~= (u + v).push(c));
}

/// How a concatenation can equal a pushed sequence: either the right part is
/// empty and the left part is the whole, or the right part ends in the
/// pushed character.
pub proof fn lemma_push_decompose(u: Seq<char>, v: Seq<char>, s: Seq<char>, c: char)
    requires
        u + v == s.push(c),
    ensures
        v.len() == 0 ==> u == s.push(c),
        v.len() > 0 ==> v == v.drop_last().push(c) && u + v.drop_last() == s,
{
    if v.len() == 0 {
        assert(u =~= s.push(c));
    } else {
        assert((u + v).last() == c);
        assert(v.last() == c);
        assert(v =~= v.drop_last().push(c));
        assert((u + v).len() == s.push(c).len());
        assert(u + v.drop_last() =~= s) by {
            assert forall|i: int| 0 <= i < s.len() implies (u + v.drop_last())[i] == s[i] by {
                assert((u + v)[i] == s.push(c)[i]);
                if i < u.len() {
                    assert((u + v)[i] == u[i]);
                } else {
                    assert((u + v)[i] == v[i - u.len()]);
                    assert(v.drop_last()[i - u.len()] == v[i - u.len()]);
                }
                assert(s.push(c)[i] == s[i]);
            }
        }
    }
}

/// Stepping a singleton tracked set appends the character to its one string.
pub proof fn lemma_step_singleton(p: Seq<char>, ch: char)
    ensures
        step_set(Set::<Seq<char>>::empty().insert(p), ch) == Set::<Seq<char>>::empty().insert(
            p.push(ch),
        ),
{
    let m = Set::<Seq<char>>::empty().insert(p);
    assert forall|t: Seq<char>| step_set(m, ch).contains(t) implies Set::<Seq<
        char,
    >>::empty().insert(p.push(ch)).contains(t) by {
        let s = choose|s: Seq<char>| #[trigger] m.contains(s) && t == s.push(ch);
        assert(s == p);
    }
    assert(m.contains(p) && p.push(ch) == p.push(ch));
    assert(step_set(m, ch).contains(p.push(ch)));
    assert(step_set(m, ch) =~= Set::<Seq<char>>::empty().insert(p.push(ch)));
}

/// A stepped tracked set never contains the empty string.
pub proof fn lemma_step_no_empty(m: Set<Seq<char>>, ch: char)
    ensures
        !step_set(m, ch).contains(Seq::<char>::empty()),
{
    if step_set(m, ch).contains(Seq::<char>::empty()) {
        let s = choose|s: Seq<char>|
            #[trigger] m.contains(s) && Seq::<char>::empty() == s.push(ch);
        assert(Seq::<char>::empty().len() == s.push(ch).len());
    }
}

} // verus!
