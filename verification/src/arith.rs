//! Dynamically shaped arithmetic values.
//!
//! A [`Value`] carries either a symbolic expression (a piece of text) or a
//! vector of further values.  At the specification level a value is mirrored
//! by a [`Term`], so that contracts can state exactly which value a function
//! builds or takes apart.

use crate::text::push_char;
use vstd::prelude::*;

verus! {

/// The mathematical shape of a [`Value`]: a symbol or a vector of terms.
pub enum Term {
    Sym(Seq<char>),
    Vector(Seq<Term>),
}

enum Node {
    Sym(String),
    Vector(Vec<Value>),
}

/// A dynamically shaped value: a symbolic expression or a vector of values.
pub struct Value {
    node: Node,
}

/// The terms mirroring a sequence of values.
pub open spec fn terms_of(elems: Seq<Value>) -> Seq<Term>
    decreases elems,
{
    if elems.len() == 0 {
        Seq::empty()
    } else {
        seq![elems[0]@] + terms_of(elems.subrange(1, elems.len() as int))
    }
}

impl View for Value {
    type V = Term;

    closed spec fn view(&self) -> Term
        decreases self,
    {
        match self.node {
            Node::Sym(s) => Term::Sym(s@),
            Node::Vector(elems) => Term::Vector(terms_of(elems@)),
        }
    }
}

/// A symbolic value holding the single-character symbol `ch`.
pub fn sym(ch: char) -> (v: Value)
    ensures
        v@ == Term::Sym(seq![ch]),
{
    let mut text = String::new();
    push_char(&mut text, ch);
    let v = Value { node: Node::Sym(text) };
    proof {
        assert(text@ =~= seq![ch]);
    }
    v
}

/// A vector value holding `elems`, in order.
pub fn vec(elems: Vec<Value>) -> (v: Value)
    ensures
        v@ == Term::Vector(terms_of(elems@)),
{
    Value { node: Node::Vector(elems) }
}

impl Value {
    /// The symbol this value holds, if it is symbolic.
    pub fn symbol(&self) -> (r: Option<String>)
        ensures
            match self@ {
                Term::Sym(t) => r matches Some(s) && s@ == t,
                Term::Vector(_) => r is None,
            },
    {
        match &self.node {
            Node::Sym(s) => Some(s.clone()),
            Node::Vector(_) => None,
        }
    }

    /// The elements this value holds, if it is a vector.
    pub fn into_elements(self) -> (r: Option<Vec<Value>>)
        ensures
            match self@ {
                Term::Sym(_) => r is None,
                Term::Vector(ts) => r matches Some(v) && terms_of(v@) == ts,
            },
    {
        match self.node {
            Node::Sym(_) => None,
            Node::Vector(elems) => Some(elems),
        }
    }
}

} // verus!
