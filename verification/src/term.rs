use vstd::prelude::*;
use vstd::std_specs::cmp::PartialEqSpecImpl;
use vstd::string::*;
use crate::num::Num;
use crate::operator::Operator;
use crate::paren::Paren;

verus! {

/// What a node of the tree holds: a number, an operator or a parenthesis.
#[derive(Debug)]
pub enum Term {
    Num(Num),
    Operator(Operator),
    Paren(Paren),
}

impl PartialEq for Term {
    /// Two terms are equal when they are of the same kind and hold the
    /// same.
    fn eq(&self, other: &Self) -> (r: bool) {
        match (self, other) {
            (Term::Num(x), Term::Num(y)) => x.eq(y),
            (Term::Operator(x), Term::Operator(y)) => *x == *y,
            (Term::Paren(x), Term::Paren(y)) => *x == *y,
            _ => false,
        }
    }
}

impl PartialEqSpecImpl for Term {
    open spec fn obeys_eq_spec() -> bool {
        true
    }

    open spec fn eq_spec(&self, other: &Term) -> bool {
        *self == *other
    }
}

impl Clone for Term {
    fn clone(&self) -> (r: Self)
        ensures
            r == *self,
    {
        match self {
            Term::Num(num) => Term::Num(num.clone()),
            Term::Operator(op) => Term::Operator(*op),
            Term::Paren(paren) => Term::Paren(*paren),
        }
    }
}

impl Term {
    /// The invariant of a term: a number inside it is well-formed.
    pub open spec fn wf(self) -> bool {
        match self {
            Term::Num(num) => num.wf(),
            _ => true,
        }
    }

    /// The text of a term.
    pub open spec fn text(self) -> Seq<char> {
        match self {
            Term::Num(num) => num.text(),
            Term::Operator(op) => op.text(),
            Term::Paren(paren) => paren.text(),
        }
    }

    /// The text of the term.
    pub fn to_text(&self) -> (r: String)
        ensures
            r@ == self.text(),
    {
        match self {
            Term::Num(num) => num.to_text(),
            Term::Operator(op) => op.to_text(),
            Term::Paren(paren) => paren.to_text(),
        }
    }
}

} // verus!
