use vstd::prelude::*;
use vstd::string::*;
use crate::error::ErrorKind;
use crate::num::Num;
use crate::rational::Ratio;
use crate::term::Term;

verus! {

/// The operators: five binary ones and the two signs.
#[derive(Debug, Clone, Copy, PartialEq, Eq, Structural)]
pub enum Operator {
    Add,
    Sub,
    Mul,
    Div,
    Pow,
    Plus,
    Minus,
}

impl Operator {
    /// Whether `c` is an operator character.
    pub open spec fn spec_is_operator(c: char) -> bool {
        c == '+' || c == '-' || c == '*' || c == '/' || c == '^'
    }

    /// Whether the operator takes one operand.
    pub open spec fn spec_is_unary(self) -> bool {
        self == Operator::Plus || self == Operator::Minus
    }

    /// The operator that `c` stands for, in a place where a sign is
    /// expected (`unary`) or between two operands.
    pub open spec fn spec_parse(c: char, unary: bool) -> Result<Operator, ErrorKind> {
        if c == '+' {
            Ok(if unary { Operator::Plus } else { Operator::Add })
        } else if c == '-' {
            Ok(if unary { Operator::Minus } else { Operator::Sub })
        } else if c == '*' && !unary {
            Ok(Operator::Mul)
        } else if c == '/' && !unary {
            Ok(Operator::Div)
        } else if c == '^' && !unary {
            Ok(Operator::Pow)
        } else {
            Err(ErrorKind::InvalidOperator)
        }
    }

    /// How tightly the operator binds: the higher, the tighter.
    pub open spec fn spec_priority(self) -> int {
        match self {
            Operator::Add => 1,
            Operator::Sub => 1,
            Operator::Mul => 2,
            Operator::Div => 2,
            Operator::Plus => 3,
            Operator::Minus => 3,
            Operator::Pow => 4,
        }
    }

    /// The character of the operator, as text.
    pub open spec fn text(self) -> Seq<char> {
        match self {
            Operator::Add => seq!['+'],
            Operator::Sub => seq!['-'],
            Operator::Mul => seq!['*'],
            Operator::Div => seq!['/'],
            Operator::Pow => seq!['^'],
            Operator::Plus => seq!['+'],
            Operator::Minus => seq!['-'],
        }
    }

    /// The outcome of an operation as a term.
    pub open spec fn term_of(s: Result<Ratio, ErrorKind>) -> Result<Term, ErrorKind> {
        match s {
            Ok(q) => Ok(Term::Num(Num::collapsed(q))),
            Err(e) => Err(e),
        }
    }

    /// What a sign makes of its operand.
    pub open spec fn spec_unary(self, term: Term) -> Result<Term, ErrorKind> {
        match term {
            Term::Num(x) => match self {
                Operator::Plus => Ok(term),
                Operator::Minus => Self::term_of(x.spec_minus()),
                _ => Err(ErrorKind::InvalidOperation),
            },
            _ => Err(ErrorKind::InvalidOperation),
        }
    }

    /// What a binary operator makes of its two operands.
    pub open spec fn spec_binary(self, left: Term, right: Term) -> Result<Term, ErrorKind> {
        match (left, right) {
            (Term::Num(x), Term::Num(y)) => match self {
                Operator::Add => Self::term_of(x.spec_add(y)),
                Operator::Sub => Self::term_of(x.spec_sub(y)),
                Operator::Mul => Self::term_of(x.spec_mul(y)),
                Operator::Div => Self::term_of(x.spec_div(y)),
                Operator::Pow => Self::term_of(x.spec_pow(y)),
                _ => Err(ErrorKind::InvalidOperation),
            },
            _ => Err(ErrorKind::InvalidOperation),
        }
    }

    /// Whether `c` is an operator character.
    pub fn is_operator(c: char) -> (r: bool)
        ensures
            r == Self::spec_is_operator(c),
    {
        c == '+' || c == '-' || c == '*' || c == '/' || c == '^'
    }

    /// Whether the operator takes one operand.
    pub fn is_unary(&self) -> (r: bool)
        ensures
            r == self.spec_is_unary(),
    {
        match self {
            Operator::Add => false,
            Operator::Sub => false,
            Operator::Mul => false,
            Operator::Div => false,
            Operator::Pow => false,
            Operator::Plus => true,
            Operator::Minus => true,
        }
    }

    /// Reads an operator.
    pub fn parse(c: char, unary: bool) -> (r: Result<Self, ErrorKind>)
        ensures
            r == Self::spec_parse(c, unary),
    {
        if c == '+' && !unary {
            Ok(Operator::Add)
        } else if c == '-' && !unary {
            Ok(Operator::Sub)
        } else if c == '*' && !unary {
            Ok(Operator::Mul)
        } else if c == '/' && !unary {
            Ok(Operator::Div)
        } else if c == '^' && !unary {
            Ok(Operator::Pow)
        } else if c == '+' && unary {
            Ok(Operator::Plus)
        } else if c == '-' && unary {
            Ok(Operator::Minus)
        } else {
            Err(ErrorKind::InvalidOperator)
        }
    }

    /// How tightly the operator binds: the higher, the tighter.
    pub fn priority(&self) -> (r: u8)
        ensures
            r == self.spec_priority(),
    {
        match self {
            Operator::Add => 1,
            Operator::Sub => 1,
            Operator::Mul => 2,
            Operator::Div => 2,
            Operator::Plus => 3,
            Operator::Minus => 3,
            Operator::Pow => 4,
        }
    }

    /// Applies a sign to its operand.
    pub fn calculate_unary(&self, term: &Term) -> (r: Result<Term, ErrorKind>)
        requires
            term.wf(),
        ensures
            r == self.spec_unary(*term),
            r matches Ok(t) ==> t is Num && t.wf(),
    {
        match self {
            Operator::Plus => Self::plus(term),
            Operator::Minus => Self::minus(term),
            _ => Err(ErrorKind::InvalidOperation),
        }
    }

    /// Applies a binary operator to its two operands.
    pub fn calculate_binary(&self, left: &Term, right: &Term) -> (r: Result<Term, ErrorKind>)
        requires
            left.wf(),
            right.wf(),
        ensures
            r == self.spec_binary(*left, *right),
            r matches Ok(t) ==> t is Num && t.wf(),
    {
        match self {
            Operator::Add => Self::add(left, right),
            Operator::Sub => Self::sub(left, right),
            Operator::Mul => Self::mul(left, right),
            Operator::Div => Self::div(left, right),
            Operator::Pow => Self::pow(left, right),
            _ => Err(ErrorKind::InvalidOperation),
        }
    }

    /// The outcome of an operation on numbers as a term.
    fn wrap(r: Result<Num, ErrorKind>, Ghost(s): Ghost<Result<Ratio, ErrorKind>>) -> (t: Result<
        Term,
        ErrorKind,
    >)
        requires
            Num::yields(r, s),
        ensures
            t == Self::term_of(s),
            t matches Ok(v) ==> v is Num && v.wf(),
    {
        proof {
            Num::lemma_yields_lift(r, s);
        }
        match r {
            Ok(v) => Ok(Term::Num(v)),
            Err(e) => Err(e),
        }
    }

    /// The sum of two numbers.
    fn add(left: &Term, right: &Term) -> (r: Result<Term, ErrorKind>)
        requires
            left.wf(),
            right.wf(),
        ensures
            r == Operator::Add.spec_binary(*left, *right),
            r matches Ok(t) ==> t is Num && t.wf(),
    {
        match (left, right) {
            (Term::Num(x), Term::Num(y)) => Self::wrap(x.add(y), Ghost(x.spec_add(*y))),
            _ => Err(ErrorKind::InvalidOperation),
        }
    }

    /// The difference of two numbers.
    fn sub(left: &Term, right: &Term) -> (r: Result<Term, ErrorKind>)
        requires
            left.wf(),
            right.wf(),
        ensures
            r == Operator::Sub.spec_binary(*left, *right),
            r matches Ok(t) ==> t is Num && t.wf(),
    {
        match (left, right) {
            (Term::Num(x), Term::Num(y)) => Self::wrap(x.sub(y), Ghost(x.spec_sub(*y))),
            _ => Err(ErrorKind::InvalidOperation),
        }
    }

    /// The product of two numbers.
    fn mul(left: &Term, right: &Term) -> (r: Result<Term, ErrorKind>)
        requires
            left.wf(),
            right.wf(),
        ensures
            r == Operator::Mul.spec_binary(*left, *right),
            r matches Ok(t) ==> t is Num && t.wf(),
    {
        match (left, right) {
            (Term::Num(x), Term::Num(y)) => Self::wrap(x.mul(y), Ghost(x.spec_mul(*y))),
            _ => Err(ErrorKind::InvalidOperation),
        }
    }

    /// The quotient of two numbers.
    fn div(left: &Term, right: &Term) -> (r: Result<Term, ErrorKind>)
        requires
            left.wf(),
            right.wf(),
        ensures
            r == Operator::Div.spec_binary(*left, *right),
            r matches Ok(t) ==> t is Num && t.wf(),
    {
        match (left, right) {
            (Term::Num(x), Term::Num(y)) => Self::wrap(x.div(y), Ghost(x.spec_div(*y))),
            _ => Err(ErrorKind::InvalidOperation),
        }
    }

    /// One number raised to another.
    fn pow(left: &Term, right: &Term) -> (r: Result<Term, ErrorKind>)
        requires
            left.wf(),
            right.wf(),
        ensures
            r == Operator::Pow.spec_binary(*left, *right),
            r matches Ok(t) ==> t is Num && t.wf(),
    {
        match (left, right) {
            (Term::Num(x), Term::Num(y)) => Self::wrap(x.pow(y), Ghost(x.spec_pow(*y))),
            _ => Err(ErrorKind::InvalidOperation),
        }
    }

    /// The number itself.
    fn plus(term: &Term) -> (r: Result<Term, ErrorKind>)
        requires
            term.wf(),
        ensures
            r == Operator::Plus.spec_unary(*term),
            r matches Ok(t) ==> t is Num && t.wf(),
    {
        match term {
            Term::Num(x) => match x.plus() {
                Ok(v) => Ok(Term::Num(v)),
                Err(e) => Err(e),
            },
            _ => Err(ErrorKind::InvalidOperation),
        }
    }

    /// The number with its sign flipped.
    fn minus(term: &Term) -> (r: Result<Term, ErrorKind>)
        requires
            term.wf(),
        ensures
            r == Operator::Minus.spec_unary(*term),
            r matches Ok(t) ==> t is Num && t.wf(),
    {
        match term {
            Term::Num(x) => Self::wrap(x.minus(), Ghost(x.spec_minus())),
            _ => Err(ErrorKind::InvalidOperation),
        }
    }

    /// The character of the operator, as text.
    pub fn to_text(&self) -> (r: String)
        ensures
            r@ == self.text(),
    {
        proof {
            reveal_strlit("+");
            reveal_strlit("-");
            reveal_strlit("*");
            reveal_strlit("/");
            reveal_strlit("^");
        }
        let op = match self {
            Operator::Add => "+",
            Operator::Sub => "-",
            Operator::Mul => "*",
            Operator::Div => "/",
            Operator::Pow => "^",
            Operator::Plus => "+",
            Operator::Minus => "-",
        };
        assert(op@ =~= self.text());
        String::from_str(op)
    }
}

} // verus!
