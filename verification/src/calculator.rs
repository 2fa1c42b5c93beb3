use vstd::prelude::*;
use vstd::string::*;
use crate::error::ErrorKind;
use crate::expression::Expression;
use crate::num::Num;
use crate::operator::Operator;
use crate::syntax::{is_blank, spec_display, spec_eval, spec_parse, Ast};
use crate::term::Term;
use crate::text::{is_digit, spec_parse_i32};

verus! {

/// The first place from `i` on, below `end`, where no blank stands.
pub open spec fn skip_blanks(s: Seq<char>, i: int, end: int) -> int
    decreases end - i,
{
    if i < end && is_blank(s[i]) {
        skip_blanks(s, i + 1, end)
    } else {
        i
    }
}

/// The first place from `i` on, below `end`, where no digit stands.
pub open spec fn skip_digits(s: Seq<char>, i: int, end: int) -> int
    decreases end - i,
{
    if i < end && is_digit(s[i]) {
        skip_digits(s, i + 1, end)
    } else {
        i
    }
}

/// The end of the text between `start` and `end` without the blanks at
/// its end.
pub open spec fn trim_end(s: Seq<char>, start: int, end: int) -> int
    decreases end - start,
{
    if start < end && is_blank(s[end - 1]) {
        trim_end(s, start, end - 1)
    } else {
        end
    }
}

/// The binary operator of the four basic operations that `c` stands for.
pub open spec fn basic_operator(c: char) -> Option<Operator> {
    if c == '+' {
        Some(Operator::Add)
    } else if c == '-' {
        Some(Operator::Sub)
    } else if c == '*' {
        Some(Operator::Mul)
    } else if c == '/' {
        Some(Operator::Div)
    } else {
        None
    }
}

/// The calculator: what the user interface calls.
pub struct Calculator {}

impl Calculator {
    /// What `parse` makes of an input of the form integer, operator,
    /// integer. Blanks around the input and around the operator do not
    /// count; the first integer may have a minus sign, and the second is
    /// everything after the operator.
    pub open spec fn spec_parse_simple(input: Seq<char>) -> Result<Ast, ErrorKind> {
        let start = skip_blanks(input, 0, input.len() as int);
        let end = trim_end(input, start, input.len() as int);
        let digits = if start < end && input[start] == '-' {
            start + 1
        } else {
            start
        };
        let left_end = skip_digits(input, digits, end);
        let at = skip_blanks(input, left_end, end);
        if at >= end {
            Err(ErrorKind::OperatorNotFound)
        } else {
            match basic_operator(input[at]) {
                None => Err(ErrorKind::InvalidOperator),
                Some(operator) => {
                    let right = skip_blanks(input, at + 1, end);
                    match spec_parse_i32(input.subrange(start, left_end)) {
                        None => Err(ErrorKind::InvalidNumber),
                        Some(l) => match spec_parse_i32(input.subrange(right, end)) {
                            None => Err(ErrorKind::InvalidNumber),
                            Some(r) => Ok(
                                Expression::spec_new(
                                    Term::Num(Num::I32(l)),
                                    Term::Num(Num::I32(r)),
                                    operator,
                                ),
                            ),
                        },
                    }
                },
            }
        }
    }

    /// Whether the parser skips `c`.
    fn is_blank(c: char) -> (r: bool)
        ensures
            r == is_blank(c),
    {
        c == ' ' || c.is_whitespace()
    }

    /// The first place from `from` on, below `end`, where no blank stands.
    fn skip_blanks(input: &str, from: usize, end: usize) -> (r: usize)
        requires
            from <= end <= input@.len(),
        ensures
            r == skip_blanks(input@, from as int, end as int),
            from <= r <= end,
    {
        let mut i = from;
        while i < end && Self::is_blank(input.get_char(i))
            invariant
                from <= i <= end <= input@.len(),
                skip_blanks(input@, i as int, end as int) == skip_blanks(
                    input@,
                    from as int,
                    end as int,
                ),
            decreases end - i,
        {
            i = i + 1;
        }
        i
    }

    /// The first place from `from` on, below `end`, where no digit stands.
    fn skip_digits(input: &str, from: usize, end: usize) -> (r: usize)
        requires
            from <= end <= input@.len(),
        ensures
            r == skip_digits(input@, from as int, end as int),
            from <= r <= end,
    {
        let mut i = from;
        while i < end && Self::is_digit(input.get_char(i))
            invariant
                from <= i <= end <= input@.len(),
                skip_digits(input@, i as int, end as int) == skip_digits(
                    input@,
                    from as int,
                    end as int,
                ),
            decreases end - i,
        {
            i = i + 1;
        }
        i
    }

    /// Whether `c` is a decimal digit.
    fn is_digit(c: char) -> (r: bool)
        ensures
            r == is_digit(c),
    {
        c >= '0' && c <= '9'
    }

    /// The end of the text between `start` and `end` without the blanks at
    /// its end.
    fn trim_end(input: &str, start: usize, end: usize) -> (r: usize)
        requires
            start <= end <= input@.len(),
        ensures
            r == trim_end(input@, start as int, end as int),
            start <= r <= end,
    {
        let mut e = end;
        while start < e && Self::is_blank(input.get_char(e - 1))
            invariant
                start <= e <= end <= input@.len(),
                trim_end(input@, start as int, e as int) == trim_end(
                    input@,
                    start as int,
                    end as int,
                ),
            decreases e - start,
        {
            e = e - 1;
        }
        e
    }

    /// Reads an input of the form integer, operator, integer.
    pub fn parse(input: &str) -> (r: Result<Expression, ErrorKind>)
        ensures
            match Self::spec_parse_simple(input@) {
                Ok(tree) => r matches Ok(e) && e.wf() && e@ == tree,
                Err(kind) => r matches Err(x) && x == kind,
            },
    {
        let len = input.unicode_len();
        let start = Self::skip_blanks(input, 0, len);
        let end = Self::trim_end(input, start, len);
        let mut i = start;
        if i < end && input.get_char(i) == '-' {
            i = i + 1;
        }
        let left_end = Self::skip_digits(input, i, end);
        let at = Self::skip_blanks(input, left_end, end);
        if at >= end {
            return Err(ErrorKind::OperatorNotFound);
        }
        let op = input.get_char(at);
        let operator = if op == '+' {
            Operator::Add
        } else if op == '-' {
            Operator::Sub
        } else if op == '*' {
            Operator::Mul
        } else if op == '/' {
            Operator::Div
        } else {
            return Err(ErrorKind::InvalidOperator);
        };
        let right = Self::skip_blanks(input, at + 1, end);
        let left_str = input.substring_char(start, left_end);
        let right_str = input.substring_char(right, end);
        let left = Num::parse(left_str)?;
        let right = Num::parse(right_str)?;
        Ok(Expression::new(Term::Num(left), Term::Num(right), operator))
    }

    /// What the calculator answers to `input`: the text of the expression,
    /// an arrow and the value, or the message of the first error.
    pub open spec fn spec_calculate_and_format(input: Seq<char>) -> Result<Seq<char>, Seq<char>> {
        match spec_parse(input) {
            Err(e) => Err(e.message_text()),
            Ok(tree) => match spec_eval(tree) {
                Err(e) => Err(e.message_text()),
                Ok(value) => Ok(spec_display(tree) + " → "@ + value.text()),
            },
        }
    }

    /// Parses and evaluates `input`.
    pub fn calculate_and_format(input: &str) -> (r: Result<String, String>)
        ensures
            match Self::spec_calculate_and_format(input@) {
                Ok(text) => r matches Ok(s) && s@ == text,
                Err(message) => r matches Err(m) && m@ == message,
            },
    {
        let expression = match Expression::parse(input) {
            Ok(expression) => expression,
            Err(e) => {
                return Err(e.message());
            },
        };
        let result = match expression.calculate() {
            Ok(result) => result,
            Err(e) => {
                return Err(e.message());
            },
        };
        let mut out = expression.display();
        out.append(" → ");
        let value = result.to_text();
        out.append(value.as_str());
        Ok(out)
    }

    /// The text shown while the user types: the input as it is.
    pub fn format_input(input: &str) -> (r: String)
        ensures
            r@ == input@,
    {
        String::from_str(input)
    }
}

} // verus!
