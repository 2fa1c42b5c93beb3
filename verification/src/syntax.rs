use vstd::prelude::*;
use crate::error::ErrorKind;
use crate::num::Num;
use crate::operator::Operator;
use crate::paren::Paren;
use crate::term::Term;
use crate::text::{is_digit, spec_parse_i32};

verus! {

/// A tree of terms as a mathematical value: what a node holds and the
/// trees below it, from left to right.
pub struct Ast {
    pub value: Option<Term>,
    pub children: Seq<Ast>,
}

/// A node on the way from the root to the marker, with the finished trees
/// below it. The node below it on that way, if any, is its last child and
/// is not among them.
pub struct Frame {
    pub value: Option<Term>,
    pub done: Seq<Ast>,
}

/// What the parser has built so far: the frames from the root to the
/// marker, and the digits read since the last character that was none.
pub struct ParseState {
    pub stack: Seq<Frame>,
    pub digits: Seq<char>,
}

/// `std`'s notion of a whitespace character.
pub uninterp spec fn unicode_white_space(c: char) -> bool;

/// `char::is_whitespace`: whether the character is whitespace.
pub assume_specification[ char::is_whitespace ](c: char) -> (r: bool)
    ensures
        r == unicode_white_space(c),
;

/// Whether the parser skips `c`: the space and every other whitespace
/// character.
pub open spec fn is_blank(c: char) -> bool {
    c == ' ' || unicode_white_space(c)
}

/// The tree that a run of frames stands for: each frame's node gets the
/// tree of the frames after it as its last child.
pub open spec fn collapse(stack: Seq<Frame>) -> Ast
    decreases stack.len(),
{
    if stack.len() <= 1 {
        Ast { value: stack[0].value, children: stack[0].done }
    } else {
        Ast {
            value: stack[0].value,
            children: stack[0].done.push(collapse(stack.subrange(1, stack.len() as int))),
        }
    }
}

/// The stack with `value` as the payload of the marker.
pub open spec fn set_top(stack: Seq<Frame>, value: Term) -> Seq<Frame> {
    stack.update(stack.len() - 1, Frame { value: Some(value), done: stack.last().done })
}

/// The stack with a new node holding `value` below the marker; it is the
/// new marker.
pub open spec fn push_leaf(stack: Seq<Frame>, value: Term) -> Seq<Frame> {
    stack.push(Frame { value: Some(value), done: Seq::<Ast>::empty() })
}

/// Where an operator is spliced in: starting at frame `j`, the climb goes
/// up while the frame above holds an operator that binds at least as
/// tightly, and stops below a left parenthesis, below an operator that
/// binds less tightly, or at the root.
pub open spec fn climb(stack: Seq<Frame>, j: int, op: Operator) -> Result<int, ErrorKind>
    decreases j,
{
    if j <= 0 {
        Ok(0)
    } else {
        match stack[j - 1].value {
            Some(Term::Operator(above)) => if above.spec_priority() >= op.spec_priority() {
                climb(stack, j - 1, op)
            } else {
                Ok(j)
            },
            Some(Term::Paren(Paren::Left)) => Ok(j),
            _ => Err(ErrorKind::ParseFailed),
        }
    }
}

/// The stack with `op` spliced in at frame `j`: the tree from there down
/// becomes the left operand of a new node, which is the new marker.
pub open spec fn splice_at(stack: Seq<Frame>, j: int, op: Operator) -> Seq<Frame> {
    stack.subrange(0, j).push(
        Frame {
            value: Some(Term::Operator(op)),
            done: seq![collapse(stack.subrange(j, stack.len() as int))],
        },
    )
}

/// The stack after a binary operator was inserted.
pub open spec fn splice(stack: Seq<Frame>, op: Operator) -> Result<Seq<Frame>, ErrorKind> {
    match climb(stack, stack.len() - 1, op) {
        Ok(j) => Ok(splice_at(stack, j, op)),
        Err(e) => Err(e),
    }
}

/// The stack after a number was inserted.
pub open spec fn append_num(stack: Seq<Frame>, num: Num) -> Result<Seq<Frame>, ErrorKind> {
    match stack.last().value {
        None => Ok(set_top(stack, Term::Num(num))),
        Some(Term::Num(_)) => Err(ErrorKind::ConsecutiveNumbers),
        Some(Term::Operator(_)) => Ok(push_leaf(stack, Term::Num(num))),
        Some(Term::Paren(Paren::Left)) => Ok(push_leaf(stack, Term::Num(num))),
        Some(Term::Paren(Paren::Right)) => match splice(stack, Operator::Mul) {
            Ok(s) => Ok(push_leaf(s, Term::Num(num))),
            Err(e) => Err(e),
        },
    }
}

/// The stack after the operator character `c` was read. It is a sign
/// where no left operand stands before it.
pub open spec fn append_op(stack: Seq<Frame>, c: char) -> Result<Seq<Frame>, ErrorKind> {
    match stack.last().value {
        Some(Term::Operator(_)) => Err(ErrorKind::ConsecutiveOperators),
        Some(Term::Paren(Paren::Left)) => match Operator::spec_parse(c, true) {
            Ok(op) => Ok(push_leaf(stack, Term::Operator(op))),
            Err(e) => Err(e),
        },
        None => match Operator::spec_parse(c, true) {
            Ok(op) => Ok(set_top(stack, Term::Operator(op))),
            Err(e) => Err(e),
        },
        _ => match Operator::spec_parse(c, false) {
            Ok(op) => splice(stack, op),
            Err(e) => Err(e),
        },
    }
}

/// The stack after a left parenthesis was read. After a number or a
/// closed parenthesis a multiplication is inserted first.
pub open spec fn append_left(stack: Seq<Frame>) -> Result<Seq<Frame>, ErrorKind> {
    match stack.last().value {
        None => Ok(set_top(stack, Term::Paren(Paren::Left))),
        Some(Term::Operator(_)) => Ok(push_leaf(stack, Term::Paren(Paren::Left))),
        Some(Term::Paren(Paren::Left)) => Ok(push_leaf(stack, Term::Paren(Paren::Left))),
        _ => match splice(stack, Operator::Mul) {
            Ok(s) => Ok(push_leaf(s, Term::Paren(Paren::Left))),
            Err(e) => Err(e),
        },
    }
}

/// The frame of the nearest open parenthesis above frame `j`.
pub open spec fn find_open(stack: Seq<Frame>, j: int) -> Result<int, ErrorKind>
    decreases j,
{
    if j <= 0 {
        Err(ErrorKind::MismatchedParen)
    } else if stack[j - 1].value == Some(Term::Paren(Paren::Left)) {
        Ok(j - 1)
    } else {
        find_open(stack, j - 1)
    }
}

/// The stack with the parenthesis at frame `j` closed: the tree below it
/// is finished, and the parenthesis is the new marker.
pub open spec fn close_at(stack: Seq<Frame>, j: int) -> Seq<Frame> {
    stack.subrange(0, j).push(
        Frame {
            value: Some(Term::Paren(Paren::Right)),
            done: stack[j].done.push(collapse(stack.subrange(j + 1, stack.len() as int))),
        },
    )
}

/// The stack after a right parenthesis was read.
pub open spec fn append_right(stack: Seq<Frame>) -> Result<Seq<Frame>, ErrorKind> {
    if stack.last().value == Some(Term::Paren(Paren::Left)) {
        Err(ErrorKind::EmptyParen)
    } else {
        match find_open(stack, stack.len() - 1) {
            Ok(j) => Ok(close_at(stack, j)),
            Err(e) => Err(e),
        }
    }
}

/// The stack after a parenthesis character was read.
pub open spec fn append_paren(stack: Seq<Frame>, c: char) -> Result<Seq<Frame>, ErrorKind> {
    match Paren::spec_parse(c) {
        Ok(Paren::Left) => append_left(stack),
        Ok(Paren::Right) => append_right(stack),
        Err(e) => Err(e),
    }
}

/// The stack after the pending digits, if there are any, were inserted as
/// a number.
pub open spec fn flush(state: ParseState) -> Result<Seq<Frame>, ErrorKind> {
    if state.digits.len() == 0 {
        Ok(state.stack)
    } else {
        match spec_parse_i32(state.digits) {
            Some(n) => append_num(state.stack, Num::I32(n)),
            None => Err(ErrorKind::InvalidNumber),
        }
    }
}

/// The state after one more character.
pub open spec fn step(state: ParseState, c: char) -> Result<ParseState, ErrorKind> {
    if is_digit(c) {
        Ok(ParseState { stack: state.stack, digits: state.digits.push(c) })
    } else {
        match flush(state) {
            Err(e) => Err(e),
            Ok(stack) => {
                let next = if Operator::spec_is_operator(c) {
                    append_op(stack, c)
                } else if c == '(' || c == ')' {
                    append_paren(stack, c)
                } else if is_blank(c) {
                    Ok(stack)
                } else {
                    Err(ErrorKind::UnsupportedCharacter)
                };
                match next {
                    Ok(s) => Ok(ParseState { stack: s, digits: Seq::<char>::empty() }),
                    Err(e) => Err(e),
                }
            },
        }
    }
}

/// The state before any character: one empty node, which is root and
/// marker.
pub open spec fn initial() -> ParseState {
    ParseState {
        stack: seq![Frame { value: None, done: Seq::<Ast>::empty() }],
        digits: Seq::<char>::empty(),
    }
}

/// The state after all of `input`, or the first error on the way.
pub open spec fn run(input: Seq<char>) -> Result<ParseState, ErrorKind>
    decreases input.len(),
{
    if input.len() == 0 {
        Ok(initial())
    } else {
        match run(input.drop_last()) {
            Ok(state) => step(state, input.last()),
            Err(e) => Err(e),
        }
    }
}

/// The tree that `input` is parsed to, or the first error on the way.
pub open spec fn spec_parse(input: Seq<char>) -> Result<Ast, ErrorKind> {
    match run(input) {
        Ok(state) => match flush(state) {
            Ok(stack) => Ok(collapse(stack)),
            Err(e) => Err(e),
        },
        Err(e) => Err(e),
    }
}

/// The tokens of a finished tree from left to right, or why the tree is
/// not finished.
pub open spec fn spec_tokens(t: Ast) -> Result<Seq<Seq<char>>, ErrorKind>
    decreases t,
{
    match t.value {
        None => Err(ErrorKind::ParseFailed),
        Some(Term::Operator(op)) => {
            if op.spec_is_unary() {
                if t.children.len() != 1 {
                    Err(ErrorKind::ParseFailed)
                } else {
                    match spec_tokens(t.children[0]) {
                        Err(e) => Err(e),
                        Ok(operand) => Ok(seq![op.text()] + operand),
                    }
                }
            } else {
                if t.children.len() != 2 {
                    Err(ErrorKind::ParseFailed)
                } else {
                    match spec_tokens(t.children[0]) {
                        Err(e) => Err(e),
                        Ok(left) => match spec_tokens(t.children[1]) {
                            Err(e) => Err(e),
                            Ok(right) => Ok(left + seq![op.text()] + right),
                        },
                    }
                }
            }
        },
        Some(Term::Num(num)) => {
            if t.children.len() != 0 {
                Err(ErrorKind::ParseFailed)
            } else {
                Ok(seq![num.text()])
            }
        },
        Some(Term::Paren(paren)) => {
            if paren == Paren::Left {
                Err(ErrorKind::UnclosedParen)
            } else if t.children.len() != 1 {
                Err(ErrorKind::ParseFailed)
            } else {
                match spec_tokens(t.children[0]) {
                    Err(e) => Err(e),
                    Ok(inner) => Ok(seq![seq!['(']] + inner + seq![seq![')']]),
                }
            }
        },
    }
}

/// The tokens with `sep` between each two of them.
pub open spec fn join(tokens: Seq<Seq<char>>, sep: Seq<char>) -> Seq<char>
    decreases tokens.len(),
{
    if tokens.len() == 0 {
        Seq::<char>::empty()
    } else if tokens.len() == 1 {
        tokens[0]
    } else {
        join(tokens.drop_last(), sep) + sep + tokens.last()
    }
}

/// The text of a tree: its tokens with one space between each two, or the
/// message of a failed parse where the tree is not finished.
pub open spec fn spec_display(t: Ast) -> Seq<char> {
    match spec_tokens(t) {
        Ok(tokens) => join(tokens, seq![' ']),
        Err(_) => ErrorKind::ParseFailed.message_text(),
    }
}

/// The value of a finished tree, or the first error met from left to
/// right.
pub open spec fn spec_eval(t: Ast) -> Result<Term, ErrorKind>
    decreases t,
{
    match t.value {
        None => Err(ErrorKind::ParseFailed),
        Some(Term::Operator(op)) => {
            if op.spec_is_unary() {
                if t.children.len() != 1 {
                    Err(ErrorKind::ParseFailed)
                } else {
                    match spec_eval(t.children[0]) {
                        Err(e) => Err(e),
                        Ok(operand) => op.spec_unary(operand),
                    }
                }
            } else {
                if t.children.len() != 2 {
                    Err(ErrorKind::ParseFailed)
                } else {
                    match spec_eval(t.children[0]) {
                        Err(e) => Err(e),
                        Ok(left) => match spec_eval(t.children[1]) {
                            Err(e) => Err(e),
                            Ok(right) => op.spec_binary(left, right),
                        },
                    }
                }
            }
        },
        Some(Term::Num(num)) => {
            if t.children.len() != 0 {
                Err(ErrorKind::ParseFailed)
            } else {
                Ok(Term::Num(num))
            }
        },
        Some(Term::Paren(paren)) => {
            if paren == Paren::Left {
                Err(ErrorKind::UnclosedParen)
            } else if t.children.len() != 1 {
                Err(ErrorKind::ParseFailed)
            } else {
                spec_eval(t.children[0])
            }
        },
    }
}

} // verus!
