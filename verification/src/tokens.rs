use vstd::prelude::*;
use crate::error::ErrorKind;
use crate::num::Num;
use crate::operator::Operator;
use crate::paren::Paren;
use crate::syntax::{
    append_left, append_num, append_op, append_right, collapse, initial, Ast, Frame,
};
use crate::term::Term;
use crate::text::{digits_value, is_digit, nat_digits};

verus! {

/// A token of an expression.
pub enum Token {
    /// A number that is not negative.
    Number(nat),
    /// An operator character.
    Op(char),
    /// A left parenthesis.
    Open,
    /// A right parenthesis.
    Close,
}

impl Token {
    /// The text of a token: the digits of a number without leading zeros,
    /// or the character.
    pub open spec fn text(self) -> Seq<char> {
        match self {
            Token::Number(n) => nat_digits(n),
            Token::Op(c) => seq![c],
            Token::Open => seq!['('],
            Token::Close => seq![')'],
        }
    }

    /// Whether an operand ends with this token.
    pub open spec fn ends_operand(self) -> bool {
        self is Number || self is Close
    }
}

/// The texts of a list of tokens.
pub open spec fn token_texts(tokens: Seq<Token>) -> Seq<Seq<char>> {
    Seq::new(tokens.len(), |i: int| tokens[i].text())
}

/// What a reader that only splits the input into tokens has seen so far:
/// the tokens, and the digits read since the last character that was none.
pub struct Lexed {
    pub tokens: Seq<Token>,
    pub digits: Seq<char>,
}

/// The tokens with a number added. After a right parenthesis the
/// multiplication that the juxtaposition means is written out first.
pub open spec fn add_number(tokens: Seq<Token>, n: nat) -> Seq<Token> {
    if tokens.len() > 0 && tokens.last() is Close {
        tokens.push(Token::Op('*')).push(Token::Number(n))
    } else {
        tokens.push(Token::Number(n))
    }
}

/// The tokens with a left parenthesis added. After a number or a right
/// parenthesis the multiplication that the juxtaposition means is written
/// out first.
pub open spec fn add_open(tokens: Seq<Token>) -> Seq<Token> {
    if tokens.len() > 0 && tokens.last().ends_operand() {
        tokens.push(Token::Op('*')).push(Token::Open)
    } else {
        tokens.push(Token::Open)
    }
}

/// The tokens after the pending digits, if there are any, were added as a
/// number.
pub open spec fn lex_flush(l: Lexed) -> Seq<Token> {
    if l.digits.len() == 0 {
        l.tokens
    } else {
        add_number(l.tokens, digits_value(l.digits))
    }
}

/// What the reader has seen after one more character. Characters that are
/// no digit, operator or parenthesis only end a number.
pub open spec fn lex_step(l: Lexed, c: char) -> Lexed {
    if is_digit(c) {
        Lexed { tokens: l.tokens, digits: l.digits.push(c) }
    } else {
        let tokens = lex_flush(l);
        let next = if Operator::spec_is_operator(c) {
            tokens.push(Token::Op(c))
        } else if c == '(' {
            add_open(tokens)
        } else if c == ')' {
            tokens.push(Token::Close)
        } else {
            tokens
        };
        Lexed { tokens: next, digits: Seq::<char>::empty() }
    }
}

/// What the reader has seen after all of `input`.
pub open spec fn lex(input: Seq<char>) -> Lexed
    decreases input.len(),
{
    if input.len() == 0 {
        Lexed { tokens: Seq::<Token>::empty(), digits: Seq::<char>::empty() }
    } else {
        lex_step(lex(input.drop_last()), input.last())
    }
}

/// The tokens of `input`, with every multiplication that a juxtaposition
/// means written out, and every number without leading zeros.
pub open spec fn canonical_tokens(input: Seq<char>) -> Seq<Token> {
    lex_flush(lex(input))
}

/// The stack after one more token.
pub open spec fn feed(stack: Seq<Frame>, token: Token) -> Result<Seq<Frame>, ErrorKind> {
    match token {
        Token::Number(n) => append_num(stack, Num::I32(n as i32)),
        Token::Op(c) => append_op(stack, c),
        Token::Open => append_left(stack),
        Token::Close => append_right(stack),
    }
}

/// The stack after all of `tokens`, or the first error on the way.
pub open spec fn feed_all(tokens: Seq<Token>) -> Result<Seq<Frame>, ErrorKind>
    decreases tokens.len(),
{
    if tokens.len() == 0 {
        Ok(initial().stack)
    } else {
        match feed_all(tokens.drop_last()) {
            Ok(stack) => feed(stack, tokens.last()),
            Err(e) => Err(e),
        }
    }
}

/// The tokens of a tree from left to right, whether the tree is finished
/// or not: a binary operator stands after its first operand, every other
/// term before what is below it, and a closed parenthesis ends with `)`.
pub open spec fn flat(t: Ast) -> Seq<Seq<char>>
    decreases t,
{
    match t.value {
        None => flat_all(t.children),
        Some(Term::Operator(op)) => if op.spec_is_unary() {
            seq![op.text()] + flat_all(t.children)
        } else if t.children.len() == 0 {
            seq![op.text()]
        } else {
            flat(t.children[0]) + seq![op.text()] + flat_all(
                t.children.subrange(1, t.children.len() as int),
            )
        },
        Some(Term::Paren(Paren::Right)) => seq![seq!['(']] + flat_all(t.children) + seq![
            seq![')'],
        ],
        Some(term) => seq![term.text()] + flat_all(t.children),
    }
}

/// The tokens of several trees, one after the other.
pub open spec fn flat_all(ts: Seq<Ast>) -> Seq<Seq<char>>
    decreases ts,
{
    if ts.len() == 0 {
        Seq::<Seq<char>>::empty()
    } else {
        flat_all(ts.drop_last()) + flat(ts.last())
    }
}

/// The tokens that a frame stands for: those of its node and of the
/// finished trees below it.
pub open spec fn head(frame: Frame) -> Seq<Seq<char>> {
    flat(Ast { value: frame.value, children: frame.done })
}

/// The tokens that a stack stands for, from the root down.
pub open spec fn emitted(stack: Seq<Frame>) -> Seq<Seq<char>>
    decreases stack.len(),
{
    if stack.len() == 0 {
        Seq::<Seq<char>>::empty()
    } else {
        emitted(stack.drop_last()) + head(stack.last())
    }
}

/// Whether a node below a frame's node comes last among its tokens: the
/// frame is no closed parenthesis and no binary operator without its left
/// operand.
pub open spec fn open_frame(frame: Frame) -> bool {
    match frame.value {
        Some(Term::Paren(Paren::Right)) => false,
        Some(Term::Operator(op)) => op.spec_is_unary() || frame.done.len() >= 1,
        _ => true,
    }
}

/// What holds of every stack that the parser reaches.
pub open spec fn stack_ok(stack: Seq<Frame>) -> bool {
    &&& stack.len() >= 1
    &&& forall|i: int| 0 <= i < stack.len() - 1 ==> open_frame(#[trigger] stack[i])
    &&& forall|i: int|
        0 <= i < stack.len() ==> ((#[trigger] stack[i]).value matches Some(Term::Operator(op))
            ==> op.spec_is_unary() || stack[i].done.len() >= 1)
    &&& forall|i: int|
        0 <= i < stack.len() ==> ((#[trigger] stack[i]).value is None ==> stack[i].done.len()
            == 0)
}

/// Whether every closed parenthesis in the tree has exactly one child.
pub open spec fn tidy(t: Ast) -> bool
    decreases t,
{
    &&& t.value == Some(Term::Paren(Paren::Right)) ==> t.children.len() == 1
    &&& forall|k: int| 0 <= k < t.children.len() ==> tidy(#[trigger] t.children[k])
}

/// Whether the finished trees of a stack are tidy, every open parenthesis
/// on it is still empty, and a closed one holds one tree.
pub open spec fn tidy_stack(stack: Seq<Frame>) -> bool {
    forall|i: int|
        0 <= i < stack.len() ==> {
            let f = #[trigger] stack[i];
            &&& forall|k: int| 0 <= k < f.done.len() ==> tidy(#[trigger] f.done[k])
            &&& f.value == Some(Term::Paren(Paren::Left)) ==> f.done.len() == 0
            &&& f.value == Some(Term::Paren(Paren::Right)) ==> f.done.len() == 1
        }
}

/// Whether the marker holds what the last token put there.
pub open spec fn top_matches(value: Option<Term>, tokens: Seq<Token>) -> bool {
    if tokens.len() == 0 {
        value is None
    } else {
        match tokens.last() {
            Token::Number(n) => value == Some(Term::Num(Num::I32(n as i32))) && n <= i32::MAX,
            Token::Op(_) => value matches Some(Term::Operator(_)),
            Token::Open => value == Some(Term::Paren(Paren::Left)),
            Token::Close => value == Some(Term::Paren(Paren::Right)),
        }
    }
}

/// Whether every number among the tokens fits in 32 bits and every
/// operator token holds an operator character.
pub open spec fn valid_tokens(tokens: Seq<Token>) -> bool {
    forall|i: int|
        0 <= i < tokens.len() ==> match #[trigger] tokens[i] {
            Token::Number(n) => n <= i32::MAX,
            Token::Op(c) => Operator::spec_is_operator(c),
            _ => true,
        }
}

/// Whether the stack is the one that `tokens` lead to.
pub open spec fn tracks(stack: Seq<Frame>, tokens: Seq<Token>) -> bool {
    &&& valid_tokens(tokens)
    &&& stack_ok(stack)
    &&& tidy_stack(stack)
    &&& emitted(stack) == token_texts(tokens)
    &&& top_matches(stack.last().value, tokens)
    &&& feed_all(tokens) == Ok::<Seq<Frame>, ErrorKind>(stack)
}

/// What a reader that only cuts the input into pieces has seen so far:
/// the pieces as they were written, and the digits read since the last
/// character that was none.
pub struct Pieces {
    pub tokens: Seq<Seq<char>>,
    pub digits: Seq<char>,
}

/// The pieces after the pending digits, if there are any, were added as
/// they are.
pub open spec fn cut_flush(p: Pieces) -> Seq<Seq<char>> {
    if p.digits.len() == 0 {
        p.tokens
    } else {
        p.tokens.push(p.digits)
    }
}

/// The pieces after one more character.
pub open spec fn cut_step(p: Pieces, c: char) -> Pieces {
    if is_digit(c) {
        Pieces { tokens: p.tokens, digits: p.digits.push(c) }
    } else {
        let tokens = cut_flush(p);
        let next = if Operator::spec_is_operator(c) || c == '(' || c == ')' {
            tokens.push(seq![c])
        } else {
            tokens
        };
        Pieces { tokens: next, digits: Seq::<char>::empty() }
    }
}

/// The pieces after all of `input`.
pub open spec fn cut(input: Seq<char>) -> Pieces
    decreases input.len(),
{
    if input.len() == 0 {
        Pieces { tokens: Seq::<Seq<char>>::empty(), digits: Seq::<char>::empty() }
    } else {
        cut_step(cut(input.drop_last()), input.last())
    }
}

/// The tokens of `input` as they were written: runs of digits, operators
/// and parentheses.
pub open spec fn lexemes(input: Seq<char>) -> Seq<Seq<char>> {
    cut_flush(cut(input))
}

/// Whether a run of digits is written without a leading zero.
pub open spec fn no_leading_zero(digits: Seq<char>) -> bool {
    digits.len() == 1 || digits[0] != '0'
}

/// Whether the pending digits can be added as they are: they have no
/// leading zero and do not follow a right parenthesis.
pub open spec fn plain_flush(l: Lexed) -> bool {
    l.digits.len() == 0 || (no_leading_zero(l.digits) && !(l.tokens.len() > 0
        && l.tokens.last() is Close))
}

/// Whether the character `c` can be read as it stands.
pub open spec fn plain_step(l: Lexed, c: char) -> bool {
    is_digit(c) || (plain_flush(l) && (c == '(' ==> !(lex_flush(l).len() > 0
        && lex_flush(l).last().ends_operand())))
}

/// Whether every character of `input` can be read as it stands.
pub open spec fn plain_so_far(input: Seq<char>) -> bool
    decreases input.len(),
{
    input.len() == 0 || (plain_so_far(input.drop_last()) && plain_step(
        lex(input.drop_last()),
        input.last(),
    ))
}

/// Whether `input` is written in plain form: no number has a leading
/// zero, and no multiplication is meant by juxtaposition.
pub open spec fn plain(input: Seq<char>) -> bool {
    plain_so_far(input) && plain_flush(lex(input))
}

} // verus!
