use vstd::prelude::*;
use crate::error::ErrorKind;
use crate::num::Num;
use crate::operator::Operator;
use crate::paren::Paren;
use crate::syntax::{
    append_left, append_num, append_op, append_right, climb, close_at, collapse, find_open,
    flush, initial, join, push_leaf, run, set_top, spec_display, spec_parse, spec_tokens,
    splice, splice_at, step, Ast, Frame, ParseState,
};
use crate::term::Term;
use crate::text::{
    all_digits, digits_value, is_digit, lemma_digits_value_of_nat_digits,
    lemma_nat_digits_are_digits, nat_digits, sign_len, spec_parse_i32,
};
use crate::tokens::{
    add_number, add_open, canonical_tokens, emitted, feed, feed_all, flat, flat_all, head, lex,
    cut, cut_flush, cut_step, lex_flush, lex_step, lexemes, no_leading_zero, open_frame, plain,
    plain_flush, plain_so_far, plain_step, stack_ok, tidy, tidy_stack, token_texts, top_matches,
    tracks, valid_tokens, Lexed, Pieces, Token,
};

verus! {

/// The tokens of trees with one more tree are those of the trees and then
/// those of the tree.
pub proof fn lemma_flat_all_push(ts: Seq<Ast>, x: Ast)
    ensures
        flat_all(ts.push(x)) == flat_all(ts) + flat(x),
{
    assert(ts.push(x).drop_last() =~= ts);
}

/// The tokens of one tree taken as a list of trees.
pub proof fn lemma_flat_all_one(x: Ast)
    ensures
        flat_all(seq![x]) == flat(x),
{
    assert(seq![x].drop_last() =~= Seq::<Ast>::empty());
    assert(flat_all(Seq::<Ast>::empty()) =~= Seq::<Seq<char>>::empty());
    assert(flat_all(seq![x]) =~= flat(x));
}

/// A tree put below the node of an open frame comes last among the
/// frame's tokens.
pub proof fn lemma_open_append(f: Frame, x: Ast)
    requires
        open_frame(f),
    ensures
        flat(Ast { value: f.value, children: f.done.push(x) }) == head(f) + flat(x),
{
    let before = Ast { value: f.value, children: f.done };
    let after = Ast { value: f.value, children: f.done.push(x) };
    lemma_flat_all_push(f.done, x);
    match f.value {
        Some(Term::Operator(op)) => {
            if !op.spec_is_unary() {
                let n = f.done.len() as int;
                assert(after.children[0] == f.done[0]);
                assert(after.children.subrange(1, n + 1) =~= f.done.subrange(1, n).push(x));
                lemma_flat_all_push(f.done.subrange(1, n), x);
                assert(flat(after) =~= flat(before) + flat(x));
            } else {
                assert(flat(after) =~= flat(before) + flat(x));
            }
        },
        _ => {
            assert(flat(after) =~= flat(before) + flat(x));
        },
    }
}

/// The tokens of a stack are those of its first frame and then those of
/// the rest.
pub proof fn lemma_emitted_front(stack: Seq<Frame>)
    requires
        stack.len() >= 1,
    ensures
        emitted(stack) == head(stack[0]) + emitted(stack.subrange(1, stack.len() as int)),
    decreases stack.len(),
{
    let n = stack.len() as int;
    if n == 1 {
        assert(stack.drop_last() =~= Seq::<Frame>::empty());
        assert(stack.subrange(1, n) =~= Seq::<Frame>::empty());
        assert(emitted(stack) =~= head(stack[0]) + emitted(stack.subrange(1, n)));
    } else {
        lemma_emitted_front(stack.drop_last());
        assert(stack.drop_last().subrange(1, n - 1) =~= stack.subrange(1, n).drop_last());
        assert(stack.subrange(1, n).last() == stack.last());
        assert(emitted(stack) =~= head(stack[0]) + emitted(stack.subrange(1, n)));
    }
}

/// The tokens of a stack are those of its upper part and then those of
/// its lower part, wherever it is cut.
pub proof fn lemma_emitted_split(stack: Seq<Frame>, j: int)
    requires
        0 <= j <= stack.len(),
    ensures
        emitted(stack) == emitted(stack.subrange(0, j)) + emitted(
            stack.subrange(j, stack.len() as int),
        ),
    decreases stack.len() - j,
{
    let n = stack.len() as int;
    if j == n {
        assert(stack.subrange(0, j) =~= stack);
        assert(stack.subrange(j, n) =~= Seq::<Frame>::empty());
        assert(emitted(stack) =~= emitted(stack.subrange(0, j)) + emitted(stack.subrange(j, n)));
    } else {
        lemma_emitted_split(stack, j + 1);
        let lower = stack.subrange(j, n);
        lemma_emitted_front(lower);
        assert(lower.subrange(1, lower.len() as int) =~= stack.subrange(j + 1, n));
        assert(stack.subrange(0, j + 1).drop_last() =~= stack.subrange(0, j));
        assert(stack.subrange(0, j + 1).last() == stack[j]);
        assert(emitted(stack) =~= emitted(stack.subrange(0, j)) + emitted(stack.subrange(j, n)));
    }
}

/// The tokens of the tree that a run of frames stands for are the tokens
/// of the frames.
pub proof fn lemma_flat_collapse(stack: Seq<Frame>)
    requires
        stack.len() >= 1,
        forall|i: int| 0 <= i < stack.len() - 1 ==> open_frame(#[trigger] stack[i]),
    ensures
        flat(collapse(stack)) == emitted(stack),
    decreases stack.len(),
{
    let n = stack.len() as int;
    lemma_emitted_front(stack);
    if n == 1 {
        assert(stack.subrange(1, n) =~= Seq::<Frame>::empty());
        assert(emitted(stack) =~= head(stack[0]));
    } else {
        let rest = stack.subrange(1, n);
        assert forall|i: int| 0 <= i < rest.len() - 1 implies open_frame(#[trigger] rest[i]) by {
            assert(rest[i] == stack[i + 1]);
        }
        lemma_flat_collapse(rest);
        lemma_open_append(stack[0], collapse(rest));
    }
}

/// Where the climb stops.
pub proof fn lemma_climb_range(stack: Seq<Frame>, j: int, op: Operator)
    requires
        0 <= j < stack.len(),
    ensures
        climb(stack, j, op) matches Ok(t) ==> 0 <= t <= j,
    decreases j,
{
    if j > 0 {
        lemma_climb_range(stack, j - 1, op);
    }
}

/// Where the search for an open parenthesis ends.
pub proof fn lemma_find_open_range(stack: Seq<Frame>, j: int)
    requires
        0 <= j < stack.len(),
    ensures
        find_open(stack, j) matches Ok(t) ==> 0 <= t < j && stack[t].value == Some(
            Term::Paren(Paren::Left),
        ),
    decreases j,
{
    if j > 0 {
        lemma_find_open_range(stack, j - 1);
    }
}

/// Giving the empty marker a payload adds the payload's token.
pub proof fn lemma_set_top_tokens(stack: Seq<Frame>, value: Term)
    requires
        stack_ok(stack),
        stack.last().value is None,
        value is Num || value == Term::Paren(Paren::Left) || (value matches Term::Operator(op)
            && op.spec_is_unary()),
    ensures
        stack_ok(set_top(stack, value)),
        emitted(set_top(stack, value)) == emitted(stack) + seq![value.text()],
{
    let after = set_top(stack, value);
    let n = stack.len() as int;
    assert(after.drop_last() =~= stack.drop_last());
    assert(stack.last().done =~= Seq::<Ast>::empty());
    assert(flat_all(Seq::<Ast>::empty()) =~= Seq::<Seq<char>>::empty());
    assert(head(stack.last()) =~= Seq::<Seq<char>>::empty());
    assert(head(after.last()) =~= seq![value.text()]);
    assert(emitted(after) =~= emitted(stack) + seq![value.text()]);
    assert forall|i: int| 0 <= i < after.len() - 1 implies open_frame(#[trigger] after[i]) by {
        assert(after[i] == stack[i]);
    }
}

/// A new node below the marker adds the token of what it holds.
pub proof fn lemma_push_leaf_tokens(stack: Seq<Frame>, value: Term)
    requires
        stack_ok(stack),
        stack.last().value != Some(Term::Paren(Paren::Right)),
        value is Num || value == Term::Paren(Paren::Left) || (value matches Term::Operator(op)
            && op.spec_is_unary()),
    ensures
        stack_ok(push_leaf(stack, value)),
        emitted(push_leaf(stack, value)) == emitted(stack) + seq![value.text()],
{
    let after = push_leaf(stack, value);
    assert(after.drop_last() =~= stack);
    assert(flat_all(Seq::<Ast>::empty()) =~= Seq::<Seq<char>>::empty());
    assert(head(after.last()) =~= seq![value.text()]);
    assert forall|i: int| 0 <= i < after.len() - 1 implies open_frame(#[trigger] after[i]) by {
        assert(after[i] == stack[i]);
    }
    assert forall|i: int| 0 <= i < after.len() implies ((#[trigger] after[i]).value matches Some(
        Term::Operator(op),
    ) ==> op.spec_is_unary() || after[i].done.len() >= 1) by {
        if i < stack.len() {
            assert(after[i] == stack[i]);
        }
    }
    assert forall|i: int| 0 <= i < after.len() && (#[trigger] after[i]).value is None implies
        after[i].done.len() == 0 by {
        if i < stack.len() {
            assert(after[i] == stack[i]);
        }
    }
}

/// A binary operator spliced in adds its token.
pub proof fn lemma_splice_tokens(stack: Seq<Frame>, j: int, op: Operator)
    requires
        stack_ok(stack),
        0 <= j < stack.len(),
        !op.spec_is_unary(),
    ensures
        stack_ok(splice_at(stack, j, op)),
        emitted(splice_at(stack, j, op)) == emitted(stack) + seq![op.text()],
        splice_at(stack, j, op).last().value == Some(Term::Operator(op)),
{
    let after = splice_at(stack, j, op);
    let n = stack.len() as int;
    let lower = stack.subrange(j, n);
    let below = collapse(lower);
    assert(after.drop_last() =~= stack.subrange(0, j));
    assert forall|i: int| 0 <= i < lower.len() - 1 implies open_frame(#[trigger] lower[i]) by {
        assert(lower[i] == stack[i + j]);
    }
    lemma_flat_collapse(lower);
    lemma_emitted_split(stack, j);
    let node = Ast { value: Some(Term::Operator(op)), children: seq![below] };
    assert(node.children.subrange(1, 1) =~= Seq::<Ast>::empty());
    assert(flat_all(Seq::<Ast>::empty()) =~= Seq::<Seq<char>>::empty());
    assert(flat(node) =~= flat(below) + seq![op.text()]);
    assert(head(after.last()) == flat(node));
    assert(emitted(after) =~= emitted(stack) + seq![op.text()]);
    assert forall|i: int| 0 <= i < after.len() - 1 implies open_frame(#[trigger] after[i]) by {
        assert(after[i] == stack[i]);
    }
    assert forall|i: int| 0 <= i < after.len() implies ((#[trigger] after[i]).value matches Some(
        Term::Operator(o),
    ) ==> o.spec_is_unary() || after[i].done.len() >= 1) by {
        if i < j {
            assert(after[i] == stack[i]);
        }
    }
    assert forall|i: int| 0 <= i < after.len() && (#[trigger] after[i]).value is None implies
        after[i].done.len() == 0 by {
        if i < j {
            assert(after[i] == stack[i]);
        }
    }
}

/// A parenthesis closed adds the token `)`.
pub proof fn lemma_close_tokens(stack: Seq<Frame>, j: int)
    requires
        stack_ok(stack),
        0 <= j < stack.len() - 1,
        stack[j].value == Some(Term::Paren(Paren::Left)),
    ensures
        stack_ok(close_at(stack, j)),
        emitted(close_at(stack, j)) == emitted(stack) + seq![seq![')']],
        close_at(stack, j).last().value == Some(Term::Paren(Paren::Right)),
{
    let after = close_at(stack, j);
    let n = stack.len() as int;
    let lower = stack.subrange(j + 1, n);
    let below = collapse(lower);
    assert(after.drop_last() =~= stack.subrange(0, j));
    assert forall|i: int| 0 <= i < lower.len() - 1 implies open_frame(#[trigger] lower[i]) by {
        assert(lower[i] == stack[i + j + 1]);
    }
    lemma_flat_collapse(lower);
    lemma_emitted_split(stack, j);
    let from_j = stack.subrange(j, n);
    lemma_emitted_front(from_j);
    assert(from_j[0] == stack[j]);
    assert(from_j.subrange(1, from_j.len() as int) =~= lower);
    lemma_flat_all_push(stack[j].done, below);
    let was = Ast { value: stack[j].value, children: stack[j].done };
    let now = Ast { value: Some(Term::Paren(Paren::Right)), children: stack[j].done.push(below) };
    assert(flat(was) =~= seq![seq!['(']] + flat_all(stack[j].done));
    assert(flat(now) =~= seq![seq!['(']] + flat_all(stack[j].done) + flat(below) + seq![
        seq![')'],
    ]);
    assert(head(after.last()) == flat(now));
    assert(emitted(after) =~= emitted(stack) + seq![seq![')']]);
    assert forall|i: int| 0 <= i < after.len() - 1 implies open_frame(#[trigger] after[i]) by {
        assert(after[i] == stack[i]);
    }
    assert forall|i: int| 0 <= i < after.len() implies ((#[trigger] after[i]).value matches Some(
        Term::Operator(o),
    ) ==> o.spec_is_unary() || after[i].done.len() >= 1) by {
        if i < j {
            assert(after[i] == stack[i]);
        }
    }
    assert forall|i: int| 0 <= i < after.len() && (#[trigger] after[i]).value is None implies
        after[i].done.len() == 0 by {
        if i < j {
            assert(after[i] == stack[i]);
        }
    }
}

/// The tree that a tidy run of frames stands for is tidy.
pub proof fn lemma_tidy_collapse(stack: Seq<Frame>)
    requires
        stack.len() >= 1,
        tidy_stack(stack),
        forall|i: int| 0 <= i < stack.len() - 1 ==> open_frame(#[trigger] stack[i]),
    ensures
        tidy(collapse(stack)),
    decreases stack.len(),
{
    let n = stack.len() as int;
    let t = collapse(stack);
    if n == 1 {
        assert forall|k: int| 0 <= k < t.children.len() implies tidy(#[trigger] t.children[k]) by {
            assert(t.children[k] == stack[0].done[k]);
        }
    } else {
        let rest = stack.subrange(1, n);
        assert forall|i: int| 0 <= i < rest.len() implies {
            let f = #[trigger] rest[i];
            &&& forall|k: int| 0 <= k < f.done.len() ==> tidy(#[trigger] f.done[k])
            &&& f.value == Some(Term::Paren(Paren::Left)) ==> f.done.len() == 0
            &&& f.value == Some(Term::Paren(Paren::Right)) ==> f.done.len() == 1
        } by {
            assert(rest[i] == stack[i + 1]);
        }
        assert forall|i: int| 0 <= i < rest.len() - 1 implies open_frame(#[trigger] rest[i]) by {
            assert(rest[i] == stack[i + 1]);
        }
        lemma_tidy_collapse(rest);
        assert(open_frame(stack[0]));
        assert forall|k: int| 0 <= k < t.children.len() implies tidy(#[trigger] t.children[k]) by {
            if k < stack[0].done.len() {
                assert(t.children[k] == stack[0].done[k]);
            } else {
                assert(t.children[k] == collapse(rest));
            }
        }
    }
}

/// Giving the marker a payload that is no closed parenthesis keeps the
/// stack tidy.
pub proof fn lemma_tidy_set_top(stack: Seq<Frame>, value: Term)
    requires
        stack.len() >= 1,
        tidy_stack(stack),
        stack.last().done.len() == 0,
        value != Term::Paren(Paren::Right),
    ensures
        tidy_stack(set_top(stack, value)),
{
    let after = set_top(stack, value);
    assert forall|i: int| 0 <= i < after.len() implies {
        let f = #[trigger] after[i];
        &&& forall|k: int| 0 <= k < f.done.len() ==> tidy(#[trigger] f.done[k])
        &&& f.value == Some(Term::Paren(Paren::Left)) ==> f.done.len() == 0
        &&& f.value == Some(Term::Paren(Paren::Right)) ==> f.done.len() == 1
    } by {
        if i < stack.len() - 1 {
            assert(after[i] == stack[i]);
        }
    }
}

/// A new node below the marker that is no closed parenthesis keeps the
/// stack tidy.
pub proof fn lemma_tidy_push_leaf(stack: Seq<Frame>, value: Term)
    requires
        tidy_stack(stack),
        value != Term::Paren(Paren::Right),
    ensures
        tidy_stack(push_leaf(stack, value)),
{
    let after = push_leaf(stack, value);
    assert forall|i: int| 0 <= i < after.len() implies {
        let f = #[trigger] after[i];
        &&& forall|k: int| 0 <= k < f.done.len() ==> tidy(#[trigger] f.done[k])
        &&& f.value == Some(Term::Paren(Paren::Left)) ==> f.done.len() == 0
        &&& f.value == Some(Term::Paren(Paren::Right)) ==> f.done.len() == 1
    } by {
        if i < stack.len() {
            assert(after[i] == stack[i]);
        }
    }
}

/// An operator spliced in keeps the stack tidy.
pub proof fn lemma_tidy_splice(stack: Seq<Frame>, j: int, op: Operator)
    requires
        stack_ok(stack),
        tidy_stack(stack),
        0 <= j < stack.len(),
    ensures
        tidy_stack(splice_at(stack, j, op)),
{
    let after = splice_at(stack, j, op);
    let n = stack.len() as int;
    let lower = stack.subrange(j, n);
    assert forall|i: int| 0 <= i < lower.len() implies {
        let f = #[trigger] lower[i];
        &&& forall|k: int| 0 <= k < f.done.len() ==> tidy(#[trigger] f.done[k])
        &&& f.value == Some(Term::Paren(Paren::Left)) ==> f.done.len() == 0
        &&& f.value == Some(Term::Paren(Paren::Right)) ==> f.done.len() == 1
    } by {
        assert(lower[i] == stack[i + j]);
    }
    assert forall|i: int| 0 <= i < lower.len() - 1 implies open_frame(#[trigger] lower[i]) by {
        assert(lower[i] == stack[i + j]);
    }
    lemma_tidy_collapse(lower);
    assert forall|i: int| 0 <= i < after.len() implies {
        let f = #[trigger] after[i];
        &&& forall|k: int| 0 <= k < f.done.len() ==> tidy(#[trigger] f.done[k])
        &&& f.value == Some(Term::Paren(Paren::Left)) ==> f.done.len() == 0
        &&& f.value == Some(Term::Paren(Paren::Right)) ==> f.done.len() == 1
    } by {
        if i < j {
            assert(after[i] == stack[i]);
        } else {
            assert(after[i].done[0] == collapse(lower));
        }
    }
}

/// A parenthesis closed keeps the stack tidy.
pub proof fn lemma_tidy_close(stack: Seq<Frame>, j: int)
    requires
        stack_ok(stack),
        tidy_stack(stack),
        0 <= j < stack.len() - 1,
        stack[j].value == Some(Term::Paren(Paren::Left)),
    ensures
        tidy_stack(close_at(stack, j)),
{
    let after = close_at(stack, j);
    let n = stack.len() as int;
    let lower = stack.subrange(j + 1, n);
    assert forall|i: int| 0 <= i < lower.len() implies {
        let f = #[trigger] lower[i];
        &&& forall|k: int| 0 <= k < f.done.len() ==> tidy(#[trigger] f.done[k])
        &&& f.value == Some(Term::Paren(Paren::Left)) ==> f.done.len() == 0
        &&& f.value == Some(Term::Paren(Paren::Right)) ==> f.done.len() == 1
    } by {
        assert(lower[i] == stack[i + j + 1]);
    }
    assert forall|i: int| 0 <= i < lower.len() - 1 implies open_frame(#[trigger] lower[i]) by {
        assert(lower[i] == stack[i + j + 1]);
    }
    lemma_tidy_collapse(lower);
    assert(stack[j].done.len() == 0);
    assert forall|i: int| 0 <= i < after.len() implies {
        let f = #[trigger] after[i];
        &&& forall|k: int| 0 <= k < f.done.len() ==> tidy(#[trigger] f.done[k])
        &&& f.value == Some(Term::Paren(Paren::Left)) ==> f.done.len() == 0
        &&& f.value == Some(Term::Paren(Paren::Right)) ==> f.done.len() == 1
    } by {
        if i < j {
            assert(after[i] == stack[i]);
        } else {
            assert(after[i].done[0] == collapse(lower));
        }
    }
}

/// An operator that was read from a character has that character as its
/// text, and is a sign exactly where a sign was asked for.
pub proof fn lemma_operator_text(c: char, unary: bool)
    ensures
        Operator::spec_parse(c, unary) matches Ok(op) ==> op.text() == seq![c]
            && op.spec_is_unary() == unary && Operator::spec_is_operator(c),
{
    match Operator::spec_parse(c, unary) {
        Ok(op) => {
            assert(op.text() =~= seq![c]);
        },
        Err(_) => {},
    }
}

/// Feeding one more token.
pub proof fn lemma_feed_all_push(tokens: Seq<Token>, token: Token)
    ensures
        feed_all(tokens.push(token)) == (match feed_all(tokens) {
            Ok(stack) => feed(stack, token),
            Err(e) => Err(e),
        }),
        token_texts(tokens.push(token)) == token_texts(tokens) + seq![token.text()],
        valid_tokens(tokens) && valid_tokens(seq![token]) ==> valid_tokens(tokens.push(token)),
{
    if valid_tokens(tokens) && valid_tokens(seq![token]) {
        assert forall|i: int| 0 <= i < tokens.push(token).len() implies match #[trigger] tokens.push(
            token,
        )[i] {
            Token::Number(n) => n <= i32::MAX,
            Token::Op(c) => Operator::spec_is_operator(c),
            _ => true,
        } by {
            if i < tokens.len() {
                assert(tokens.push(token)[i] == tokens[i]);
            } else {
                assert(tokens.push(token)[i] == seq![token][0]);
            }
        }
    }
    assert(tokens.push(token).drop_last() =~= tokens);
    assert(token_texts(tokens.push(token)) =~= token_texts(tokens) + seq![token.text()]);
}

/// The parser follows the tokens when a number is inserted.
pub proof fn lemma_feed_number(stack: Seq<Frame>, tokens: Seq<Token>, n: nat)
    requires
        tracks(stack, tokens),
        n <= i32::MAX,
        append_num(stack, Num::I32(n as i32)) is Ok,
    ensures
        tracks(append_num(stack, Num::I32(n as i32))->Ok_0, add_number(tokens, n)),
{
    let value = Term::Num(Num::I32(n as i32));
    assert(value.text() == Token::Number(n).text());
    let after = append_num(stack, Num::I32(n as i32))->Ok_0;
    match stack.last().value {
        None => {
            lemma_set_top_tokens(stack, value);
            lemma_tidy_set_top(stack, value);
            lemma_feed_all_push(tokens, Token::Number(n));
        },
        Some(Term::Num(_)) => {},
        Some(Term::Operator(_)) => {
            lemma_push_leaf_tokens(stack, value);
            lemma_tidy_push_leaf(stack, value);
            lemma_feed_all_push(tokens, Token::Number(n));
        },
        Some(Term::Paren(Paren::Left)) => {
            lemma_push_leaf_tokens(stack, value);
            lemma_tidy_push_leaf(stack, value);
            lemma_feed_all_push(tokens, Token::Number(n));
        },
        Some(Term::Paren(Paren::Right)) => {
            let j = climb(stack, stack.len() - 1, Operator::Mul)->Ok_0;
            lemma_climb_range(stack, stack.len() - 1, Operator::Mul);
            lemma_splice_tokens(stack, j, Operator::Mul);
            lemma_tidy_splice(stack, j, Operator::Mul);
            let mid = splice_at(stack, j, Operator::Mul);
            lemma_push_leaf_tokens(mid, value);
            lemma_tidy_push_leaf(mid, value);
            let star = Token::Op('*');
            lemma_feed_all_push(tokens, star);
            lemma_feed_all_push(tokens.push(star), Token::Number(n));
            assert(Operator::Mul.text() =~= star.text());
            assert(feed(stack, star) == Ok::<Seq<Frame>, ErrorKind>(mid));
            assert(feed(mid, Token::Number(n)) == Ok::<Seq<Frame>, ErrorKind>(after));
        },
    }
}

/// The parser follows the tokens when an operator is inserted.
pub proof fn lemma_feed_op(stack: Seq<Frame>, tokens: Seq<Token>, c: char)
    requires
        tracks(stack, tokens),
        append_op(stack, c) is Ok,
    ensures
        tracks(append_op(stack, c)->Ok_0, tokens.push(Token::Op(c))),
{
    lemma_feed_all_push(tokens, Token::Op(c));
    lemma_operator_text(c, true);
    lemma_operator_text(c, false);
    match stack.last().value {
        Some(Term::Operator(_)) => {},
        Some(Term::Paren(Paren::Left)) => {
            let op = Operator::spec_parse(c, true)->Ok_0;
            lemma_push_leaf_tokens(stack, Term::Operator(op));
            lemma_tidy_push_leaf(stack, Term::Operator(op));
        },
        None => {
            let op = Operator::spec_parse(c, true)->Ok_0;
            lemma_set_top_tokens(stack, Term::Operator(op));
            lemma_tidy_set_top(stack, Term::Operator(op));
        },
        _ => {
            let op = Operator::spec_parse(c, false)->Ok_0;
            let j = climb(stack, stack.len() - 1, op)->Ok_0;
            lemma_climb_range(stack, stack.len() - 1, op);
            lemma_splice_tokens(stack, j, op);
            lemma_tidy_splice(stack, j, op);
        },
    }
}

/// The parser follows the tokens when a left parenthesis is inserted.
pub proof fn lemma_feed_open(stack: Seq<Frame>, tokens: Seq<Token>)
    requires
        tracks(stack, tokens),
        append_left(stack) is Ok,
    ensures
        tracks(append_left(stack)->Ok_0, add_open(tokens)),
{
    let value = Term::Paren(Paren::Left);
    assert(value.text() == Token::Open.text());
    let after = append_left(stack)->Ok_0;
    match stack.last().value {
        None => {
            lemma_set_top_tokens(stack, value);
            lemma_tidy_set_top(stack, value);
            lemma_feed_all_push(tokens, Token::Open);
        },
        Some(Term::Operator(_)) => {
            lemma_push_leaf_tokens(stack, value);
            lemma_tidy_push_leaf(stack, value);
            lemma_feed_all_push(tokens, Token::Open);
        },
        Some(Term::Paren(Paren::Left)) => {
            lemma_push_leaf_tokens(stack, value);
            lemma_tidy_push_leaf(stack, value);
            lemma_feed_all_push(tokens, Token::Open);
        },
        _ => {
            let j = climb(stack, stack.len() - 1, Operator::Mul)->Ok_0;
            lemma_climb_range(stack, stack.len() - 1, Operator::Mul);
            lemma_splice_tokens(stack, j, Operator::Mul);
            lemma_tidy_splice(stack, j, Operator::Mul);
            let mid = splice_at(stack, j, Operator::Mul);
            lemma_push_leaf_tokens(mid, value);
            lemma_tidy_push_leaf(mid, value);
            let star = Token::Op('*');
            lemma_feed_all_push(tokens, star);
            lemma_feed_all_push(tokens.push(star), Token::Open);
            assert(Operator::Mul.text() =~= star.text());
            assert(feed(stack, star) == Ok::<Seq<Frame>, ErrorKind>(mid));
            assert(feed(mid, Token::Open) == Ok::<Seq<Frame>, ErrorKind>(after));
        },
    }
}

/// The parser follows the tokens when a right parenthesis is inserted.
pub proof fn lemma_feed_close(stack: Seq<Frame>, tokens: Seq<Token>)
    requires
        tracks(stack, tokens),
        append_right(stack) is Ok,
    ensures
        tracks(append_right(stack)->Ok_0, tokens.push(Token::Close)),
{
    lemma_feed_all_push(tokens, Token::Close);
    let j = find_open(stack, stack.len() - 1)->Ok_0;
    lemma_find_open_range(stack, stack.len() - 1);
    lemma_close_tokens(stack, j);
    lemma_tidy_close(stack, j);
}

/// Whether the parser and the reader of tokens have seen the same: the
/// same pending digits, and a stack that the tokens lead to.
pub open spec fn in_step(state: ParseState, l: Lexed) -> bool {
    &&& state.digits == l.digits
    &&& all_digits(l.digits)
    &&& tracks(state.stack, l.tokens)
}

/// A run of digits that the parser accepts stands for its value.
pub proof fn lemma_digits_number(digits: Seq<char>)
    requires
        digits.len() > 0,
        all_digits(digits),
    ensures
        spec_parse_i32(digits) matches Some(n) ==> n == digits_value(digits),
        spec_parse_i32(digits) is Some <==> digits_value(digits) <= i32::MAX,
{
    assert(is_digit(digits[0]));
    assert(sign_len(digits) == 0);
    assert(digits.subrange(0, digits.len() as int) =~= digits);
}

/// The parser follows the tokens when the pending digits are flushed.
pub proof fn lemma_flush(state: ParseState, l: Lexed)
    requires
        in_step(state, l),
        flush(state) is Ok,
    ensures
        tracks(flush(state)->Ok_0, lex_flush(l)),
{
    if state.digits.len() > 0 {
        lemma_digits_number(state.digits);
        lemma_feed_number(state.stack, l.tokens, digits_value(state.digits));
    }
}

/// The parser follows the tokens over one character.
pub proof fn lemma_step(state: ParseState, l: Lexed, c: char)
    requires
        in_step(state, l),
        step(state, c) is Ok,
    ensures
        in_step(step(state, c)->Ok_0, lex_step(l, c)),
{
    if is_digit(c) {
        assert(all_digits(l.digits.push(c)));
    } else {
        lemma_flush(state, l);
        let stack = flush(state)->Ok_0;
        let tokens = lex_flush(l);
        if Operator::spec_is_operator(c) {
            lemma_feed_op(stack, tokens, c);
        } else if c == '(' {
            lemma_feed_open(stack, tokens);
        } else if c == ')' {
            lemma_feed_close(stack, tokens);
        }
    }
}

/// The parser follows the tokens over the whole input.
pub proof fn lemma_run(input: Seq<char>)
    requires
        run(input) is Ok,
    ensures
        in_step(run(input)->Ok_0, lex(input)),
    decreases input.len(),
{
    if input.len() == 0 {
        let stack = initial().stack;
        assert(stack.drop_last() =~= Seq::<Frame>::empty());
        assert(flat_all(Seq::<Ast>::empty()) =~= Seq::<Seq<char>>::empty());
        assert(stack.last().done =~= Seq::<Ast>::empty());
        assert(head(stack.last()) =~= Seq::<Seq<char>>::empty());
        assert(emitted(Seq::<Frame>::empty()) =~= Seq::<Seq<char>>::empty());
        assert(emitted(stack) =~= Seq::<Seq<char>>::empty());
        assert(emitted(stack) =~= token_texts(Seq::<Token>::empty()));
    } else {
        lemma_run(input.drop_last());
        lemma_step(run(input.drop_last())->Ok_0, lex(input.drop_last()), input.last());
    }
}

/// The tokens of a tree that was parsed are the tokens of the input in
/// canonical form, whether the tree is finished or not.
pub proof fn lemma_parsed_tokens(input: Seq<char>)
    requires
        spec_parse(input) is Ok,
    ensures
        flat(spec_parse(input)->Ok_0) == token_texts(canonical_tokens(input)),
        feed_all(canonical_tokens(input)) is Ok,
        spec_parse(input)->Ok_0 == collapse(feed_all(canonical_tokens(input))->Ok_0),
{
    lemma_run(input);
    let state = run(input)->Ok_0;
    lemma_flush(state, lex(input));
    lemma_flat_collapse(flush(state)->Ok_0);
}

/// In a tree that was parsed, every closed parenthesis has exactly one
/// child.
pub proof fn lemma_parsed_tidy(input: Seq<char>)
    requires
        spec_parse(input) is Ok,
    ensures
        tidy(spec_parse(input)->Ok_0),
{
    lemma_run(input);
    let state = run(input)->Ok_0;
    lemma_flush(state, lex(input));
    lemma_tidy_collapse(flush(state)->Ok_0);
}

/// The tokens that `display` shows for a finished tree are the tokens of
/// the tree.
pub proof fn lemma_tokens_flat(t: Ast)
    requires
        spec_tokens(t) is Ok,
    ensures
        spec_tokens(t)->Ok_0 == flat(t),
    decreases t,
{
    assert(flat_all(Seq::<Ast>::empty()) =~= Seq::<Seq<char>>::empty());
    match t.value {
        None => {},
        Some(Term::Operator(op)) => {
            if op.spec_is_unary() {
                lemma_tokens_flat(t.children[0]);
                assert(t.children =~= seq![t.children[0]]);
                lemma_flat_all_one(t.children[0]);
            } else {
                lemma_tokens_flat(t.children[0]);
                lemma_tokens_flat(t.children[1]);
                assert(t.children.subrange(1, 2) =~= seq![t.children[1]]);
                lemma_flat_all_one(t.children[1]);
            }
        },
        Some(Term::Num(num)) => {
            assert(t.children =~= Seq::<Ast>::empty());
            assert(flat(t) =~= seq![num.text()]);
        },
        Some(Term::Paren(paren)) => {
            lemma_tokens_flat(t.children[0]);
            assert(t.children =~= seq![t.children[0]]);
            lemma_flat_all_one(t.children[0]);
        },
    }
}

/// Parsing and then displaying normalizes the input: where the input
/// parses to a finished tree, the text shown is the tokens of the input in
/// canonical form with exactly one space between each two of them.
pub proof fn round_trip(input: Seq<char>)
    requires
        spec_parse(input) is Ok,
        spec_tokens(spec_parse(input)->Ok_0) is Ok,
    ensures
        spec_display(spec_parse(input)->Ok_0) == join(
            token_texts(canonical_tokens(input)),
            seq![' '],
        ),
{
    lemma_parsed_tokens(input);
    lemma_tokens_flat(spec_parse(input)->Ok_0);
}

/// The state after the characters `chars`, starting from the outcome `r`.
pub open spec fn run_on(r: Result<ParseState, ErrorKind>, chars: Seq<char>) -> Result<
    ParseState,
    ErrorKind,
>
    decreases chars.len(),
{
    if chars.len() == 0 {
        r
    } else {
        match run_on(r, chars.drop_last()) {
            Ok(state) => step(state, chars.last()),
            Err(e) => Err(e),
        }
    }
}

/// Running over two texts one after the other is running over the first
/// and going on over the second.
pub proof fn lemma_run_append(a: Seq<char>, b: Seq<char>)
    ensures
        run(a + b) == run_on(run(a), b),
    decreases b.len(),
{
    if b.len() == 0 {
        assert(a + b =~= a);
    } else {
        lemma_run_append(a, b.drop_last());
        assert((a + b).drop_last() =~= a + b.drop_last());
        assert((a + b).last() == b.last());
    }
}

/// Digits only pile up.
pub proof fn lemma_run_on_digits(state: ParseState, digits: Seq<char>)
    requires
        all_digits(digits),
    ensures
        run_on(Ok(state), digits) == Ok::<ParseState, ErrorKind>(
            ParseState { stack: state.stack, digits: state.digits + digits },
        ),
    decreases digits.len(),
{
    if digits.len() == 0 {
        assert(state.digits + digits =~= state.digits);
    } else {
        let shorter = digits.drop_last();
        assert(all_digits(shorter));
        lemma_run_on_digits(state, shorter);
        assert(is_digit(digits.last()));
        assert((state.digits + shorter).push(digits.last()) =~= state.digits + digits);
    }
}

/// Going on over one character is one step.
pub proof fn lemma_run_on_one(state: ParseState, c: char)
    ensures
        run_on(Ok(state), seq![c]) == step(state, c),
{
    let text = seq![c];
    assert(text.drop_last() =~= Seq::<char>::empty());
    assert(run_on(Ok(state), text.drop_last()) == Ok::<ParseState, ErrorKind>(state));
    assert(text.last() == c);
}

/// After the characters of a token the parser has taken the token in, or
/// holds its digits.
pub proof fn lemma_token_chars(stack: Seq<Frame>, token: Token)
    requires
        feed(stack, token) is Ok,
        valid_tokens(seq![token]),
    ensures
        ({
            let start = ParseState { stack, digits: Seq::<char>::empty() };
            let r = run_on(Ok(start), token.text());
            r is Ok && flush(r->Ok_0) == feed(stack, token)
        }),
{
    let start = ParseState { stack, digits: Seq::<char>::empty() };
    assert(seq![token][0] == token);
    match token {
        Token::Number(n) => {
            let digits = nat_digits(n);
            lemma_nat_digits_are_digits(n);
            lemma_digits_value_of_nat_digits(n);
            lemma_run_on_digits(start, digits);
            assert(start.digits + digits =~= digits);
            lemma_digits_number(digits);
        },
        Token::Op(c) => {
            let text = seq![c];
            lemma_run_on_one(start, c);
        },
        Token::Open => {
            let text = seq!['('];
            lemma_run_on_one(start, '(');
        },
        Token::Close => {
            let text = seq![')'];
            lemma_run_on_one(start, ')');
        },
    }
}

/// A space makes the parser take in the pending digits.
pub proof fn lemma_space(state: ParseState)
    requires
        flush(state) is Ok,
    ensures
        run_on(Ok(state), seq![' ']) == Ok::<ParseState, ErrorKind>(
            ParseState { stack: flush(state)->Ok_0, digits: Seq::<char>::empty() },
        ),
{
    lemma_run_on_one(state, ' ');
}

/// The parser takes the text of tokens with one space between each two
/// of them back to the stack that the tokens lead to.
pub proof fn lemma_joined_tokens(tokens: Seq<Token>)
    requires
        tokens.len() >= 1,
        valid_tokens(tokens),
        feed_all(tokens) is Ok,
    ensures
        ({
            let r = run(join(token_texts(tokens), seq![' ']));
            r is Ok && flush(r->Ok_0) == feed_all(tokens)
        }),
    decreases tokens.len(),
{
    let texts = token_texts(tokens);
    let last = tokens.last();
    let text = last.text();
    let empty = Seq::<char>::empty();
    assert(valid_tokens(seq![last])) by {
        assert(seq![last][0] == tokens[tokens.len() - 1]);
    }
    if tokens.len() == 1 {
        assert(tokens.drop_last() =~= Seq::<Token>::empty());
        assert(feed_all(tokens) == feed(initial().stack, last));
        assert(join(texts, seq![' ']) == text);
        lemma_run_append(empty, text);
        assert(empty + text =~= text);
        lemma_token_chars(initial().stack, last);
    } else {
        let before = tokens.drop_last();
        assert(valid_tokens(before)) by {
            assert forall|i: int| 0 <= i < before.len() implies match #[trigger] before[i] {
                Token::Number(n) => n <= i32::MAX,
                Token::Op(c) => Operator::spec_is_operator(c),
                _ => true,
            } by {
                assert(before[i] == tokens[i]);
            }
        }
        lemma_joined_tokens(before);
        assert(texts.drop_last() =~= token_texts(before));
        assert(texts.last() == text);
        let shown = join(token_texts(before), seq![' ']);
        assert(join(texts, seq![' ']) == shown + seq![' '] + text);
        let state = run(shown)->Ok_0;
        let stack = feed_all(before)->Ok_0;
        lemma_run_append(shown, seq![' ']);
        lemma_space(state);
        lemma_run_append(shown + seq![' '], text);
        lemma_token_chars(stack, last);
    }
}

/// What `display` shows for a parsed and finished tree is parsed back to
/// the same tree: displaying is idempotent.
pub proof fn display_idempotent(input: Seq<char>)
    requires
        spec_parse(input) is Ok,
        spec_tokens(spec_parse(input)->Ok_0) is Ok,
    ensures
        spec_parse(spec_display(spec_parse(input)->Ok_0)) == spec_parse(input),
        spec_display(spec_parse(spec_display(spec_parse(input)->Ok_0))->Ok_0) == spec_display(
            spec_parse(input)->Ok_0,
        ),
{
    let tree = spec_parse(input)->Ok_0;
    let tokens = canonical_tokens(input);
    lemma_parsed_tokens(input);
    lemma_tokens_flat(tree);
    lemma_run(input);
    lemma_flush(run(input)->Ok_0, lex(input));
    if tokens.len() == 0 {
        assert(feed_all(tokens) == Ok::<Seq<Frame>, ErrorKind>(initial().stack));
        assert(tree.value is None);
    }
    lemma_joined_tokens(tokens);
}

/// A run of digits that does not start with `0` stands for a number that
/// is not zero.
pub proof fn lemma_leading_digit(digits: Seq<char>)
    requires
        digits.len() >= 1,
        all_digits(digits),
        digits[0] != '0',
    ensures
        digits_value(digits) >= 1,
    decreases digits.len(),
{
    assert(is_digit(digits.last()));
    if digits.len() == 1 {
        assert(digits.drop_last() =~= Seq::<char>::empty());
        assert(digits_value(digits.drop_last()) == 0);
    } else {
        assert(all_digits(digits.drop_last()));
        lemma_leading_digit(digits.drop_last());
    }
}

/// A run of digits without a leading zero is the text of the number that
/// it stands for.
pub proof fn lemma_digits_canonical(digits: Seq<char>)
    requires
        digits.len() >= 1,
        all_digits(digits),
        no_leading_zero(digits),
    ensures
        nat_digits(digits_value(digits)) == digits,
    decreases digits.len(),
{
    let c = digits.last();
    assert(is_digit(c));
    let shorter = digits.drop_last();
    if digits.len() == 1 {
        assert(shorter =~= Seq::<char>::empty());
        assert(digits_value(shorter) == 0);
        assert(nat_digits(digits_value(digits)) =~= digits);
    } else {
        assert(all_digits(shorter));
        assert(shorter[0] == digits[0]);
        lemma_leading_digit(shorter);
        lemma_digits_canonical(shorter);
        let v = digits_value(digits);
        let d = c as int - '0' as int;
        assert(v == digits_value(shorter) * 10 + d);
        assert(v / 10 == digits_value(shorter) && v % 10 == d) by (nonlinear_arith)
            requires
                v == digits_value(shorter) * 10 + d,
                0 <= d < 10,
        ;
        assert(nat_digits(v) =~= digits);
    }
}

/// Where nothing has to be changed, the canonical tokens read so far
/// are the pieces of the input as they were written.
pub proof fn lemma_plain_so_far(input: Seq<char>)
    requires
        plain_so_far(input),
    ensures
        token_texts(lex(input).tokens) == cut(input).tokens,
        lex(input).digits == cut(input).digits,
        all_digits(lex(input).digits),
    decreases input.len(),
{
    if input.len() == 0 {
        assert(token_texts(lex(input).tokens) =~= cut(input).tokens);
    } else {
        let before = input.drop_last();
        let c = input.last();
        lemma_plain_so_far(before);
        let l = lex(before);
        let p = cut(before);
        if is_digit(c) {
            assert(all_digits(l.digits.push(c)));
        } else {
            lemma_plain_flush(l, p);
            let tokens = lex_flush(l);
            if Operator::spec_is_operator(c) {
                assert(token_texts(tokens.push(Token::Op(c))) =~= token_texts(tokens).push(
                    seq![c],
                ));
            } else if c == '(' {
                assert(token_texts(tokens.push(Token::Open)) =~= token_texts(tokens).push(
                    seq![c],
                ));
            } else if c == ')' {
                assert(token_texts(tokens.push(Token::Close)) =~= token_texts(tokens).push(
                    seq![c],
                ));
            }
        }
    }
}

/// Where the pending digits can be added as they are, adding them keeps
/// the canonical tokens and the pieces the same.
pub proof fn lemma_plain_flush(l: Lexed, p: Pieces)
    requires
        plain_flush(l),
        token_texts(l.tokens) == p.tokens,
        l.digits == p.digits,
        all_digits(l.digits),
    ensures
        token_texts(lex_flush(l)) == cut_flush(p),
{
    if l.digits.len() > 0 {
        lemma_digits_canonical(l.digits);
        let n = digits_value(l.digits);
        assert(token_texts(l.tokens.push(Token::Number(n))) =~= token_texts(l.tokens).push(
            l.digits,
        ));
    }
}

/// Parsing and then displaying an input in plain form puts exactly one
/// space between each two of its tokens and changes nothing else.
pub proof fn round_trip_plain(input: Seq<char>)
    requires
        spec_parse(input) is Ok,
        spec_tokens(spec_parse(input)->Ok_0) is Ok,
        plain(input),
    ensures
        spec_display(spec_parse(input)->Ok_0) == join(lexemes(input), seq![' ']),
{
    round_trip(input);
    lemma_plain_so_far(input);
    lemma_plain_flush(lex(input), cut(input));
}

} // verus!
