use vstd::prelude::*;
use vstd::string::*;
use crate::error::ErrorKind;
use crate::expression::spine::{
    attached, attached_notes, closed, closed_notes, first_notes, frames, inv, leaf, lemma_attach,
    lemma_close, lemma_finish, lemma_first, lemma_root_of_spine, lemma_set_value, lemma_spine_node,
    lemma_splice, settled_shapes, spliced, spliced_notes, Notes,
};
use crate::expression::{Expression, TermType};
use crate::node::{Node, Tree};
use crate::num::Num;
use crate::operator::Operator;
use crate::paren::Paren;
use crate::syntax::{
    append_left, append_num, append_op, append_paren, append_right, climb, close_at, collapse,
    find_open, flush, initial, is_blank, push_leaf, run, set_top, spec_parse, splice, splice_at,
    step, Frame, ParseState,
};
use crate::term::Term;
use crate::text::{digit_str, is_digit, spec_parse_i32};

verus! {

/// The tree under construction and the marker: the node that was inserted
/// last.
pub(crate) struct Parser {
    tree: Tree<Term>,
    marker: usize,
    notes: Ghost<Notes>,
}

impl Parser {
    /// The invariant of the parser between two steps.
    pub closed spec fn wf(self) -> bool {
        &&& inv(self.tree@, self.notes@)
        &&& self.notes@.spine.len() >= 1
        &&& self.marker == self.notes@.spine.last()
    }

    /// The frames from the root to the marker.
    pub closed spec fn stack(self) -> Seq<Frame> {
        frames(self.tree@, self.notes@)
    }

    /// Whether the parser stands where `s` says, or failed as `s` says.
    pub open spec fn follows(self, r: Result<(), ErrorKind>, s: Result<Seq<Frame>, ErrorKind>) -> bool {
        match s {
            Ok(stack) => r is Ok && self.wf() && self.stack() == stack,
            Err(e) => r == Err::<(), ErrorKind>(e),
        }
    }

    /// A parser over one empty node, which is root and marker.
    pub(super) fn new() -> (r: Self)
        ensures
            r.wf(),
            r.stack() == initial().stack,
    {
        let mut tree = Tree::new();
        let root = tree.insert(Node::new(None));
        proof {
            lemma_first();
            assert(tree@ =~= seq![leaf(None)]);
        }
        Parser { tree, marker: root, notes: Ghost(first_notes()) }
    }

    /// Gives the marker a payload.
    pub(super) fn set_marker_value(&mut self, value: Term)
        requires
            old(self).wf(),
            value.wf(),
        ensures
            final(self).wf(),
            final(self).stack() == set_top(old(self).stack(), value),
    {
        proof {
            lemma_spine_node(self.tree@, self.notes@, self.notes@.spine.len() - 1);
            lemma_set_value(self.tree@, self.notes@, value);
        }
        self.tree.set_value(self.marker, value);
    }

    /// Puts a new node holding `value` below the marker and moves the
    /// marker to it.
    pub(super) fn add_leaf(&mut self, value: Term)
        requires
            old(self).wf(),
            value.wf(),
        ensures
            final(self).wf(),
            final(self).stack() == push_leaf(old(self).stack(), value),
    {
        let ghost before = self.tree@;
        let ghost held = value;
        proof {
            lemma_spine_node(self.tree@, self.notes@, self.notes@.spine.len() - 1);
        }
        let new_marker = self.tree.insert(Node::new(Some(value)));
        self.tree.add_child(self.marker, new_marker);
        proof {
            self.tree.lemma_sized();
            assert(self.tree@ == attached(before, self.notes@, held, new_marker));
            lemma_attach(before, self.notes@, held, new_marker);
        }
        self.notes = Ghost(attached_notes(self.notes@, new_marker));
        self.marker = new_marker;
    }

    /// The nearest open parenthesis above the spine node `at`.
    fn search_left_paren_loop(&self, at: usize, Ghost(j): Ghost<int>) -> (r: Result<
        (usize, Ghost<int>),
        ErrorKind,
    >)
        requires
            self.wf(),
            0 <= j < self.notes@.spine.len(),
            at == self.notes@.spine[j],
        ensures
            match find_open(self.stack(), j) {
                Ok(t) => r matches Ok((id, pos)) && pos@ == t && 0 <= t < j && id
                    == self.notes@.spine[t],
                Err(e) => r matches Err(x) && x == e,
            },
        decreases j,
    {
        proof {
            lemma_spine_node(self.tree@, self.notes@, j);
            if j > 0 {
                lemma_spine_node(self.tree@, self.notes@, j - 1);
            }
        }
        match self.tree.parent(at) {
            Some((parent, _)) => {
                let recursive_flag = match self.tree.value(parent) {
                    Some(Term::Paren(paren)) => !paren.is_left(),
                    _ => true,
                };
                if recursive_flag {
                    self.search_left_paren_loop(parent, Ghost(j - 1))
                } else {
                    Ok((parent, Ghost(j - 1)))
                }
            },
            None => Err(ErrorKind::MismatchedParen),
        }
    }

    /// Closes the nearest open parenthesis above the marker.
    fn append_right_paren_to_node(&mut self) -> (r: Result<(), ErrorKind>)
        requires
            old(self).wf(),
        ensures
            final(self).follows(r, append_right(old(self).stack())),
    {
        let ghost top = self.notes@.spine.len() - 1;
        proof {
            lemma_spine_node(self.tree@, self.notes@, top);
        }
        match self.tree.value(self.marker) {
            Some(Term::Paren(paren)) => {
                if paren.is_left() {
                    return Err(ErrorKind::EmptyParen);
                }
            },
            _ => {},
        }
        let (found, Ghost(j)) = self.search_left_paren_loop(self.marker, Ghost(top))?;
        proof {
            lemma_spine_node(self.tree@, self.notes@, j);
            lemma_close(self.tree@, self.notes@, j);
        }
        self.tree.set_value(found, Term::Paren(Paren::Right));
        self.notes = Ghost(closed_notes(old(self).tree@, self.notes@, j));
        self.marker = found;
        Ok(())
    }

    /// Climbs from the spine node `at` to the place where `op` belongs and
    /// splices it in there.
    fn append_op_to_node(&mut self, at: usize, Ghost(j): Ghost<int>, op: Operator) -> (r: Result<
        (),
        ErrorKind,
    >)
        requires
            old(self).wf(),
            0 <= j < old(self).notes@.spine.len(),
            at == old(self).notes@.spine[j],
        ensures
            match climb(old(self).stack(), j, op) {
                Ok(t) => r is Ok && final(self).wf() && final(self).stack() == splice_at(
                    old(self).stack(),
                    t,
                    op,
                ),
                Err(e) => r == Err::<(), ErrorKind>(e),
            },
        decreases j,
    {
        let ghost before = self.tree@;
        proof {
            lemma_spine_node(self.tree@, self.notes@, j);
            if j > 0 {
                lemma_spine_node(self.tree@, self.notes@, j - 1);
            }
        }
        match self.tree.parent(at) {
            Some((parent, index)) => {
                let recursive_flag = match self.tree.value(parent) {
                    Some(Term::Operator(parent_op)) => parent_op.priority() >= op.priority(),
                    Some(Term::Paren(paren)) => {
                        if paren.is_left() {
                            false
                        } else {
                            return Err(ErrorKind::ParseFailed);
                        }
                    },
                    _ => {
                        return Err(ErrorKind::ParseFailed);
                    },
                };
                if recursive_flag {
                    self.append_op_to_node(parent, Ghost(j - 1), op)
                } else {
                    let new_marker = self.tree.insert(Node::new(Some(Term::Operator(op))));
                    self.tree.add_child(new_marker, at);
                    self.tree.replace_child(parent, index, new_marker);
                    proof {
                        self.tree.lemma_sized();
                        assert(self.tree@ == spliced(before, self.notes@, j, op, new_marker));
                        lemma_splice(before, self.notes@, j, op, new_marker);
                    }
                    self.notes = Ghost(spliced_notes(before, self.notes@, j, new_marker));
                    self.marker = new_marker;
                    Ok(())
                }
            },
            None => {
                let new_marker = self.tree.insert(Node::new(Some(Term::Operator(op))));
                self.tree.add_child(new_marker, at);
                proof {
                    self.tree.lemma_sized();
                    assert(self.tree@ == spliced(before, self.notes@, j, op, new_marker));
                    lemma_splice(before, self.notes@, j, op, new_marker);
                }
                self.notes = Ghost(spliced_notes(before, self.notes@, j, new_marker));
                self.marker = new_marker;
                Ok(())
            },
        }
    }

    /// Inserts the binary operator `op` after what the marker holds.
    pub(super) fn splice_at_marker(&mut self, op: Operator) -> (r: Result<(), ErrorKind>)
        requires
            old(self).wf(),
        ensures
            final(self).follows(r, splice(old(self).stack(), op)),
    {
        let ghost top = self.notes@.spine.len() - 1;
        proof {
            lemma_spine_node(self.tree@, self.notes@, top);
        }
        self.append_op_to_node(self.marker, Ghost(top), op)
    }

    /// Opens a parenthesis, after a multiplication where the marker holds
    /// an operand.
    fn append_left_paren_to_node(&mut self) -> (r: Result<(), ErrorKind>)
        requires
            old(self).wf(),
        ensures
            final(self).follows(r, append_left(old(self).stack())),
    {
        let ghost top = self.notes@.spine.len() - 1;
        proof {
            lemma_spine_node(self.tree@, self.notes@, top);
        }
        if self.tree.value(self.marker).is_none() {
            self.set_marker_value(Term::Paren(Paren::Left));
            return Ok(());
        }
        let term_type = Expression::get_term_type(&self.tree, self.marker)?;
        match term_type {
            TermType::Num => {
                self.splice_at_marker(Operator::Mul)?;
            },
            TermType::Operator => {},
            TermType::Paren => {
                if Expression::is_right_paren(&self.tree, self.marker)? {
                    self.splice_at_marker(Operator::Mul)?;
                }
            },
        }
        self.add_leaf(Term::Paren(Paren::Left));
        Ok(())
    }

    /// Inserts the parenthesis that `c` stands for.
    fn append_to_ast_paren(&mut self, c: char) -> (r: Result<(), ErrorKind>)
        requires
            old(self).wf(),
        ensures
            final(self).follows(r, append_paren(old(self).stack(), c)),
    {
        let paren = Paren::parse(c)?;
        match paren {
            Paren::Left => self.append_left_paren_to_node(),
            Paren::Right => self.append_right_paren_to_node(),
        }
    }

    /// Inserts the operator that `c` stands for: a sign where no operand
    /// stands before it.
    fn append_to_ast_ops(&mut self, c: char) -> (r: Result<(), ErrorKind>)
        requires
            old(self).wf(),
        ensures
            final(self).follows(r, append_op(old(self).stack(), c)),
    {
        let ghost top = self.notes@.spine.len() - 1;
        proof {
            lemma_spine_node(self.tree@, self.notes@, top);
        }
        let term_type = Expression::get_term_type(&self.tree, self.marker);
        let op = match term_type {
            Ok(TermType::Operator) => {
                return Err(ErrorKind::ConsecutiveOperators);
            },
            Ok(TermType::Paren) => {
                if Expression::is_right_paren(&self.tree, self.marker)? {
                    Operator::parse(c, false)?
                } else {
                    let op = Operator::parse(c, true)?;
                    self.add_leaf(Term::Operator(op));
                    return Ok(());
                }
            },
            Err(_) => {
                let op = Operator::parse(c, true)?;
                self.set_marker_value(Term::Operator(op));
                return Ok(());
            },
            _ => Operator::parse(c, false)?,
        };
        self.splice_at_marker(op)
    }

    /// Inserts the digits in `target` as a number and empties `target`.
    fn append_to_ast_num(&mut self, target: &mut String) -> (r: Result<(), ErrorKind>)
        requires
            old(self).wf(),
        ensures
            match spec_parse_i32(old(target)@) {
                Some(n) => final(self).follows(r, append_num(old(self).stack(), Num::I32(n)))
                    && (r is Ok ==> final(target)@ == Seq::<char>::empty()),
                None => r == Err::<(), ErrorKind>(ErrorKind::InvalidNumber),
            },
    {
        let num = Num::parse(target.as_str())?;
        *target = String::new();
        let ghost top = self.notes@.spine.len() - 1;
        proof {
            lemma_spine_node(self.tree@, self.notes@, top);
        }
        if self.tree.value(self.marker).is_none() {
            self.set_marker_value(Term::Num(num));
            return Ok(());
        }
        let term_type = Expression::get_term_type(&self.tree, self.marker)?;
        match term_type {
            TermType::Num => Err(ErrorKind::ConsecutiveNumbers),
            TermType::Operator => {
                self.add_leaf(Term::Num(num));
                Ok(())
            },
            TermType::Paren => {
                if Expression::is_right_paren(&self.tree, self.marker)? {
                    self.splice_at_marker(Operator::Mul)?;
                    self.add_leaf(Term::Num(num));
                    Ok(())
                } else {
                    self.add_leaf(Term::Num(num));
                    Ok(())
                }
            },
        }
    }

    /// Inserts the pending digits, if there are any.
    fn flush(&mut self, target: &mut String) -> (r: Result<(), ErrorKind>)
        requires
            old(self).wf(),
        ensures
            final(self).follows(
                r,
                flush(ParseState { stack: old(self).stack(), digits: old(target)@ }),
            ),
            r is Ok ==> final(target)@ == Seq::<char>::empty(),
    {
        if !target.as_str().is_empty() {
            self.append_to_ast_num(target)?;
        }
        Ok(())
    }

    /// The expression whose tree is the one above the marker.
    pub(super) fn finish(self) -> (r: Expression)
        requires
            self.wf(),
        ensures
            r.wf(),
            r@ == collapse(self.stack()),
    {
        proof {
            lemma_spine_node(self.tree@, self.notes@, self.notes@.spine.len() - 1);
            lemma_spine_node(self.tree@, self.notes@, 0);
            lemma_finish(self.tree@, self.notes@);
            lemma_root_of_spine(self.tree@, self.notes@, self.notes@.spine.len() - 1);
        }
        let root = self.tree.root(self.marker);
        let ghost shapes = settled_shapes(self.tree@, self.notes@, 0);
        Expression { tree: self.tree, root, shapes: Ghost(shapes) }
    }
}

/// Once a prefix of the input has failed, the whole input fails in the
/// same way.
pub proof fn lemma_run_error(input: Seq<char>, i: int)
    requires
        0 <= i <= input.len(),
        run(input.take(i)) is Err,
    ensures
        run(input) == run(input.take(i)),
    decreases input.len() - i,
{
    if i < input.len() {
        assert(input.take(i + 1).drop_last() =~= input.take(i));
        lemma_run_error(input, i + 1);
    } else {
        assert(input.take(i) =~= input);
    }
}

impl Expression {
    /// Parses `input` in one pass from left to right.
    pub fn parse(input: &str) -> (r: Result<Self, ErrorKind>)
        ensures
            match spec_parse(input@) {
                Ok(t) => r matches Ok(e) && e.wf() && e@ == t,
                Err(e) => r matches Err(x) && x == e,
            },
    {
        let mut parser = Parser::new();
        let mut target_str = String::new();
        assert(input@.take(0) =~= Seq::<char>::empty());
        for c in it: input.chars()
            invariant
                it.seq() == input@,
                parser.wf(),
                run(input@.take(it.index() as int)) == Ok::<ParseState, ErrorKind>(
                    ParseState { stack: parser.stack(), digits: target_str@ },
                ),
        {
            let ghost i = it.index() as int;
            let ghost before = ParseState { stack: parser.stack(), digits: target_str@ };
            proof {
                assert(input@.take(i + 1).drop_last() =~= input@.take(i));
                assert(input@.take(i + 1).last() == c);
                assert(run(input@.take(i + 1)) == step(before, c));
                if step(before, c) is Err {
                    lemma_run_error(input@, i + 1);
                }
            }
            if c >= '0' && c <= '9' {
                let d: u32 = c as u32 - '0' as u32;
                target_str.append(digit_str(d));
                assert(target_str@ =~= before.digits.push(c));
            } else {
                parser.flush(&mut target_str)?;
                if Operator::is_operator(c) {
                    parser.append_to_ast_ops(c)?;
                } else if Paren::is_paren(c) {
                    parser.append_to_ast_paren(c)?;
                } else if c == ' ' || c.is_whitespace() {
                } else {
                    return Err(ErrorKind::UnsupportedCharacter);
                }
            }
        }
        proof {
            assert(input@.take(input@.len() as int) =~= input@);
        }
        parser.flush(&mut target_str)?;
        Ok(parser.finish())
    }
}

} // verus!
