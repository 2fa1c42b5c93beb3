use vstd::prelude::*;
use crate::error::ErrorKind;
use crate::node::{acyclic, linked, NodeView, Tree};
use crate::operator::Operator;
use crate::syntax::{climb, collapse, initial, push_leaf, set_top, splice, splice_at, Ast, Frame};
use crate::term::Term;
use self::parse::Parser;
use self::spine::{finished, lemma_finished_unique, terms_ok};

pub mod calculate;
pub mod display;
pub mod parse;
pub mod spine;

verus! {

/// A parsed expression: the finished tree and its root.
pub struct Expression {
    tree: Tree<Term>,
    root: usize,
    shapes: Ghost<Seq<Ast>>,
}

/// The kind of term that a node holds.
pub enum TermType {
    Num,
    Operator,
    Paren,
}

impl View for Expression {
    type V = Ast;

    closed spec fn view(&self) -> Ast {
        self.shapes@[self.root as int]
    }
}

impl Expression {
    /// The invariant of an expression: the root is a node, every child
    /// named is a node, the tree that this expression stands for is the
    /// one that its nodes form, every back-reference is right, and parents
    /// lead to a root.
    pub closed spec fn wf(self) -> bool {
        &&& self.root < self.tree@.len()
        &&& finished(self.tree@, self.shapes@)
        &&& terms_ok(self.tree@)
        &&& linked(self.tree@)
        &&& acyclic(self.tree@)
    }

    /// The tree of `left operator right`.
    pub open spec fn spec_new(left: Term, right: Term, operator: Operator) -> Ast {
        Ast {
            value: Some(Term::Operator(operator)),
            children: seq![
                Ast { value: Some(left), children: Seq::<Ast>::empty() },
                Ast { value: Some(right), children: Seq::<Ast>::empty() },
            ],
        }
    }

    /// The frames of `left operator right` stand for its tree.
    proof fn lemma_new(left: Term, right: Term, operator: Operator)
        ensures
            ({
                let first = set_top(initial().stack, left);
                &&& splice(first, operator) is Ok
                &&& collapse(push_leaf(splice(first, operator)->Ok_0, right)) == Self::spec_new(
                    left,
                    right,
                    operator,
                )
            }),
    {
        let first = set_top(initial().stack, left);
        assert(first.len() == 1);
        assert(first[0] == (Frame { value: Some(left), done: Seq::<Ast>::empty() }));
        assert(climb(first, 0, operator) == Ok::<int, ErrorKind>(0));
        let second = splice_at(first, 0, operator);
        assert(first.subrange(0, 0) =~= Seq::<Frame>::empty());
        assert(first.subrange(0, 1) =~= first);
        let below = Ast { value: Some(left), children: Seq::<Ast>::empty() };
        assert(collapse(first) == below);
        assert(second.len() == 1);
        assert(second[0] == (Frame { value: Some(Term::Operator(operator)), done: seq![below] }));
        let third = push_leaf(second, right);
        assert(third.len() == 2);
        let rest = third.subrange(1, 2);
        assert(rest.len() == 1);
        assert(rest[0] == (Frame { value: Some(right), done: Seq::<Ast>::empty() }));
        assert(collapse(rest) == (Ast { value: Some(right), children: Seq::<Ast>::empty() }));
        assert(third[0] == second[0]);
        assert(collapse(third).children =~= Self::spec_new(left, right, operator).children);
    }

    /// The expression `left operator right`.
    pub fn new(left: Term, right: Term, operator: Operator) -> (r: Self)
        requires
            left.wf(),
            right.wf(),
        ensures
            r.wf(),
            r@ == Self::spec_new(left, right, operator),
    {
        proof {
            Self::lemma_new(left, right, operator);
        }
        let mut parser = Parser::new();
        parser.set_marker_value(left);
        match parser.splice_at_marker(operator) {
            Ok(()) => {
                parser.add_leaf(right);
                parser.finish()
            },
            Err(_) => unreached(),
        }
    }

    /// The tree below node `root` of `nodes`, where the nodes form trees.
    pub open spec fn spec_from_ast(nodes: Seq<NodeView<Term>>, root: int) -> Ast {
        (choose|shapes: Seq<Ast>| finished(nodes, shapes))[root]
    }

    /// The expression whose tree is the one below node `root` of `tree`.
    /// The nodes must form trees: following children never ends where it
    /// began.
    pub fn new_from_ast(tree: Tree<Term>, root: usize) -> (r: Self)
        requires
            root < tree@.len(),
            terms_ok(tree@),
            linked(tree@),
            acyclic(tree@),
            exists|shapes: Seq<Ast>| finished(tree@, shapes),
        ensures
            r.wf(),
            r@ == Self::spec_from_ast(tree@, root as int),
            forall|shapes: Seq<Ast>| finished(tree@, shapes) ==> r@ == #[trigger] shapes[root as int],
    {
        let ghost chosen = choose|shapes: Seq<Ast>| finished(tree@, shapes);
        proof {
            assert forall|shapes: Seq<Ast>| finished(tree@, shapes) implies chosen[root as int]
                == #[trigger] shapes[root as int] by {
                lemma_finished_unique(tree@, chosen, shapes, root as int);
            }
        }
        Expression { tree, root, shapes: Ghost(chosen) }
    }

    /// The kind of a term, if there is one.
    pub open spec fn spec_term_type(value: Option<Term>) -> Result<TermType, ErrorKind> {
        match value {
            Some(Term::Num(_)) => Ok(TermType::Num),
            Some(Term::Operator(_)) => Ok(TermType::Operator),
            Some(Term::Paren(_)) => Ok(TermType::Paren),
            None => Err(ErrorKind::ParseFailed),
        }
    }

    /// The kind of term that a node holds.
    fn get_term_type(tree: &Tree<Term>, node: usize) -> (r: Result<TermType, ErrorKind>)
        requires
            node < tree@.len(),
        ensures
            r == Self::spec_term_type(tree@[node as int].value),
    {
        match tree.value(node) {
            Some(Term::Num(_)) => Ok(TermType::Num),
            Some(Term::Operator(_)) => Ok(TermType::Operator),
            Some(Term::Paren(_)) => Ok(TermType::Paren),
            None => Err(ErrorKind::ParseFailed),
        }
    }

    /// Whether a node holds a closed parenthesis.
    fn is_right_paren(tree: &Tree<Term>, node: usize) -> (r: Result<bool, ErrorKind>)
        requires
            node < tree@.len(),
        ensures
            r == (match tree@[node as int].value {
                Some(Term::Paren(paren)) => Ok::<bool, ErrorKind>(paren == crate::paren::Paren::Right),
                _ => Err::<bool, ErrorKind>(ErrorKind::ParseFailed),
            }),
    {
        match tree.value(node) {
            Some(Term::Paren(paren)) => Ok(!paren.is_left()),
            _ => Err(ErrorKind::ParseFailed),
        }
    }

    /// Whether a node holds a sign.
    fn is_unary_operator(tree: &Tree<Term>, node: usize) -> (r: Result<bool, ErrorKind>)
        requires
            node < tree@.len(),
        ensures
            r == (match tree@[node as int].value {
                Some(Term::Operator(op)) => Ok::<bool, ErrorKind>(op.spec_is_unary()),
                _ => Err::<bool, ErrorKind>(ErrorKind::ParseFailed),
            }),
    {
        match tree.value(node) {
            Some(Term::Operator(op)) => Ok(op.is_unary()),
            _ => Err(ErrorKind::ParseFailed),
        }
    }
}

} // verus!
