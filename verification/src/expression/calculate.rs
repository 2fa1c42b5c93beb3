use vstd::prelude::*;
use crate::error::ErrorKind;
use crate::expression::{Expression, TermType};
use crate::syntax::spec_eval;
use crate::term::Term;

verus! {

impl Expression {
    /// The value of the tree below `node`.
    fn calculate_loop(&self, node: usize) -> (r: Result<Term, ErrorKind>)
        requires
            self.wf(),
            node < self.tree@.len(),
        ensures
            r == spec_eval(self.shapes@[node as int]),
            r matches Ok(t) ==> t.wf(),
        decreases self.shapes@[node as int],
    {
        let ghost shape = self.shapes@[node as int];
        assert(shape == crate::expression::spine::shape_of(self.tree@, self.shapes@, node as int));
        let term_type = Self::get_term_type(&self.tree, node)?;
        match term_type {
            TermType::Operator => {
                if Self::is_unary_operator(&self.tree, node)? {
                    if self.tree.len_children(node) != 1 {
                        return Err(ErrorKind::ParseFailed);
                    }
                    let child = self.tree.child(node, 0);
                    assert(shape.children[0] == self.shapes@[child as int]);
                    let child_result = self.calculate_loop(child)?;
                    match self.tree.value(node) {
                        Some(Term::Operator(operator)) => operator.calculate_unary(&child_result),
                        _ => Err(ErrorKind::ParseFailed),
                    }
                } else {
                    if self.tree.len_children(node) != 2 {
                        return Err(ErrorKind::ParseFailed);
                    }
                    let left = self.tree.child(node, 0);
                    assert(shape.children[0] == self.shapes@[left as int]);
                    let left_result = self.calculate_loop(left)?;
                    let right = self.tree.child(node, 1);
                    assert(shape.children[1] == self.shapes@[right as int]);
                    let right_result = self.calculate_loop(right)?;
                    match self.tree.value(node) {
                        Some(Term::Operator(operator)) => operator.calculate_binary(
                            &left_result,
                            &right_result,
                        ),
                        _ => Err(ErrorKind::ParseFailed),
                    }
                }
            },
            TermType::Num => {
                if self.tree.len_children(node) != 0 {
                    return Err(ErrorKind::ParseFailed);
                }
                match self.tree.value(node) {
                    Some(term) => Ok(term.clone()),
                    None => Err(ErrorKind::ParseFailed),
                }
            },
            TermType::Paren => {
                if !Self::is_right_paren(&self.tree, node)? {
                    return Err(ErrorKind::UnclosedParen);
                }
                if self.tree.len_children(node) != 1 {
                    return Err(ErrorKind::ParseFailed);
                }
                let child = self.tree.child(node, 0);
                assert(shape.children[0] == self.shapes@[child as int]);
                self.calculate_loop(child)
            },
        }
    }

    /// The value of the expression, or the first error met from left to
    /// right.
    pub fn calculate(&self) -> (r: Result<Term, ErrorKind>)
        requires
            self.wf(),
        ensures
            r == spec_eval(self@),
            r matches Ok(t) ==> t.wf(),
    {
        self.calculate_loop(self.root)
    }
}

} // verus!
