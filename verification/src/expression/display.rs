use vstd::prelude::*;
use vstd::string::*;
use crate::error::ErrorKind;
use crate::expression::{Expression, TermType};
use crate::syntax::{join, spec_display, spec_tokens};

verus! {

/// The texts of a list of strings.
pub open spec fn texts(tokens: Seq<String>) -> Seq<Seq<char>> {
    Seq::new(tokens.len(), |i: int| tokens[i]@)
}

/// The strings with one space between each two of them.
pub fn join_with_space(tokens: &Vec<String>) -> (r: String)
    ensures
        r@ == join(texts(tokens@), seq![' ']),
{
    let mut out = String::new();
    let mut i: usize = 0;
    assert(texts(tokens@).take(0) =~= Seq::<Seq<char>>::empty());
    while i < tokens.len()
        invariant
            i <= tokens.len(),
            out@ == join(texts(tokens@).take(i as int), seq![' ']),
        decreases tokens.len() - i,
    {
        let ghost all = texts(tokens@);
        proof {
            reveal_strlit(" ");
            assert(" "@ =~= seq![' ']);
            assert(all.take(i + 1).drop_last() =~= all.take(i as int));
            assert(all.take(i + 1).last() == tokens@[i as int]@);
        }
        if i > 0 {
            out.append(" ");
        }
        out.append(tokens[i].as_str());
        proof {
            if i == 0 {
                assert(all.take(1)[0] == tokens@[0]@);
                assert(out@ =~= tokens@[0]@);
            }
        }
        i = i + 1;
    }
    proof {
        assert(texts(tokens@).take(tokens.len() as int) =~= texts(tokens@));
    }
    out
}

impl Expression {
    /// The tokens of the tree below `node`, from left to right.
    fn display_loop(&self, node: usize) -> (r: Result<Vec<String>, ErrorKind>)
        requires
            self.wf(),
            node < self.tree@.len(),
        ensures
            match spec_tokens(self.shapes@[node as int]) {
                Ok(tokens) => r matches Ok(v) && texts(v@) == tokens,
                Err(e) => r matches Err(x) && x == e,
            },
        decreases self.shapes@[node as int],
    {
        let ghost shape = self.shapes@[node as int];
        assert(shape == crate::expression::spine::shape_of(self.tree@, self.shapes@, node as int));
        let mut result: Vec<String> = Vec::new();
        let term_type = Self::get_term_type(&self.tree, node)?;
        match term_type {
            TermType::Operator => {
                if Self::is_unary_operator(&self.tree, node)? {
                    if self.tree.len_children(node) != 1 {
                        return Err(ErrorKind::ParseFailed);
                    }
                    let text = match self.tree.value(node) {
                        Some(term) => term.to_text(),
                        None => {
                            return Err(ErrorKind::ParseFailed);
                        },
                    };
                    result.push(text);
                    let child = self.tree.child(node, 0);
                    assert(shape.children[0] == self.shapes@[child as int]);
                    let mut child_result = self.display_loop(child)?;
                    let ghost operand = child_result@;
                    result.append(&mut child_result);
                    assert(texts(result@) =~= seq![text@] + texts(operand));
                } else {
                    if self.tree.len_children(node) != 2 {
                        return Err(ErrorKind::ParseFailed);
                    }
                    let left = self.tree.child(node, 0);
                    assert(shape.children[0] == self.shapes@[left as int]);
                    let mut left_result = self.display_loop(left)?;
                    let ghost left_tokens = left_result@;
                    result.append(&mut left_result);
                    let text = match self.tree.value(node) {
                        Some(term) => term.to_text(),
                        None => {
                            return Err(ErrorKind::ParseFailed);
                        },
                    };
                    result.push(text);
                    let right = self.tree.child(node, 1);
                    assert(shape.children[1] == self.shapes@[right as int]);
                    let mut right_result = self.display_loop(right)?;
                    let ghost right_tokens = right_result@;
                    result.append(&mut right_result);
                    assert(texts(result@) =~= texts(left_tokens) + seq![text@] + texts(
                        right_tokens,
                    ));
                }
            },
            TermType::Num => {
                if self.tree.len_children(node) != 0 {
                    return Err(ErrorKind::ParseFailed);
                }
                let text = match self.tree.value(node) {
                    Some(term) => term.to_text(),
                    None => {
                        return Err(ErrorKind::ParseFailed);
                    },
                };
                result.push(text);
                assert(texts(result@) =~= seq![text@]);
            },
            TermType::Paren => {
                if !Self::is_right_paren(&self.tree, node)? {
                    return Err(ErrorKind::UnclosedParen);
                }
                if self.tree.len_children(node) != 1 {
                    return Err(ErrorKind::ParseFailed);
                }
                proof {
                    reveal_strlit("(");
                    reveal_strlit(")");
                }
                let open = String::from_str("(");
                let close = String::from_str(")");
                assert(open@ =~= seq!['(']);
                assert(close@ =~= seq![')']);
                result.push(open);
                let child = self.tree.child(node, 0);
                assert(shape.children[0] == self.shapes@[child as int]);
                let mut child_result = self.display_loop(child)?;
                let ghost inner = child_result@;
                result.append(&mut child_result);
                result.push(close);
                assert(texts(result@) =~= seq![seq!['(']] + texts(inner) + seq![seq![')']]);
            },
        }
        Ok(result)
    }

    /// The text of the expression: its tokens with one space between each
    /// two. A tree that is not finished gives the message of a failed
    /// parse.
    pub fn display(&self) -> (r: String)
        requires
            self.wf(),
        ensures
            r@ == spec_display(self@),
    {
        let result = self.display_loop(self.root);
        match result {
            Err(_) => ErrorKind::ParseFailed.message(),
            Ok(result) => join_with_space(&result),
        }
    }
}

} // verus!
