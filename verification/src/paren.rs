use vstd::prelude::*;
use vstd::string::*;
use crate::error::ErrorKind;

verus! {

/// A parenthesis in the tree: `Left` while it is still open, `Right` once
/// its right parenthesis has been read.
#[derive(Debug, Clone, Copy, PartialEq, Eq, Structural)]
pub enum Paren {
    Left,
    Right,
}

impl Paren {
    /// Which parenthesis a character stands for.
    pub open spec fn spec_parse(c: char) -> Result<Paren, ErrorKind> {
        if c == '(' {
            Ok(Paren::Left)
        } else if c == ')' {
            Ok(Paren::Right)
        } else {
            Err(ErrorKind::InvalidParen)
        }
    }

    /// The character of a parenthesis, as text.
    pub open spec fn text(self) -> Seq<char> {
        match self {
            Paren::Left => seq!['('],
            Paren::Right => seq![')'],
        }
    }

    /// Whether `c` is a parenthesis.
    pub fn is_paren(c: char) -> (r: bool)
        ensures
            r == (c == '(' || c == ')'),
    {
        c == '(' || c == ')'
    }

    /// Reads a parenthesis.
    pub fn parse(c: char) -> (r: Result<Self, ErrorKind>)
        ensures
            r == Self::spec_parse(c),
    {
        if c == '(' {
            Ok(Paren::Left)
        } else if c == ')' {
            Ok(Paren::Right)
        } else {
            Err(ErrorKind::InvalidParen)
        }
    }

    /// Whether the parenthesis is still open.
    pub fn is_left(&self) -> (r: bool)
        ensures
            r == (*self == Paren::Left),
    {
        match self {
            Paren::Left => true,
            Paren::Right => false,
        }
    }

    /// The character of the parenthesis, as text.
    pub fn to_text(&self) -> (r: String)
        ensures
            r@ == self.text(),
    {
        proof {
            reveal_strlit("(");
            reveal_strlit(")");
        }
        let r = match self {
            Paren::Left => String::from_str("("),
            Paren::Right => String::from_str(")"),
        };
        assert(r@ =~= self.text());
        r
    }
}

} // verus!
