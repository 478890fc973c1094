//! The token trees that a machine definition is written in.
//!
//! A token carries the index of its source position (`span`); the host that
//! tokenised the input keeps the table that the index refers to.

use vstd::prelude::*;

verus! {

/// An identifier with the position it was written at.
#[derive(Debug)]
pub struct Ident {
    pub text: String,
    pub span: usize,
}

/// The bracket kind of a token group.
#[derive(Clone, Copy, Debug, PartialEq, Eq, Structural)]
pub enum Delimiter {
    Parenthesis,
    Brace,
    Bracket,
    Invisible,
}

/// One token tree.
#[derive(Debug)]
pub enum Token {
    Ident(Ident),
    Punct { ch: char, joint: bool, span: usize },
    Literal { text: String, span: usize },
    Group { delimiter: Delimiter, tokens: Vec<Token>, span: usize },
}

impl Ident {
    /// Creates an identifier.
    pub fn new(text: &str, span: usize) -> (res: Ident)
        ensures
            res.text@ == text@,
            res.span == span,
    {
        Ident { text: String::from_str(text), span }
    }
}

impl Token {
    /// The position index of the token.
    pub open spec fn span_of(self) -> usize {
        match self {
            Token::Ident(i) => i.span,
            Token::Punct { span, .. } => span,
            Token::Literal { span, .. } => span,
            Token::Group { span, .. } => span,
        }
    }

    /// The position index of the token.
    pub fn span(&self) -> (res: usize)
        ensures
            res == self.span_of(),
    {
        match self {
            Token::Ident(i) => i.span,
            Token::Punct { span, .. } => *span,
            Token::Literal { span, .. } => *span,
            Token::Group { span, .. } => *span,
        }
    }
}

} // verus!

verus! {

impl Ident {
    /// A copy of the identifier.
    pub fn copy(&self) -> (res: Ident)
        ensures
            res == *self,
    {
        Ident { text: self.text.clone(), span: self.span }
    }
}

/// Whether two strings hold the same characters.
pub fn str_eq(a: &str, b: &str) -> (res: bool)
    ensures
        res == (a@ == b@),
{
    let n = a.unicode_len();
    if n != b.unicode_len() {
        return false;
    }
    let mut i: usize = 0;
    while i < n
        invariant
            n == a@.len(),
            n == b@.len(),
            i <= n,
            forall|k: int| 0 <= k < i ==> a@[k] == b@[k],
        decreases n - i,
    {
        if a.get_char(i) != b.get_char(i) {
            return false;
        }
        i += 1;
    }
    assert(a@ =~= b@);
    true
}

} // verus!
