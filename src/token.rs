use vstd::prelude::*;

verus! {

/// The closed set of token kinds of the language.
#[derive(Debug, Clone, Copy, PartialEq, Eq, Structural)]
pub enum TokenType {
    Eof,
    Newline,
    Int,
    Float,
    Ident,
    String,
    // keywords
    Label,
    Goto,
    Print,
    Input,
    Let,
    If,
    Then,
    Endif,
    While,
    Repeat,
    EndWhile,
    // operators
    Eq,
    Plus,
    Minus,
    Asterisk,
    Slash,
    EqEq,
    NotEq,
    Lt,
    LtEq,
    Gt,
    GtEq,
}

/// The kind and text of a token.
pub open spec fn tok(t: Token) -> (TokenType, Seq<char>) {
    (t.kind, t.text@)
}

/// Only a string literal may hold braces.
pub open spec fn plain(t: Token) -> bool {
    t.kind != TokenType::String ==> forall|i: int|
        0 <= i < t.text@.len() ==> #[trigger] t.text@[i] != '{' && t.text@[i] != '}'
}

/// A lexeme together with its kind.
#[derive(Debug)]
pub struct Token {
    pub text: String,
    pub kind: TokenType,
}

impl Token {
    pub fn new(text: String, kind: TokenType) -> (r: Token)
        ensures
            r.text@ == text@,
            r.kind == kind,
    {
        Token { text, kind }
    }

    pub fn kind(&self) -> (r: TokenType)
        ensures
            r == self.kind,
    {
        self.kind
    }

    pub fn text(&self) -> (r: &str)
        ensures
            r@ == self.text@,
    {
        self.text.as_str()
    }
}

} // verus!
