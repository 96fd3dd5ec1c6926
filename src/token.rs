use vstd::prelude::*;

verus! {

/// The lexical category of a token.
#[derive(Clone, Copy, PartialEq, Eq, Debug, Structural)]
pub enum TokenType {
    // one character
    Asterisk,
    Comma,
    LessThan,
    GreaterThan,
    Modulo,
    /// `!` on its own; never produced, since `!` must be followed by `=`.
    Bang,
    // two characters
    LessThanEq,
    GreaterThanEq,
    NotEq,
    // clause keywords
    Select,
    From,
    Where,
    Order,
    By,
    Limit,
    Offset,
    // predicate keywords
    And,
    Or,
    Not,
    Between,
    Like,
    In,
    // ordering keywords
    Asc,
    Desc,
    // literals, names and the end marker
    String,
    Number,
    Identifier,
    End,
}

/// A classified lexeme: its kind and the exact source text it came from.
#[derive(Debug)]
pub struct Token {
    token_type: TokenType,
    text: String,
}

impl View for Token {
    type V = (TokenType, Seq<char>);

    closed spec fn view(&self) -> (TokenType, Seq<char>) {
        (self.token_type, self.text@)
    }
}

impl Token {
    pub fn new(token_type: TokenType, lexeme: String) -> (r: Self)
        ensures
            r@ == (token_type, lexeme@),
    {
        Token { token_type, text: lexeme }
    }

    pub fn get_type(&self) -> (r: TokenType)
        ensures
            r == self@.0,
    {
        self.token_type
    }

    pub fn get_lexeme(&self) -> (r: &str)
        ensures
            r@ == self@.1,
    {
        self.text.as_str()
    }
}

} // verus!
