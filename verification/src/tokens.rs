//! The token model: a lexeme (the exact matched source text) paired with
//! a typed literal value.

use vstd::prelude::*;

verus! {

/// The typed value of a token: one of a closed set of literal kinds,
/// plus operator markers that carry no payload.
#[derive(Debug)]
pub enum TokenType {
    IntegerLiteral(i32),
    BooleanLiteral(bool),
    StringLiteral(String),
    OpPlus,
    OpMinus,
    OpMul,
    OpDivide,
}

/// A token produced by a successful scan: `lexeme` is the literal
/// textual span that the scanner matched, `token_type` its typed value.
#[derive(Debug)]
pub struct Token {
    pub lexeme: String,
    pub token_type: TokenType,
}

impl TokenType {
    /// Conversion into the tagged union from a signed 32-bit integer.
    pub fn from_int(val: i32) -> (t: TokenType)
        ensures
            t == TokenType::IntegerLiteral(val),
    {
        TokenType::IntegerLiteral(val)
    }

    /// Conversion into the tagged union from a boolean.
    pub fn from_bool(val: bool) -> (t: TokenType)
        ensures
            t == TokenType::BooleanLiteral(val),
    {
        TokenType::BooleanLiteral(val)
    }

    /// Conversion into the tagged union from borrowed text; the payload
    /// is an owned copy of the text.
    pub fn from_text(val: &str) -> (t: TokenType)
        ensures
            t matches TokenType::StringLiteral(s) && s@ == val@,
    {
        TokenType::StringLiteral(val.to_owned())
    }
}

impl Token {
    /// The single constructor: takes the matched lexeme text and the
    /// already-converted typed value. It is total: failure (an absent
    /// match, an overflowing integer) must be detected by the scanner
    /// before a Token is built.
    pub fn new(lexeme_new: &str, token_type_new: TokenType) -> (t: Token)
        ensures
            t.lexeme@ == lexeme_new@,
            t.token_type == token_type_new,
    {
        Token { lexeme: lexeme_new.to_owned(), token_type: token_type_new }
    }
}

impl PartialEq for TokenType {
    fn eq(&self, other: &TokenType) -> (r: bool) {
        match (self, other) {
            (TokenType::IntegerLiteral(a), TokenType::IntegerLiteral(b)) => *a == *b,
            (TokenType::BooleanLiteral(a), TokenType::BooleanLiteral(b)) => *a == *b,
            (TokenType::StringLiteral(a), TokenType::StringLiteral(b)) => *a == *b,
            (TokenType::OpPlus, TokenType::OpPlus) => true,
            (TokenType::OpMinus, TokenType::OpMinus) => true,
            (TokenType::OpMul, TokenType::OpMul) => true,
            (TokenType::OpDivide, TokenType::OpDivide) => true,
            _ => false,
        }
    }
}

impl vstd::std_specs::cmp::PartialEqSpecImpl for TokenType {
    open spec fn obeys_eq_spec() -> bool {
        true
    }

    open spec fn eq_spec(&self, other: &TokenType) -> bool {
        match (self, other) {
            (TokenType::IntegerLiteral(a), TokenType::IntegerLiteral(b)) => a == b,
            (TokenType::BooleanLiteral(a), TokenType::BooleanLiteral(b)) => a == b,
            (TokenType::StringLiteral(a), TokenType::StringLiteral(b)) => a@ == b@,
            (TokenType::OpPlus, TokenType::OpPlus) => true,
            (TokenType::OpMinus, TokenType::OpMinus) => true,
            (TokenType::OpMul, TokenType::OpMul) => true,
            (TokenType::OpDivide, TokenType::OpDivide) => true,
            _ => false,
        }
    }
}

impl PartialEq for Token {
    fn eq(&self, other: &Token) -> (r: bool) {
        self.lexeme == other.lexeme && self.token_type == other.token_type
    }
}

impl vstd::std_specs::cmp::PartialEqSpecImpl for Token {
    open spec fn obeys_eq_spec() -> bool {
        true
    }

    open spec fn eq_spec(&self, other: &Token) -> bool {
        self.lexeme@ == other.lexeme@ && vstd::std_specs::cmp::PartialEqSpec::eq_spec(
            &self.token_type,
            &other.token_type,
        )
    }
}

} // verus!
