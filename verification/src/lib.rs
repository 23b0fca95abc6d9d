//! Literal-scanning layer of a lexer: three scanners that recognise
//! integer, string and boolean literals at the front of a text slice and
//! return a typed [`tokens::Token`] together with the unconsumed rest of
//! the input, or a recoverable no-match.

pub mod literals;
pub mod tokens;
