use litscan::literals::LexError;
use litscan::tokens::Token;
use litscan::tokens::TokenType;

#[test]
fn token_new_keeps_lexeme_and_value() {
    let t = Token::new("123", TokenType::from_int(123));
    assert_eq!(t.lexeme, "123");
    assert_eq!(t.token_type, TokenType::IntegerLiteral(123));
}

#[test]
fn token_type_conversions() {
    assert_eq!(TokenType::from_int(-5), TokenType::IntegerLiteral(-5));
    assert_eq!(TokenType::from_bool(false), TokenType::BooleanLiteral(false));
    assert_eq!(
        TokenType::from_text("abc"),
        TokenType::StringLiteral(String::from("abc"))
    );
}

#[test]
fn token_equality_is_by_fields() {
    assert_eq!(
        Token::new("true", TokenType::from_bool(true)),
        Token::new("true", TokenType::BooleanLiteral(true))
    );
    assert_ne!(
        Token::new("1", TokenType::from_int(1)),
        Token::new("1", TokenType::from_int(2))
    );
    assert_ne!(TokenType::OpPlus, TokenType::OpMinus);
    assert_eq!(TokenType::OpMul, TokenType::OpMul);
    assert_ne!(TokenType::OpDivide, TokenType::IntegerLiteral(0));
}

#[test]
fn lex_error_recoverable() {
    assert!(LexError::NoMatch(String::from("abc")).is_recoverable());
    assert!(!LexError::Fatal(String::from("fault")).is_recoverable());
}
