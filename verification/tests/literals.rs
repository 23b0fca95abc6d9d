use litscan::literals::parse_bool;
use litscan::literals::parse_i32;
use litscan::literals::parse_string;
use litscan::literals::trim_leading_ws;
use litscan::literals::LexError;
use litscan::tokens::Token;
use litscan::tokens::TokenType;

#[test]
fn int_test() {
    assert_eq!(
        parse_i32("123"),
        Ok(("", Token::new("123", TokenType::IntegerLiteral(123))))
    );
    assert_eq!(
        parse_i32(" 123 "),
        Ok((" ", Token::new("123", TokenType::IntegerLiteral(123))))
    );
    assert_eq!(
        parse_i32("12 3"),
        Ok((" 3", Token::new("12", TokenType::IntegerLiteral(12))))
    );
}

#[test]
fn string_test() {
    assert_eq!(
        parse_string("\"123\""),
        Ok((
            "",
            Token::new("123", TokenType::StringLiteral(String::from("123")))
        ))
    );
}

#[test]
fn bool_test() {
    assert_eq!(
        parse_bool("true"),
        Ok(("", Token::new("true", TokenType::BooleanLiteral(true))))
    );
}

#[test]
fn int_no_digits_is_no_match() {
    assert_eq!(parse_i32(""), Err(LexError::NoMatch(String::from(""))));
    assert_eq!(parse_i32("abc"), Err(LexError::NoMatch(String::from("abc"))));
    assert_eq!(parse_i32("   "), Err(LexError::NoMatch(String::from("   "))));
}

#[test]
fn int_overflow_is_no_match() {
    assert_eq!(
        parse_i32("2147483648"),
        Err(LexError::NoMatch(String::from("2147483648")))
    );
    assert_eq!(
        parse_i32("2147483647"),
        Ok((
            "",
            Token::new("2147483647", TokenType::IntegerLiteral(2147483647))
        ))
    );
}

#[test]
fn int_leading_zeros_stay_in_lexeme() {
    assert_eq!(
        parse_i32("0"),
        Ok(("", Token::new("0", TokenType::IntegerLiteral(0))))
    );
    assert_eq!(
        parse_i32("00x"),
        Ok(("x", Token::new("00", TokenType::IntegerLiteral(0))))
    );
    assert_eq!(
        parse_i32("0000000000000000001"),
        Ok((
            "",
            Token::new("0000000000000000001", TokenType::IntegerLiteral(1))
        ))
    );
}

#[test]
fn int_trims_tabs_and_newlines() {
    assert_eq!(
        parse_i32("\t\r\n 42x"),
        Ok(("x", Token::new("42", TokenType::IntegerLiteral(42))))
    );
}

#[test]
fn string_unterminated_is_no_match() {
    assert_eq!(
        parse_string("\"abc"),
        Err(LexError::NoMatch(String::from("\"abc")))
    );
}

#[test]
fn string_missing_open_quote_is_no_match() {
    assert_eq!(
        parse_string("abc\""),
        Err(LexError::NoMatch(String::from("abc\"")))
    );
    assert_eq!(
        parse_string(" \"a\""),
        Err(LexError::NoMatch(String::from(" \"a\"")))
    );
}

#[test]
fn string_empty_body_matches() {
    assert_eq!(
        parse_string("\"\"rest"),
        Ok(("rest", Token::new("", TokenType::StringLiteral(String::new()))))
    );
}

#[test]
fn string_stops_at_first_quote() {
    assert_eq!(
        parse_string("\"ab\"cd\""),
        Ok((
            "cd\"",
            Token::new("ab", TokenType::StringLiteral(String::from("ab")))
        ))
    );
    assert_eq!(
        parse_string("\"a\\\"b\""),
        Ok((
            "b\"",
            Token::new("a\\", TokenType::StringLiteral(String::from("a\\")))
        ))
    );
}

#[test]
fn bool_upper_case_preserves_lexeme() {
    assert_eq!(
        parse_bool("TRUE"),
        Ok(("", Token::new("TRUE", TokenType::BooleanLiteral(true))))
    );
    assert_eq!(
        parse_bool("True"),
        Ok(("", Token::new("True", TokenType::BooleanLiteral(true))))
    );
}

#[test]
fn bool_false_both_cases() {
    assert_eq!(
        parse_bool("false"),
        Ok(("", Token::new("false", TokenType::BooleanLiteral(false))))
    );
    assert_eq!(
        parse_bool("FaLsE?"),
        Ok(("?", Token::new("FaLsE", TokenType::BooleanLiteral(false))))
    );
}

#[test]
fn bool_no_false_match() {
    assert_eq!(
        parse_bool("truthy"),
        Err(LexError::NoMatch(String::from("truthy")))
    );
    assert_eq!(parse_bool("tru"), Err(LexError::NoMatch(String::from("tru"))));
    assert_eq!(
        parse_bool(" true"),
        Err(LexError::NoMatch(String::from(" true")))
    );
}

#[test]
fn bool_matches_prefix_without_word_boundary() {
    assert_eq!(
        parse_bool("truethy"),
        Ok(("thy", Token::new("true", TokenType::BooleanLiteral(true))))
    );
}

#[test]
fn round_trip_reassembles_input() {
    let (rest, tok) = parse_i32(" 12 3").unwrap();
    assert_eq!(format!(" {}{}", tok.lexeme, rest), " 12 3");
    let (rest, tok) = parse_string("\"ab\"cd").unwrap();
    assert_eq!(format!("\"{}\"{}", tok.lexeme, rest), "\"ab\"cd");
    let (rest, tok) = parse_bool("TRUEish").unwrap();
    assert_eq!(format!("{}{}", tok.lexeme, rest), "TRUEish");
}

#[test]
fn trim_leading_ws_discards_only_leading_runs() {
    assert_eq!(trim_leading_ws(" \t\r\nx y"), "x y");
    assert_eq!(trim_leading_ws("xy "), "xy ");
    assert_eq!(trim_leading_ws("  "), "");
}
