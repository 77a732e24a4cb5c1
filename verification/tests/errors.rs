use lisp_reader::error::ParsingError;
use lisp_reader::lexer::Token;
use lisp_reader::text::decimal_string;

#[test]
fn shows_an_error_behind_its_prefix() {
    let e = ParsingError("closing parent without opening it".to_string());
    assert_eq!(e.to_string(), "Parsing Error: closing parent without opening it");
    assert_eq!(ParsingError(String::new()).to_string(), "Parsing Error: ");
}

#[test]
fn reports_each_fault_in_its_own_words() {
    assert_eq!(ParsingError::unterminated_string(7).0, "7 Error while parsing a string");
    assert_eq!(ParsingError::unmatched_close().0, "closing parent without opening it");
    assert_eq!(ParsingError::no_character().0, "Geniric error while parsing");
    assert_eq!(ParsingError::malformed_atom(&Token::Comma).0, "Comma");
    assert_eq!(ParsingError::malformed_atom(&Token::OpenParen).0, "OpenParen");
}

#[test]
fn names_each_kind_of_token() {
    assert_eq!(Token::OpenParen.name(), "OpenParen");
    assert_eq!(Token::CloseParen.name(), "CloseParen");
    assert_eq!(Token::Quote.name(), "Quote");
    assert_eq!(Token::Comma.name(), "Comma");
    assert_eq!(Token::End.name(), "End");
    assert_eq!(Token::Symbol("a".to_string()).name(), "Symbol");
    assert_eq!(Token::String("\"a\"".to_string()).name(), "String");
    assert_eq!(Token::Number("1".to_string()).name(), "Number");
}

#[test]
fn prints_a_token_without_text_as_its_name() {
    for token in [Token::OpenParen, Token::CloseParen, Token::Quote, Token::Comma, Token::End] {
        assert_eq!(format!("{:?}", token), token.name());
    }
}

#[test]
fn writes_numbers_in_decimal() {
    assert_eq!(decimal_string(0), "0");
    assert_eq!(decimal_string(9), "9");
    assert_eq!(decimal_string(10), "10");
    assert_eq!(decimal_string(1234567890), "1234567890");
    assert_eq!(decimal_string(usize::MAX), usize::MAX.to_string());
}

#[test]
fn clones_an_error_with_its_message() {
    let e = ParsingError("x".to_string());
    assert_eq!(e.clone().0, "x");
}
