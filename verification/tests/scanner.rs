use lisp_reader::lexer::{Lexer, Token};

fn scan(source: &str) -> Result<Vec<Token>, String> {
    let mut lexer = Lexer::init(&source.to_string());
    match lexer.scan() {
        Ok(()) => Ok(lexer.tokens),
        Err(e) => Err(e.0),
    }
}

fn symbol(text: &str) -> Token {
    Token::Symbol(text.to_string())
}

fn number(text: &str) -> Token {
    Token::Number(text.to_string())
}

fn string(text: &str) -> Token {
    Token::String(text.to_string())
}

fn value(token: &Token) -> f64 {
    match token {
        Token::Number(text) => text.parse().unwrap(),
        other => panic!("not a number: {:?}", other),
    }
}

#[test]
fn scans_an_application() {
    let tokens = scan("(+ 1 2.5)").unwrap();
    assert_eq!(
        tokens,
        vec![
            Token::OpenParen,
            symbol("+"),
            number("1"),
            number("2.5"),
            Token::CloseParen,
            Token::End,
        ]
    );
    assert_eq!(value(&tokens[2]), 1.0);
    assert_eq!(value(&tokens[3]), 2.5);
}

#[test]
fn scans_an_empty_source() {
    assert_eq!(scan("").unwrap(), vec![Token::End]);
}

#[test]
fn scans_the_four_marks() {
    assert_eq!(
        scan("()',").unwrap(),
        vec![Token::OpenParen, Token::CloseParen, Token::Quote, Token::Comma, Token::End]
    );
}

#[test]
fn scans_an_unclosed_list() {
    assert_eq!(scan("(foo").unwrap(), vec![Token::OpenParen, symbol("foo"), Token::End]);
}

#[test]
fn scans_a_number_with_a_fraction() {
    let tokens = scan("3.14").unwrap();
    assert_eq!(tokens, vec![number("3.14"), Token::End]);
    assert_eq!(value(&tokens[0]), 3.14);
}

#[test]
fn leaves_a_bare_point_out_of_the_number() {
    let tokens = scan("3.").unwrap();
    assert_eq!(tokens, vec![number("3"), symbol("."), Token::End]);
    assert_eq!(value(&tokens[0]), 3.0);
}

#[test]
fn takes_one_point_into_a_number() {
    assert_eq!(scan("1.2.3").unwrap(), vec![number("1.2"), symbol(".3"), Token::End]);
}

#[test]
fn stops_a_number_in_front_of_a_letter() {
    assert_eq!(scan("1e5").unwrap(), vec![number("1"), symbol("e5"), Token::End]);
}

#[test]
fn stops_a_number_at_a_point_that_ends_the_source() {
    assert_eq!(scan("(12.)").unwrap(), vec![
        Token::OpenParen,
        number("12"),
        symbol("."),
        Token::CloseParen,
        Token::End,
    ]);
}

#[test]
fn reads_a_sign_as_part_of_a_symbol() {
    assert_eq!(scan("-5").unwrap(), vec![symbol("-5"), Token::End]);
}

#[test]
fn keeps_the_quotes_of_a_string() {
    assert_eq!(
        scan("\"hi there\" x").unwrap(),
        vec![string("\"hi there\""), symbol("x"), Token::End]
    );
}

#[test]
fn scans_an_empty_string() {
    assert_eq!(scan("\"\"").unwrap(), vec![string("\"\""), Token::End]);
}

#[test]
fn keeps_a_line_feed_inside_a_string() {
    assert_eq!(scan("\"a\nb\"").unwrap(), vec![string("\"a\nb\""), Token::End]);
}

#[test]
fn fails_on_an_unterminated_string() {
    assert_eq!(scan("\"abc"), Err("1 Error while parsing a string".to_string()));
}

#[test]
fn reports_the_line_on_which_the_source_ends() {
    assert_eq!(scan("a\nb\n\"abc"), Err("3 Error while parsing a string".to_string()));
    assert_eq!(scan("\"a\nb\nc"), Err("3 Error while parsing a string".to_string()));
    assert_eq!(scan("; note\n(\"x"), Err("2 Error while parsing a string".to_string()));
}

#[test]
fn reports_a_line_number_of_several_digits() {
    let mut source = "\n".repeat(1203);
    source.push('"');
    assert_eq!(scan(&source), Err("1204 Error while parsing a string".to_string()));
}

#[test]
fn exposes_no_token_of_a_failed_scan() {
    let mut lexer = Lexer::init(&"(a b \"c".to_string());
    assert!(lexer.scan().is_err());
    assert!(lexer.tokens.is_empty());
}

#[test]
fn skips_a_comment_up_to_the_line_feed() {
    assert_eq!(
        scan("a ; b (c \"d\n e").unwrap(),
        vec![symbol("a"), symbol("e"), Token::End]
    );
    assert_eq!(scan("; only a comment").unwrap(), vec![Token::End]);
}

#[test]
fn skips_blanks_and_line_feeds() {
    assert_eq!(scan(" \t\r\n a \n").unwrap(), vec![symbol("a"), Token::End]);
}

#[test]
fn stops_a_symbol_at_space_parenthesis_and_line_feed_only() {
    assert_eq!(
        scan("a\tb\"c'd,e;f9(g)h\ni j").unwrap(),
        vec![
            symbol("a\tb\"c'd,e;f9"),
            Token::OpenParen,
            symbol("g"),
            Token::CloseParen,
            symbol("h"),
            symbol("i"),
            symbol("j"),
            Token::End,
        ]
    );
}

#[test]
fn scans_a_quoted_symbol_and_a_comma() {
    assert_eq!(
        scan("'a , b").unwrap(),
        vec![Token::Quote, symbol("a"), Token::Comma, symbol("b"), Token::End]
    );
}

#[test]
fn counts_positions_in_characters() {
    assert_eq!(
        scan("é(λ \"ü\")").unwrap(),
        vec![
            symbol("é"),
            Token::OpenParen,
            symbol("λ"),
            string("\"ü\""),
            Token::CloseParen,
            Token::End,
        ]
    );
}

#[test]
fn scans_plain_sources_and_ends_them_once() {
    for source in ["", "()", "((ab 12)\n (c))", "a1 b2\t(  )\r\n", "(((x)))", ")(", "12 34"] {
        let tokens = scan(source).unwrap();
        assert_eq!(tokens.last(), Some(&Token::End));
        assert_eq!(tokens.iter().filter(|t| **t == Token::End).count(), 1);
    }
}

#[test]
fn writes_every_number_as_a_decimal_literal() {
    let tokens = scan("(0 007 1.50 12345678901234567890.5 9.)").unwrap();
    let texts: Vec<&str> = tokens
        .iter()
        .filter_map(|t| match t {
            Token::Number(text) => Some(text.as_str()),
            _ => None,
        })
        .collect();
    assert_eq!(texts, vec!["0", "007", "1.50", "12345678901234567890.5", "9"]);
    for text in texts {
        assert!(text.parse::<f64>().is_ok());
    }
}

#[test]
fn starts_at_the_start_of_the_source() {
    let lexer = Lexer::init(&"(a)".to_string());
    assert_eq!(lexer.source, "(a)");
    assert!(lexer.tokens.is_empty());
    assert_eq!(lexer.start, 0);
    assert_eq!(lexer.current, 0);
    assert_eq!(lexer.line, 1);
}

#[test]
fn ends_at_the_end_of_the_source() {
    let mut lexer = Lexer::init(&"(a\nb)\n".to_string());
    lexer.scan().unwrap();
    assert_eq!(lexer.current, 6);
    assert_eq!(lexer.line, 3);
    assert_eq!(lexer.source, "(a\nb)\n");
}

#[test]
fn appends_only_the_end_marker_when_scanning_again() {
    let mut lexer = Lexer::init(&"a".to_string());
    lexer.scan().unwrap();
    lexer.scan().unwrap();
    assert_eq!(lexer.tokens, vec![symbol("a"), Token::End, Token::End]);
}

#[test]
fn counts_lines_from_one() {
    let mut lexer = Lexer::init(&"a\nb".to_string());
    assert_eq!(lexer.line, 1);
    lexer.scan().unwrap();
    assert_eq!(lexer.line, 2);
    assert_eq!(lexer.tokens, vec![symbol("a"), symbol("b"), Token::End]);
}

#[test]
fn counts_the_line_feed_behind_a_comment_once() {
    let mut lexer = Lexer::init(&"; c\n42".to_string());
    lexer.scan().unwrap();
    assert_eq!(lexer.line, 2);
    assert_eq!(lexer.current, 6);
    assert_eq!(lexer.tokens, vec![number("42"), Token::End]);
}

#[test]
fn keeps_the_characters_behind_a_closing_nul() {
    let lexer = Lexer::init(&"ab".to_string());
    assert_eq!(lexer.chars, vec!['a', 'b', '\0']);
}
