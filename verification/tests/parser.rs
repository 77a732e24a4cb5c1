use lisp_reader::lexer::{Lexer, Token};
use lisp_reader::parser::{Parser, SExpression};

fn tokens_of(source: &str) -> Vec<Token> {
    let mut lexer = Lexer::init(&source.to_string());
    lexer.scan().unwrap();
    lexer.tokens
}

fn read(source: &str) -> Result<SExpression, String> {
    let mut parser = Parser::init(tokens_of(source));
    parser.parse().map_err(|e| e.0)
}

fn symbol(text: &str) -> SExpression {
    SExpression::Symbol(text.to_string())
}

fn number(text: &str) -> SExpression {
    SExpression::Number(text.to_string())
}

fn list(items: Vec<SExpression>) -> SExpression {
    SExpression::List(items)
}

#[test]
fn parses_an_application() {
    let tokens = vec![
        Token::OpenParen,
        Token::Symbol("+".to_string()),
        Token::Number("1".to_string()),
        Token::Number("2.5".to_string()),
        Token::CloseParen,
        Token::End,
    ];
    let mut parser = Parser::init(tokens);
    let tree = parser.parse().unwrap();
    assert_eq!(tree, list(vec![symbol("+"), number("1"), number("2.5")]));
    assert_eq!(parser.cursor, 5);
    match tree {
        SExpression::List(items) => match (&items[1], &items[2]) {
            (SExpression::Number(a), SExpression::Number(b)) => {
                assert_eq!(a.parse::<f64>().unwrap(), 1.0);
                assert_eq!(b.parse::<f64>().unwrap(), 2.5);
            }
            _ => panic!("two numbers expected"),
        },
        _ => panic!("a list expected"),
    }
}

#[test]
fn parses_what_the_scanner_gives_for_an_application() {
    assert_eq!(read("(+ 1 2.5)"), Ok(list(vec![symbol("+"), number("1"), number("2.5")])));
}

#[test]
fn closes_a_list_at_the_end_of_input() {
    assert_eq!(read("(foo"), Ok(list(vec![symbol("foo")])));
}

#[test]
fn closes_nested_lists_at_the_end_of_input() {
    assert_eq!(read("((a"), Ok(list(vec![list(vec![symbol("a")])])));
    assert_eq!(read("(a (b (c"), Ok(list(vec![
        symbol("a"),
        list(vec![symbol("b"), list(vec![symbol("c")])]),
    ])));
    assert_eq!(read("("), Ok(list(vec![])));
}

#[test]
fn closes_a_list_where_the_tokens_run_out() {
    let mut parser = Parser::init(vec![
        Token::OpenParen,
        Token::OpenParen,
        Token::Symbol("a".to_string()),
    ]);
    assert_eq!(parser.parse().unwrap(), list(vec![list(vec![symbol("a")])]));
    assert_eq!(parser.cursor, 3);
}

#[test]
fn parses_nested_lists() {
    assert_eq!(
        read("((a) (b))"),
        Ok(list(vec![list(vec![symbol("a")]), list(vec![symbol("b")])]))
    );
    assert_eq!(
        read("(((a)) b (c (d e)) ())"),
        Ok(list(vec![
            list(vec![list(vec![symbol("a")])]),
            symbol("b"),
            list(vec![symbol("c"), list(vec![symbol("d"), symbol("e")])]),
            list(vec![]),
        ]))
    );
}

#[test]
fn steps_over_each_closing_parenthesis_once() {
    let mut parser = Parser::init(tokens_of("((a) (b))"));
    parser.parse().unwrap();
    assert_eq!(parser.tokens.len(), 9);
    assert_eq!(parser.cursor, 8);
    assert_eq!(parser.tokens[parser.cursor], Token::End);
}

#[test]
fn parses_an_empty_list() {
    assert_eq!(read("()"), Ok(list(vec![])));
}

#[test]
fn parses_atoms() {
    assert_eq!(read("foo"), Ok(symbol("foo")));
    assert_eq!(read("42"), Ok(number("42")));
    assert_eq!(read("\"a b\""), Ok(SExpression::Str("\"a b\"".to_string())));
}

#[test]
fn parses_the_first_expression_only() {
    let mut parser = Parser::init(tokens_of("a b c"));
    assert_eq!(parser.parse().unwrap(), symbol("a"));
    assert_eq!(parser.cursor, 1);
    assert_eq!(parser.parse().unwrap(), symbol("b"));
    assert_eq!(parser.cursor, 2);
}

#[test]
fn keeps_symbols_as_they_are() {
    assert_eq!(
        read("(nil t == /= *)"),
        Ok(list(vec![symbol("nil"), symbol("t"), symbol("=="), symbol("/="), symbol("*")]))
    );
}

#[test]
fn fails_on_a_lone_closing_parenthesis() {
    let mut parser = Parser::init(vec![Token::CloseParen, Token::End]);
    let e = parser.parse().unwrap_err();
    assert_eq!(e.0, "closing parent without opening it");
    assert_eq!(parser.cursor, 0);
    assert_eq!(read(") a"), Err("closing parent without opening it".to_string()));
}

#[test]
fn fails_on_a_token_that_is_no_atom() {
    assert_eq!(read(""), Err("End".to_string()));
    assert_eq!(read("'a"), Err("Quote".to_string()));
    assert_eq!(read(", a"), Err("Comma".to_string()));
    assert_eq!(read("(a 'b)"), Err("Quote".to_string()));
    assert_eq!(read("(a (b , c))"), Err("Comma".to_string()));
}

#[test]
fn fails_on_no_token_at_all() {
    let mut parser = Parser::init(vec![]);
    assert_eq!(parser.parse().unwrap_err().0, "End");
    assert_eq!(parser.cursor, 0);
}

#[test]
fn stops_on_the_token_that_is_wrong() {
    let mut parser = Parser::init(tokens_of("(a (b , c))"));
    assert!(parser.parse().is_err());
    assert_eq!(parser.cursor, 4);
    assert_eq!(parser.tokens[parser.cursor], Token::Comma);
}

#[test]
fn leaves_the_tokens_as_they_were() {
    let tokens = tokens_of("(a (b) \"c\" 1.5)");
    let mut parser = Parser::init(tokens_of("(a (b) \"c\" 1.5)"));
    parser.parse().unwrap();
    assert_eq!(parser.tokens, tokens);
}

#[test]
fn reads_back_what_was_written() {
    for source in ["a", "12.5", "\"x y\"", "()", "(a)", "(a (b \"c d\") 1 (2.5 ()))"] {
        let tree = read(source).unwrap();
        assert_eq!(read(&write(&tree)), Ok(tree));
    }
}

fn write(tree: &SExpression) -> String {
    match tree {
        SExpression::Number(text) | SExpression::Str(text) | SExpression::Symbol(text) => {
            text.clone()
        }
        SExpression::List(items) => {
            let inner: Vec<String> = items.iter().map(write).collect();
            format!("({})", inner.join(" "))
        }
    }
}

#[test]
fn reads_the_same_tree_in_any_layout() {
    let tree = list(vec![symbol("a"), list(vec![symbol("b")]), number("1.5")]);
    for source in [
        "(a (b) 1.5)",
        "( a ( b ) 1.5 ) ",
        "  (a\n\t(b \r\n) 1.5\n)\n",
        "\n(\ta\n(\rb\n)\n1.5 \t)",
    ] {
        assert_eq!(read(source).as_ref(), Ok(&tree));
    }
}
