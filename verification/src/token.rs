//! The vocabulary shared by the scanner and the parser.

use vstd::prelude::*;

verus! {

/// Token produced by the scanner.
#[derive(Debug, PartialEq)]
pub enum Token {
    OpenParen,
    /// A symbol, with its text.
    Symbol(String),
    CloseParen,
    Quote,
    Comma,
    /// A string literal as written, the two quote characters included.
    String(String),
    /// A numeric literal as written: digits, optionally followed by a point
    /// and more digits.
    Number(String),
    /// The end of the input. A scan ends with exactly one.
    End,
}

/// What a token is, with texts as sequences of characters.
pub enum SpecToken {
    OpenParen,
    Symbol(Seq<char>),
    CloseParen,
    Quote,
    Comma,
    String(Seq<char>),
    Number(Seq<char>),
    End,
}

impl SpecToken {
    /// The name of the token's kind. A token without text prints as its
    /// name.
    pub open spec fn name(self) -> Seq<char> {
        match self {
            SpecToken::OpenParen => "OpenParen"@,
            SpecToken::Symbol(_) => "Symbol"@,
            SpecToken::CloseParen => "CloseParen"@,
            SpecToken::Quote => "Quote"@,
            SpecToken::Comma => "Comma"@,
            SpecToken::String(_) => "String"@,
            SpecToken::Number(_) => "Number"@,
            SpecToken::End => "End"@,
        }
    }

    /// Whether a list stops in front of this token.
    pub open spec fn closes_list(self) -> bool {
        self is CloseParen || self is End
    }
}

impl View for Token {
    type V = SpecToken;

    open spec fn view(&self) -> SpecToken {
        match self {
            Token::OpenParen => SpecToken::OpenParen,
            Token::Symbol(text) => SpecToken::Symbol(text@),
            Token::CloseParen => SpecToken::CloseParen,
            Token::Quote => SpecToken::Quote,
            Token::Comma => SpecToken::Comma,
            Token::String(text) => SpecToken::String(text@),
            Token::Number(text) => SpecToken::Number(text@),
            Token::End => SpecToken::End,
        }
    }
}

impl DeepView for Token {
    type V = SpecToken;

    open spec fn deep_view(&self) -> SpecToken {
        self@
    }
}

impl Token {
    /// The name of the token's kind.
    pub fn name(&self) -> (name: &'static str)
        ensures
            name@ == self@.name(),
    {
        match self {
            Token::OpenParen => "OpenParen",
            Token::Symbol(_) => "Symbol",
            Token::CloseParen => "CloseParen",
            Token::Quote => "Quote",
            Token::Comma => "Comma",
            Token::String(_) => "String",
            Token::Number(_) => "Number",
            Token::End => "End",
        }
    }
}

} // verus!
