//! The error that scanning and parsing report.

use crate::text::{decimal, decimal_string};
use crate::token::{SpecToken, Token};
use vstd::prelude::*;

verus! {

/// Error met while scanning or parsing. It carries a message for a human
/// reader.
#[derive(Debug, Clone)]
pub struct ParsingError(pub String);

/// What can go wrong.
pub enum Fault {
    /// A string literal was still open where the source ended, on the given
    /// line.
    UnterminatedString { line: nat },
    /// The scanner was asked for a token where the source has no character
    /// left.
    NoCharacter,
    /// A closing parenthesis stands where an expression should start.
    UnmatchedClose,
    /// The given token stands where an atom should.
    MalformedAtom(SpecToken),
}

impl Fault {
    /// The message that reports the fault. The texts are part of the
    /// interface and are kept letter for letter.
    pub open spec fn message(self) -> Seq<char> {
        match self {
            Fault::UnterminatedString { line } => decimal(line) + " Error while parsing a string"@,
            Fault::NoCharacter => "Geniric error while parsing"@,
            Fault::UnmatchedClose => "closing parent without opening it"@,
            Fault::MalformedAtom(token) => token.name(),
        }
    }
}

impl View for ParsingError {
    type V = Seq<char>;

    /// The message.
    open spec fn view(&self) -> Seq<char> {
        self.0@
    }
}

impl ParsingError {
    /// The report of a string literal left open on line `line`.
    pub fn unterminated_string(line: usize) -> (e: ParsingError)
        ensures
            e@ == (Fault::UnterminatedString { line: line as nat }).message(),
    {
        let mut message = decimal_string(line);
        message.append(" Error while parsing a string");
        ParsingError(message)
    }

    /// The report of a scan past the end of the source.
    pub fn no_character() -> (e: ParsingError)
        ensures
            e@ == Fault::NoCharacter.message(),
    {
        ParsingError(String::from_str("Geniric error while parsing"))
    }

    /// The report of a closing parenthesis that closes nothing.
    pub fn unmatched_close() -> (e: ParsingError)
        ensures
            e@ == Fault::UnmatchedClose.message(),
    {
        ParsingError(String::from_str("closing parent without opening it"))
    }

    /// The report of a token that stands where an atom should and is none:
    /// the token as it prints. Such a token carries no text, so it prints
    /// as the name of its kind.
    pub fn malformed_atom(token: &Token) -> (e: ParsingError)
        requires
            !(token@ is Symbol || token@ is String || token@ is Number),
        ensures
            e@ == Fault::MalformedAtom(token@).message(),
    {
        ParsingError(String::from_str(token.name()))
    }

    /// The error as it is shown to the user: the message behind a fixed
    /// prefix.
    pub fn to_string(&self) -> (text: String)
        ensures
            text@ == "Parsing Error: "@ + self@,
    {
        let mut text = String::from_str("Parsing Error: ");
        text.append(self.0.as_str());
        text
    }
}

} // verus!
