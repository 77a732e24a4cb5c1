//! The lexical structure of the language: which tokens a source text
//! consists of.
//!
//! Scanning proceeds in rounds. A round looks at one character and consumes
//! it together with whatever belongs to it; it yields at most one token.
//! `tokens_from` chains the rounds and closes the sequence with the end
//! marker.

use crate::error::Fault;
use crate::text::{
    char_at, ends_symbol, is_blank, is_digit, lemma_run_end, lemma_run_end_is, line_at, run_end,
    Run,
};
use crate::token::SpecToken;
use vstd::prelude::*;

verus! {

/// What one round of scanning does.
pub struct Round {
    /// The token that the round yields, if any.
    pub emit: Option<SpecToken>,
    /// Where the next round starts.
    pub next: int,
}

/// Where the numeric literal that starts at `at` stops: behind its digits,
/// or, where a point and a digit follow them, behind the digits after the
/// point. A point that no digit follows is not part of the literal.
pub open spec fn number_end(text: Seq<char>, at: int) -> int {
    let whole = run_end(Run::Digits, text, at + 1);
    if char_at(text, whole) == '.' && is_digit(char_at(text, whole + 1)) {
        run_end(Run::Digits, text, whole + 1)
    } else {
        whole
    }
}

/// The round that starts at position `at`.
///
/// The only round that fails inside the text is one that opens a string
/// literal which the rest of the text does not close; the line it reports is
/// the last one, where the search for the closing quote gave up.
pub open spec fn round(text: Seq<char>, at: int) -> Result<Round, Fault> {
    if !(0 <= at < text.len()) {
        Err(Fault::NoCharacter)
    } else {
        let c = text[at];
        if c == '(' {
            Ok(Round { emit: Some(SpecToken::OpenParen), next: at + 1 })
        } else if c == ')' {
            Ok(Round { emit: Some(SpecToken::CloseParen), next: at + 1 })
        } else if c == '\'' {
            Ok(Round { emit: Some(SpecToken::Quote), next: at + 1 })
        } else if c == ',' {
            Ok(Round { emit: Some(SpecToken::Comma), next: at + 1 })
        } else if c == '"' {
            let close = run_end(Run::Quoted, text, at + 1);
            if close < text.len() {
                Ok(
                    Round {
                        emit: Some(SpecToken::String(text.subrange(at, close + 1))),
                        next: close + 1,
                    },
                )
            } else {
                Err(Fault::UnterminatedString { line: line_at(text, text.len() as int) })
            }
        } else if c == ';' {
            Ok(Round { emit: None, next: run_end(Run::Comment, text, at + 1) })
        } else if is_digit(c) {
            let end = number_end(text, at);
            Ok(Round { emit: Some(SpecToken::Number(text.subrange(at, end))), next: end })
        } else if is_blank(c) || c == '\n' {
            Ok(Round { emit: None, next: at + 1 })
        } else {
            let end = run_end(Run::Symbol, text, at + 1);
            Ok(Round { emit: Some(SpecToken::Symbol(text.subrange(at, end))), next: end })
        }
    }
}

/// A round consumes at least one character and stays inside the text.
pub proof fn lemma_round_advances(text: Seq<char>, at: int)
    ensures
        round(text, at) matches Ok(r) ==> at < r.next <= text.len(),
{
    if 0 <= at < text.len() {
        lemma_run_end(Run::Quoted, text, at + 1);
        lemma_run_end(Run::Comment, text, at + 1);
        lemma_run_end(Run::Symbol, text, at + 1);
        lemma_run_end(Run::Digits, text, at + 1);
        let whole = run_end(Run::Digits, text, at + 1);
        if whole + 1 <= text.len() {
            lemma_run_end(Run::Digits, text, whole + 1);
        }
    }
}

/// `tokens` in front of what the rest of a scan gives.
pub open spec fn followed_by(tokens: Seq<SpecToken>, rest: Result<Seq<SpecToken>, Fault>) -> Result<
    Seq<SpecToken>,
    Fault,
> {
    match rest {
        Ok(more) => Ok(tokens + more),
        Err(fault) => Err(fault),
    }
}

/// What a round puts into the token sequence.
pub open spec fn emitted(r: Round) -> Seq<SpecToken> {
    match r.emit {
        Some(token) => seq![token],
        None => Seq::empty(),
    }
}

/// The tokens of the text from position `at` on, the end marker included, or
/// the fault of the first round that fails.
pub open spec fn tokens_from(text: Seq<char>, at: int) -> Result<Seq<SpecToken>, Fault>
    decreases text.len() - at,
{
    if !(0 <= at < text.len()) {
        Ok(seq![SpecToken::End])
    } else {
        match round(text, at) {
            Err(fault) => Err(fault),
            Ok(r) => {
                proof {
                    lemma_round_advances(text, at);
                }
                followed_by(emitted(r), tokens_from(text, r.next))
            },
        }
    }
}

/// The tokens of a whole text.
pub open spec fn tokens_of(text: Seq<char>) -> Result<Seq<SpecToken>, Fault> {
    tokens_from(text, 0)
}

/// Whether `tokens` ends with the end marker and holds it nowhere else.
pub open spec fn ends_once(tokens: Seq<SpecToken>) -> bool {
    &&& tokens.len() > 0
    &&& tokens.last() is End
    &&& forall|i: int| 0 <= i < tokens.len() - 1 ==> !(#[trigger] tokens[i] is End)
}

/// A scan that succeeds gives exactly one end marker, in the last place.
pub proof fn lemma_ends_once(text: Seq<char>, at: int)
    ensures
        tokens_from(text, at) matches Ok(tokens) ==> ends_once(tokens),
    decreases text.len() - at,
{
    if 0 <= at < text.len() {
        if let Ok(r) = round(text, at) {
            lemma_round_advances(text, at);
            lemma_ends_once(text, r.next);
        }
    }
}

/// A text without a double quote from `at` on scans without fault: only a
/// string literal can fail.
pub proof fn lemma_scan_without_quotes(text: Seq<char>, at: int)
    requires
        forall|i: int| at <= i < text.len() ==> #[trigger] text[i] != '"',
    ensures
        tokens_from(text, at) is Ok,
    decreases text.len() - at,
{
    if 0 <= at < text.len() {
        assert(text[at] != '"');
        lemma_round_advances(text, at);
        lemma_scan_without_quotes(text, round(text, at)->Ok_0.next);
    }
}

/// The one fault of a scan is a string literal that is not closed, and the
/// line it reports is the last line of the text.
pub proof fn lemma_only_strings_fail(text: Seq<char>, at: int)
    ensures
        tokens_from(text, at) matches Err(fault) ==> fault == (Fault::UnterminatedString {
            line: line_at(text, text.len() as int),
        }),
    decreases text.len() - at,
{
    if 0 <= at < text.len() {
        if let Ok(r) = round(text, at) {
            lemma_round_advances(text, at);
            lemma_only_strings_fail(text, r.next);
        }
    }
}

/// The characters of a plain source: parentheses, digits, ASCII letters and
/// white space.
pub open spec fn is_plain(c: char) -> bool {
    ||| c == '(' || c == ')'
    ||| is_digit(c)
    ||| 'a' <= c && c <= 'z'
    ||| 'A' <= c && c <= 'Z'
    ||| is_blank(c) || c == '\n'
}

/// A source made of parentheses, digits, letters and white space only scans
/// without fault, whether or not its parentheses match, and its tokens end
/// with the end marker, which stands nowhere else among them.
pub proof fn lemma_plain_source_scans(text: Seq<char>)
    requires
        forall|i: int| 0 <= i < text.len() ==> is_plain(#[trigger] text[i]),
    ensures
        tokens_of(text) matches Ok(tokens) && ends_once(tokens),
{
    assert forall|i: int| 0 <= i < text.len() implies #[trigger] text[i] != '"' by {
        assert(is_plain(text[i]));
    }
    lemma_scan_without_quotes(text, 0);
    lemma_ends_once(text, 0);
}

/// The characters that start a symbol: those that start nothing else.
pub open spec fn starts_symbol(c: char) -> bool {
    !(c == '(' || c == ')' || c == '\'' || c == ',' || c == '"' || c == ';' || is_digit(c)
        || is_blank(c) || c == '\n')
}

/// The texts of symbols: a character that starts a symbol, then any
/// characters but those at which a symbol stops.
pub open spec fn is_symbol_text(text: Seq<char>) -> bool {
    &&& text.len() >= 1
    &&& starts_symbol(text[0])
    &&& forall|i: int| 1 <= i < text.len() ==> !ends_symbol(#[trigger] text[i])
}

/// The texts of string literals: anything without a double quote, between
/// two double quotes.
pub open spec fn is_string_literal(text: Seq<char>) -> bool {
    &&& text.len() >= 2
    &&& text[0] == '"'
    &&& text.last() == '"'
    &&& forall|i: int| 1 <= i < text.len() - 1 ==> #[trigger] text[i] != '"'
}

/// The texts of numeric literals: one or more digits, then nothing, or a
/// point and one or more digits.
pub open spec fn is_decimal_literal(text: Seq<char>) -> bool {
    let whole = run_end(Run::Digits, text, 0);
    &&& whole >= 1
    &&& whole == text.len() || (text[whole] == '.' && whole + 1 < text.len() && run_end(
        Run::Digits,
        text,
        whole + 1,
    ) == text.len())
}

/// Whether a token carries a text that the scanner can have read for it.
pub open spec fn well_formed(token: SpecToken) -> bool {
    match token {
        SpecToken::Symbol(text) => is_symbol_text(text),
        SpecToken::String(text) => is_string_literal(text),
        SpecToken::Number(text) => is_decimal_literal(text),
        _ => true,
    }
}

/// The token of a round is well formed. In particular the text of a number
/// is a decimal literal, whose value any reader of decimal fractions can
/// take.
pub proof fn lemma_round_well_formed(text: Seq<char>, at: int)
    ensures
        round(text, at) matches Ok(r) ==> (r.emit matches Some(token) ==> well_formed(token)),
{
    if 0 <= at < text.len() {
        let c = text[at];
        lemma_round_advances(text, at);
        if c == '"' {
            lemma_run_end(Run::Quoted, text, at + 1);
        } else if is_digit(c) {
            let whole = run_end(Run::Digits, text, at + 1);
            let end = number_end(text, at);
            let literal = text.subrange(at, end);
            lemma_run_end(Run::Digits, text, at + 1);
            if end != whole {
                lemma_run_end(Run::Digits, text, whole + 1);
                lemma_run_end_is(Run::Digits, literal, whole + 1 - at, end - at);
            }
            lemma_run_end_is(Run::Digits, literal, 0, whole - at);
        } else if starts_symbol(c) {
            lemma_run_end(Run::Symbol, text, at + 1);
        }
    }
}

/// Every token of a scan that succeeds is well formed.
pub proof fn lemma_tokens_well_formed(text: Seq<char>, at: int)
    ensures
        tokens_from(text, at) matches Ok(tokens) ==> forall|i: int|
            0 <= i < tokens.len() ==> well_formed(#[trigger] tokens[i]),
    decreases text.len() - at,
{
    if 0 <= at < text.len() {
        if let Ok(r) = round(text, at) {
            lemma_round_advances(text, at);
            lemma_round_well_formed(text, at);
            lemma_tokens_well_formed(text, r.next);
        }
    }
}

} // verus!
