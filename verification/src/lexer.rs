//! The scanner: from source text to tokens.

pub use crate::error::ParsingError;
pub use crate::token::Token;

use crate::error::Fault;
use crate::lexical::{
    emitted, ends_once, followed_by, is_plain, lemma_ends_once, lemma_only_strings_fail,
    lemma_round_advances, lemma_scan_without_quotes, lemma_tokens_well_formed, round,
    tokens_from, well_formed,
};
use crate::text::{
    char_at, is_digit, lemma_line_breaks_bound, lemma_run_end, line_at, run_end, Run,
};
use crate::token::SpecToken;
use vstd::prelude::*;

verus! {

/// Simple scanner that turns a source into tokens.
pub struct Lexer {
    /// Source program to scan.
    pub source: String,
    /// The tokens produced so far.
    pub tokens: Vec<Token>,
    /// The characters of `source`, for access by position, closed by a NUL
    /// that is no part of the source.
    pub chars: Vec<char>,
    /// The position at which the current round started.
    pub start: usize,
    /// The position of the next character to look at.
    pub current: usize,
    /// The number of the line that `current` lies on, counted from one.
    pub line: usize,
}

/// The characters of `source`, in order, and a NUL behind them.
fn decode(source: &str) -> (chars: Vec<char>)
    ensures
        chars@ == source@.push('\0'),
{
    let mut chars: Vec<char> = Vec::new();
    for c in it: source.chars()
        invariant
            chars@ == it.seq().take(it.index() as int),
    {
        chars.push(c);
    }
    chars.push('\0');
    chars
}

/// A token appended to a vector is appended to what the vector stands for.
proof fn lemma_pushed(before: Vec<Token>, after: Vec<Token>, token: Token)
    requires
        after@ == before@.push(token),
    ensures
        after.deep_view() == before.deep_view().push(token@),
{
    assert(after.deep_view() =~= before.deep_view().push(token@));
}

impl Lexer {
    /// The cursor lies inside the source, behind the start of its round.
    pub open spec fn cursor_ok(&self) -> bool {
        &&& self.chars@ == self.source@.push('\0')
        &&& self.start <= self.current <= self.source@.len()
    }

    /// The line number is that of the cursor's position.
    pub open spec fn line_ok(&self) -> bool {
        self.line == line_at(self.source@, self.current as int)
    }

    /// The scanner's state is consistent: its cursor lies inside the source
    /// and its line number is one more than the number of line feeds before
    /// the cursor.
    pub open spec fn wf(&self) -> bool {
        self.cursor_ok() && self.line_ok()
    }

    /// Whether `after` scans the same source as `self`, in the same round.
    spec fn same_round(&self, after: &Lexer) -> bool {
        &&& after.source == self.source
        &&& after.chars == self.chars
        &&& after.start == self.start
    }

    /// A scanner at the start of `source`, with no token yet.
    pub fn init(source: &String) -> (lexer: Self)
        ensures
            lexer.wf(),
            lexer.source@ == source@,
            lexer.tokens@.len() == 0,
            lexer.start == 0,
            lexer.current == 0,
            lexer.line == 1,
    {
        Lexer {
            source: source.clone(),
            tokens: Vec::new(),
            chars: decode(source.as_str()),
            start: 0,
            current: 0,
            line: 1,
        }
    }

    /// Scans the rest of the source into tokens.
    ///
    /// On success the tokens of the source from the cursor on are appended
    /// to `tokens`: each of them well formed, the end marker last and
    /// nowhere else. The one thing that makes the scan fail is a string
    /// literal that is still open at the end of the source; the error names
    /// the last line of the source, and `tokens` is what it was before the
    /// call. So a source without a double quote, and among such any source
    /// made of parentheses, digits, letters and white space, scans without
    /// fault. Either way the whole source has been consumed and its line
    /// feeds counted.
    pub fn scan(&mut self) -> (r: Result<(), ParsingError>)
        requires
            old(self).wf(),
        ensures
            final(self).wf(),
            final(self).source == old(self).source,
            final(self).current == final(self).source@.len(),
            match tokens_from(old(self).source@, old(self).current as int) {
                Ok(found) => {
                    &&& r is Ok
                    &&& final(self).tokens.deep_view() == old(self).tokens.deep_view() + found
                    &&& ends_once(found)
                    &&& forall|i: int| 0 <= i < found.len() ==> well_formed(#[trigger] found[i])
                },
                Err(fault) => {
                    &&& r matches Err(e)
                    &&& e@ == fault.message()
                    &&& fault == (Fault::UnterminatedString {
                        line: line_at(old(self).source@, old(self).source@.len() as int),
                    })
                    &&& final(self).tokens@ == old(self).tokens@
                },
            },
            (forall|i: int|
                0 <= i < old(self).source@.len() ==> is_plain(#[trigger] old(self).source@[i]))
                ==> r is Ok,
    {
        proof {
            let text = self.source@;
            let from = self.current as int;
            lemma_ends_once(text, from);
            lemma_tokens_well_formed(text, from);
            lemma_only_strings_fail(text, from);
            if forall|i: int| 0 <= i < text.len() ==> is_plain(#[trigger] text[i]) {
                assert forall|i: int| from <= i < text.len() implies #[trigger] text[i]
                    != '"' by {
                    assert(is_plain(text[i]));
                }
                lemma_scan_without_quotes(text, from);
            }
        }
        let kept = self.tokens.len();
        let ghost text = self.source@;
        let ghost found: Seq<SpecToken> = Seq::empty();
        while !self.is_end()
            invariant
                self.wf(),
                self.source == old(self).source,
                text == self.source@,
                kept == old(self).tokens@.len(),
                kept <= self.tokens@.len(),
                self.tokens@.subrange(0, kept as int) == old(self).tokens@,
                self.tokens.deep_view() == old(self).tokens.deep_view() + found,
                tokens_from(text, old(self).current as int) == followed_by(
                    found,
                    tokens_from(text, self.current as int),
                ),
            decreases self.chars@.len() - self.current,
        {
            self.start = self.current;
            let ghost at = self.current as int;
            proof {
                lemma_round_advances(text, at);
            }
            match self.scan_token() {
                Ok(()) => {
                    proof {
                        let r = round(text, at)->Ok_0;
                        assert(found + (emitted(r) + tokens_from(text, r.next)->Ok_0) =~= (found
                            + emitted(r)) + tokens_from(text, r.next)->Ok_0);
                        found = found + emitted(r);
                        assert(self.tokens.deep_view() =~= old(self).tokens.deep_view() + found);
                        assert(self.tokens@.subrange(0, kept as int) =~= old(self).tokens@);
                    }
                },
                Err(e) => {
                    self.tokens.truncate(kept);
                    assert(self.tokens@ =~= old(self).tokens@);
                    return Err(e);
                },
            }
        }
        let ghost tokens_then = self.tokens;
        self.tokens.push(Token::End);
        proof {
            lemma_pushed(tokens_then, self.tokens, Token::End);
            assert(self.tokens.deep_view() =~= old(self).tokens.deep_view() + (found
                + seq![SpecToken::End]));
        }
        Ok(())
    }

    /// Scans one round: looks at the character under the cursor and consumes
    /// it with whatever belongs to it.
    fn scan_token(&mut self) -> (r: Result<(), ParsingError>)
        requires
            old(self).wf(),
            old(self).start == old(self).current,
        ensures
            final(self).wf(),
            old(self).same_round(final(self)),
            match round(old(self).source@, old(self).current as int) {
                Ok(round) => {
                    &&& r is Ok
                    &&& final(self).current == round.next
                    &&& final(self).tokens@.len() >= old(self).tokens@.len()
                    &&& final(self).tokens@.subrange(0, old(self).tokens@.len() as int) == old(
                        self,
                    ).tokens@
                    &&& final(self).tokens.deep_view() == old(self).tokens.deep_view() + emitted(
                        round,
                    )
                },
                Err(fault) => {
                    &&& r matches Err(e)
                    &&& e@ == fault.message()
                    &&& final(self).current == final(self).source@.len()
                    &&& final(self).tokens == old(self).tokens
                },
            },
    {
        let ghost text = self.source@;
        let ghost at = self.current as int;
        let ghost tokens_then = self.tokens;
        if let Some(c) = self.advance() {
            proof {
                lemma_line_breaks_bound(text, at);
            }
            if c == '(' {
                self.emit(Token::OpenParen);
            } else if c == ')' {
                self.emit(Token::CloseParen);
            } else if c == '\'' {
                self.emit(Token::Quote);
            } else if c == ',' {
                self.emit(Token::Comma);
            } else if c == '"' {
                return self.scan_string();
            } else if c == ';' {
                self.skip_comment();
                assert(self.tokens.deep_view() =~= tokens_then.deep_view() + Seq::empty());
            } else if '0' <= c && c <= '9' {
                self.scan_number();
            } else if c == ' ' || c == '\t' || c == '\r' {
                // Blanks separate tokens and mean nothing else.
                assert(self.tokens.deep_view() =~= tokens_then.deep_view() + Seq::empty());
            } else if c == '\n' {
                assert(self.chars.len() == self.source@.len() + 1);
                self.line += 1;
                assert(self.tokens.deep_view() =~= tokens_then.deep_view() + Seq::empty());
            } else {
                // Everything else starts a symbol.
                self.scan_symbol();
            }
            proof {
                let found = round(text, at)->Ok_0;
                assert(self.tokens@.subrange(0, tokens_then@.len() as int) =~= tokens_then@);
                assert(self.tokens.deep_view() =~= tokens_then.deep_view() + emitted(found));
            }
            Ok(())
        } else {
            Err(ParsingError::no_character())
        }
    }

    /// Scans the rest of a symbol whose first character has been consumed.
    fn scan_symbol(&mut self)
        requires
            old(self).wf(),
        ensures
            final(self).wf(),
            old(self).same_round(final(self)),
            final(self).current == run_end(Run::Symbol, old(self).source@, old(self).current as int),
            final(self).tokens@ == old(self).tokens@.push(final(self).tokens@.last()),
            final(self).tokens@.last()@ == SpecToken::Symbol(
                old(self).source@.subrange(old(self).start as int, final(self).current as int),
            ),
    {
        self.consume(Run::Symbol);
        let text = self.lexeme();
        self.emit(Token::Symbol(text));
    }

    /// Scans the rest of a numeric literal whose first digit has been
    /// consumed: more digits, then a point and digits where both are there.
    fn scan_number(&mut self)
        requires
            old(self).wf(),
        ensures
            final(self).wf(),
            old(self).same_round(final(self)),
            final(self).current == ({
                let whole = run_end(Run::Digits, old(self).source@, old(self).current as int);
                if char_at(old(self).source@, whole) == '.' && is_digit(
                    char_at(old(self).source@, whole + 1),
                ) {
                    run_end(Run::Digits, old(self).source@, whole + 1)
                } else {
                    whole
                }
            }),
            final(self).tokens@ == old(self).tokens@.push(final(self).tokens@.last()),
            final(self).tokens@.last()@ == SpecToken::Number(
                old(self).source@.subrange(old(self).start as int, final(self).current as int),
            ),
    {
        self.consume(Run::Digits);
        let next = self.peek_next();
        if self.peek() == '.' && '0' <= next && next <= '9' {
            assert(self.current < self.source@.len() < self.chars.len());
            self.current += 1;
            self.consume(Run::Digits);
        }
        let text = self.lexeme();
        self.emit(Token::Number(text));
    }

    /// The character behind the one under the cursor, or NUL where the
    /// source has none. Nothing is consumed.
    fn peek_next(&self) -> (c: char)
        requires
            self.cursor_ok(),
        ensures
            c == char_at(self.source@, self.current + 1),
    {
        if self.current < self.length() {
            self.chars[self.current + 1]
        } else {
            '\0'
        }
    }

    /// Scans the rest of a string literal whose opening quote has been
    /// consumed, up to and including the closing quote. Where the source
    /// ends first, this fails and reports the line that the source ends on.
    fn scan_string(&mut self) -> (r: Result<(), ParsingError>)
        requires
            old(self).wf(),
        ensures
            final(self).wf(),
            old(self).same_round(final(self)),
            ({
                let close = run_end(Run::Quoted, old(self).source@, old(self).current as int);
                if close < old(self).source@.len() {
                    &&& r is Ok
                    &&& final(self).current == close + 1
                    &&& final(self).tokens@ == old(self).tokens@.push(final(self).tokens@.last())
                    &&& final(self).tokens@.last()@ == SpecToken::String(
                        old(self).source@.subrange(old(self).start as int, close + 1),
                    )
                } else {
                    &&& r matches Err(e)
                    &&& e@ == (Fault::UnterminatedString {
                        line: line_at(old(self).source@, old(self).source@.len() as int),
                    }).message()
                    &&& final(self).current == old(self).source@.len()
                    &&& final(self).tokens == old(self).tokens
                }
            }),
    {
        // Up to the next quote.
        self.consume(Run::Quoted);
        if self.is_end() {
            // The whole source was searched and no quote was found.
            return Err(ParsingError::unterminated_string(self.line));
        }
        // Over the closing quote.
        proof {
            lemma_run_end(Run::Quoted, self.source@, old(self).current as int);
        }
        assert(self.current < self.source@.len() < self.chars.len());
        self.current += 1;
        let text = self.lexeme();
        self.emit(Token::String(text));
        Ok(())
    }

    /// Skips a comment: everything up to the end of the line. The line feed
    /// stays, so that the next round counts it.
    fn skip_comment(&mut self)
        requires
            old(self).wf(),
        ensures
            final(self).wf(),
            old(self).same_round(final(self)),
            final(self).tokens == old(self).tokens,
            final(self).current == run_end(
                Run::Comment,
                old(self).source@,
                old(self).current as int,
            ),
    {
        self.consume(Run::Comment);
    }

    /// Whether every character has been consumed.
    fn is_end(&self) -> (r: bool)
        requires
            self.cursor_ok(),
        ensures
            r == (self.current >= self.source@.len()),
    {
        self.current >= self.length()
    }

    /// The number of characters of the source. Since the characters are
    /// held with a NUL behind them, it is less than the largest index.
    fn length(&self) -> (n: usize)
        requires
            self.cursor_ok(),
        ensures
            n == self.source@.len(),
            n < usize::MAX,
    {
        self.chars.len() - 1
    }

    /// Consumes the character under the cursor and returns it, or returns
    /// `None` where the source has no character left.
    fn advance(&mut self) -> (r: Option<char>)
        requires
            old(self).cursor_ok(),
        ensures
            final(self).cursor_ok(),
            old(self).same_round(final(self)),
            final(self).tokens == old(self).tokens,
            final(self).line == old(self).line,
            match r {
                Some(c) => old(self).current < old(self).source@.len() && c == old(
                    self,
                ).source@[old(self).current as int] && final(self).current == old(self).current
                    + 1,
                None => old(self).current >= old(self).source@.len() && final(self).current == old(
                    self,
                ).current,
            },
    {
        if self.current < self.length() {
            let c = self.chars[self.current];
            self.current += 1;
            Some(c)
        } else {
            None
        }
    }

    /// The character under the cursor, or NUL where the source has none.
    /// Nothing is consumed.
    fn peek(&self) -> (c: char)
        requires
            self.cursor_ok(),
        ensures
            c == char_at(self.source@, self.current as int),
    {
        self.chars[self.current]
    }

    /// Consumes the characters that `run` takes, counting the line feeds
    /// among them.
    fn consume(&mut self, run: Run)
        requires
            old(self).wf(),
        ensures
            final(self).wf(),
            old(self).same_round(final(self)),
            final(self).tokens == old(self).tokens,
            final(self).current == run_end(run, old(self).source@, old(self).current as int),
    {
        while self.current < self.length() && run.accepts(self.chars[self.current])
            invariant
                self.wf(),
                old(self).same_round(self),
                self.tokens == old(self).tokens,
                run_end(run, self.source@, self.current as int) == run_end(
                    run,
                    old(self).source@,
                    old(self).current as int,
                ),
            decreases self.chars@.len() - self.current,
        {
            proof {
                lemma_line_breaks_bound(self.source@, self.current as int);
            }
            if self.chars[self.current] == '\n' {
                self.line += 1;
            }
            self.current += 1;
        }
    }

    /// The text of the current round: the characters from its start up to
    /// the cursor.
    fn lexeme(&self) -> (text: String)
        requires
            self.cursor_ok(),
        ensures
            text@ == self.source@.subrange(self.start as int, self.current as int),
    {
        String::from_str(self.source.as_str().substring_char(self.start, self.current))
    }

    /// Appends `token` to the tokens.
    fn emit(&mut self, token: Token)
        ensures
            old(self).same_round(final(self)),
            final(self).current == old(self).current,
            final(self).line == old(self).line,
            final(self).tokens@ == old(self).tokens@.push(token),
    {
        self.tokens.push(token);
    }
}

} // verus!
