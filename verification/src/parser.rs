//! The parser: from tokens to an S-expression tree, by recursive descent.

use crate::error::ParsingError;
use crate::syntax::{
    atom, expression_at, items_at, items_then, lemma_cursor_moves_on, step_over, token_at,
    SpecExpression,
};
use crate::token::Token;
use vstd::prelude::*;

verus! {

/// An S-expression.
#[derive(Debug, PartialEq)]
pub enum SExpression {
    /// A numeric literal, as written.
    Number(String),
    /// A string literal, as written, the two quote characters included.
    Str(String),
    /// A symbol.
    Symbol(String),
    /// A list of expressions, possibly empty.
    List(Vec<SExpression>),
}

impl View for SExpression {
    type V = SpecExpression;

    open spec fn view(&self) -> SpecExpression
        decreases self,
    {
        match self {
            SExpression::Number(text) => SpecExpression::Number(text@),
            SExpression::Str(text) => SpecExpression::Str(text@),
            SExpression::Symbol(text) => SpecExpression::Symbol(text@),
            SExpression::List(items) => SpecExpression::List(
                Seq::new(
                    items.len() as nat,
                    |i: int|
                        if 0 <= i < items.len() {
                            items[i]@
                        } else {
                            SpecExpression::List(Seq::empty())
                        },
                ),
            ),
        }
    }
}

/// What each expression of a sequence stands for.
pub open spec fn views(items: Seq<SExpression>) -> Seq<SpecExpression> {
    Seq::new(items.len(), |i: int| items[i]@)
}

/// A list stands for the list of what its items stand for.
pub proof fn lemma_list_view(items: Vec<SExpression>)
    ensures
        SExpression::List(items)@ == SpecExpression::List(views(items@)),
{
    assert(SExpression::List(items)@->List_0 =~= views(items@));
}

/// Parser over a sequence of tokens.
pub struct Parser {
    /// The tokens to parse.
    pub tokens: Vec<Token>,
    /// The position of the next token to look at.
    pub cursor: usize,
}

impl Parser {
    /// A parser at the start of `toks`.
    pub fn init(toks: Vec<Token>) -> (parser: Self)
        ensures
            parser.tokens == toks,
            parser.cursor == 0,
    {
        Parser { tokens: toks, cursor: 0 }
    }

    /// Parses the expression that starts under the cursor.
    ///
    /// On success the cursor stands behind the expression. On failure
    /// parsing halts where it is: the cursor stays on the token that cannot
    /// stand where it does and is not moved past it, however deep in lists
    /// that token lies. This is a decision of this library; the step over a
    /// token is taken only behind an expression that was found. The tokens
    /// are not changed.
    pub fn parse(&mut self) -> (r: Result<SExpression, ParsingError>)
        ensures
            final(self).tokens == old(self).tokens,
            old(self).cursor <= final(self).cursor,
            final(self).cursor == expression_at(
                old(self).tokens.deep_view(),
                old(self).cursor as int,
            ).cursor,
            match expression_at(old(self).tokens.deep_view(), old(self).cursor as int).result {
                Ok(tree) => r matches Ok(found) && found@ == tree,
                Err(fault) => r matches Err(e) && e@ == fault.message(),
            },
    {
        proof {
            lemma_cursor_moves_on(self.tokens.deep_view(), self.cursor as int);
        }
        self.parse_expression()
    }

    /// Parses one expression: a list where an opening parenthesis is under
    /// the cursor, an atom otherwise. Behind an expression that was found,
    /// the cursor moves on by one token: behind the atom, or behind the
    /// token that closes the list.
    fn parse_expression(&mut self) -> (r: Result<SExpression, ParsingError>)
        ensures
            final(self).tokens == old(self).tokens,
            final(self).cursor == expression_at(
                old(self).tokens.deep_view(),
                old(self).cursor as int,
            ).cursor,
            match expression_at(old(self).tokens.deep_view(), old(self).cursor as int).result {
                Ok(tree) => r matches Ok(found) && found@ == tree,
                Err(fault) => r matches Err(e) && e@ == fault.message(),
            },
        decreases old(self).tokens@.len() - old(self).cursor, 1int,
    {
        let r = if self.cursor < self.tokens.len() {
            match self.tokens[self.cursor] {
                Token::OpenParen => self.parse_list(),
                Token::CloseParen => Err(ParsingError::unmatched_close()),
                _ => self.parse_atom(),
            }
        } else {
            self.parse_atom()
        };
        if r.is_ok() {
            self.step();
        }
        r
    }

    /// Parses a list whose opening parenthesis is under the cursor: steps
    /// over it and collects expressions up to the token that closes the
    /// list. The cursor is left on that token.
    fn parse_list(&mut self) -> (r: Result<SExpression, ParsingError>)
        requires
            old(self).cursor < old(self).tokens@.len(),
        ensures
            final(self).tokens == old(self).tokens,
            final(self).cursor == items_at(
                old(self).tokens.deep_view(),
                old(self).cursor + 1,
            ).cursor,
            match items_at(old(self).tokens.deep_view(), old(self).cursor + 1).result {
                Ok(items) => r matches Ok(found) && found@ == SpecExpression::List(items),
                Err(fault) => r matches Err(e) && e@ == fault.message(),
            },
        decreases old(self).tokens@.len() - old(self).cursor, 0int,
    {
        assert(self.cursor < self.tokens.len());
        self.cursor += 1;  // consume open paren.
        let mut res: Vec<SExpression> = Vec::new();
        let ghost tokens = self.tokens.deep_view();
        loop
            invariant
                self.tokens == old(self).tokens,
                tokens == self.tokens.deep_view(),
                old(self).cursor < self.cursor <= self.tokens@.len(),
                items_at(tokens, old(self).cursor + 1) == items_then(
                    views(res@),
                    items_at(tokens, self.cursor as int),
                ),
            decreases self.tokens@.len() - self.cursor,
        {
            if self.at_list_end() {
                proof {
                    lemma_list_view(res);
                    assert(views(res@) + Seq::empty() =~= views(res@));
                }
                return Ok(SExpression::List(res));
            }
            let ghost at = self.cursor as int;
            let ghost before = res@;
            proof {
                lemma_cursor_moves_on(tokens, at);
            }
            match self.parse_expression() {
                Ok(expression) => {
                    res.push(expression);
                    proof {
                        let first = expression_at(tokens, at);
                        let rest = items_at(tokens, first.cursor);
                        assert(views(res@) =~= views(before) + seq![first.result->Ok_0]);
                        if rest.result is Ok {
                            assert(views(before) + (seq![first.result->Ok_0] + rest.result->Ok_0)
                                =~= views(res@) + rest.result->Ok_0);
                        }
                    }
                },
                Err(e) => {
                    return Err(e);
                },
            }
        }
    }

    /// The atom that the token under the cursor stands for.
    fn parse_atom(&self) -> (r: Result<SExpression, ParsingError>)
        ensures
            match atom(token_at(self.tokens.deep_view(), self.cursor as int)) {
                Ok(tree) => r matches Ok(found) && found@ == tree,
                Err(fault) => r matches Err(e) && e@ == fault.message(),
            },
    {
        if self.cursor < self.tokens.len() {
            let token = &self.tokens[self.cursor];
            match token {
                Token::String(s) => Ok(SExpression::Str(s.clone())),
                Token::Symbol(s) => Ok(SExpression::Symbol(s.clone())),
                Token::Number(n) => Ok(SExpression::Number(n.clone())),
                _ => Err(ParsingError::malformed_atom(token)),
            }
        } else {
            Err(ParsingError::malformed_atom(&Token::End))
        }
    }

    /// Whether the token under the cursor closes a list: a closing
    /// parenthesis, the end marker, or no token at all.
    fn at_list_end(&self) -> (r: bool)
        ensures
            r == token_at(self.tokens.deep_view(), self.cursor as int).closes_list(),
    {
        if self.cursor < self.tokens.len() {
            match self.tokens[self.cursor] {
                Token::CloseParen | Token::End => true,
                _ => false,
            }
        } else {
            true
        }
    }

    /// Moves the cursor over the token under it, if there is one.
    fn step(&mut self)
        ensures
            final(self).tokens == old(self).tokens,
            final(self).cursor == step_over(old(self).tokens.deep_view(), old(self).cursor as int),
    {
        if self.cursor < self.tokens.len() {
            self.cursor += 1;
        }
    }
}

} // verus!
