//! The grammar of the language: which tree a token sequence stands for.
//!
//! ```text
//! expression := atom | "(" list-body ")"
//! list-body  := expression*
//! atom       := NUMBER | STRING | SYMBOL
//! ```
//!
//! A list also stops where the tokens run out: the end marker, or the end of
//! the sequence, closes every list that is still open.

use crate::error::Fault;
use crate::token::SpecToken;
use vstd::prelude::*;

verus! {

/// An S-expression, with texts as sequences of characters.
pub enum SpecExpression {
    /// A numeric literal, as written.
    Number(Seq<char>),
    /// A string literal, as written, the two quote characters included.
    Str(Seq<char>),
    /// A symbol.
    Symbol(Seq<char>),
    /// A list of expressions, possibly empty.
    List(Seq<SpecExpression>),
}

/// Where a parse stopped and what it found.
pub struct Outcome<T> {
    /// What was parsed, or why nothing was.
    pub result: Result<T, Fault>,
    /// The position behind what was parsed, or that of the token that
    /// cannot stand where it does.
    pub cursor: int,
}

/// The token at position `at`. Behind the last token, and in front of the
/// first, the end marker is read.
pub open spec fn token_at(tokens: Seq<SpecToken>, at: int) -> SpecToken {
    if 0 <= at < tokens.len() {
        tokens[at]
    } else {
        SpecToken::End
    }
}

/// The position behind the token at `at`; where there is no such token,
/// `at` itself.
pub open spec fn step_over(tokens: Seq<SpecToken>, at: int) -> int {
    if 0 <= at < tokens.len() {
        at + 1
    } else {
        at
    }
}

/// The atom that a token stands for. Only strings, symbols and numbers
/// stand for one.
pub open spec fn atom(token: SpecToken) -> Result<SpecExpression, Fault> {
    match token {
        SpecToken::String(text) => Ok(SpecExpression::Str(text)),
        SpecToken::Symbol(text) => Ok(SpecExpression::Symbol(text)),
        SpecToken::Number(text) => Ok(SpecExpression::Number(text)),
        other => Err(Fault::MalformedAtom(other)),
    }
}

/// `items` in front of what the rest of a list gives.
pub open spec fn items_then(items: Seq<SpecExpression>, rest: Outcome<Seq<SpecExpression>>) -> Outcome<
    Seq<SpecExpression>,
> {
    Outcome {
        result: match rest.result {
            Ok(more) => Ok(items + more),
            Err(fault) => Err(fault),
        },
        cursor: rest.cursor,
    }
}

/// The expression that starts at position `at`.
///
/// An opening parenthesis starts a list, which runs up to the token that
/// closes it; that token is stepped over. A closing parenthesis starts
/// nothing. Any other token must be an atom.
pub open spec fn expression_at(tokens: Seq<SpecToken>, at: int) -> Outcome<SpecExpression>
    decreases tokens.len() - at, 0int,
{
    match token_at(tokens, at) {
        SpecToken::OpenParen => {
            let body = items_at(tokens, at + 1);
            match body.result {
                Ok(items) => Outcome {
                    result: Ok(SpecExpression::List(items)),
                    cursor: step_over(tokens, body.cursor),
                },
                Err(fault) => Outcome { result: Err(fault), cursor: body.cursor },
            }
        },
        SpecToken::CloseParen => Outcome { result: Err(Fault::UnmatchedClose), cursor: at },
        token => match atom(token) {
            Ok(expression) => Outcome { result: Ok(expression), cursor: step_over(tokens, at) },
            Err(fault) => Outcome { result: Err(fault), cursor: at },
        },
    }
}

/// The expressions from position `at` up to the token that closes the list
/// they stand in. That token is not stepped over.
pub open spec fn items_at(tokens: Seq<SpecToken>, at: int) -> Outcome<Seq<SpecExpression>>
    decreases tokens.len() - at, 1int,
{
    if token_at(tokens, at).closes_list() {
        Outcome { result: Ok(Seq::empty()), cursor: at }
    } else {
        let first = expression_at(tokens, at);
        match first.result {
            Err(fault) => Outcome { result: Err(fault), cursor: first.cursor },
            Ok(expression) => if at < first.cursor <= tokens.len() {
                items_then(seq![expression], items_at(tokens, first.cursor))
            } else {
                // Not reached: an expression consumes a token, see
                // `lemma_cursor_moves_on`.
                Outcome { result: Ok(seq![expression]), cursor: first.cursor }
            },
        }
    }
}

/// The cursor never moves back and never leaves the tokens, and an
/// expression that is found has consumed at least one token.
pub proof fn lemma_cursor_moves_on(tokens: Seq<SpecToken>, at: int)
    requires
        0 <= at,
    ensures
        at <= expression_at(tokens, at).cursor,
        at <= tokens.len() ==> expression_at(tokens, at).cursor <= tokens.len(),
        expression_at(tokens, at).result is Ok ==> at < expression_at(tokens, at).cursor
            <= tokens.len(),
        at <= items_at(tokens, at).cursor,
        at <= tokens.len() ==> items_at(tokens, at).cursor <= tokens.len(),
{
    lemma_expression_cursor(tokens, at);
    lemma_items_cursor(tokens, at);
}

/// The part of `lemma_cursor_moves_on` that speaks of lists.
proof fn lemma_items_cursor(tokens: Seq<SpecToken>, at: int)
    requires
        0 <= at,
    ensures
        at <= items_at(tokens, at).cursor,
        at <= tokens.len() ==> items_at(tokens, at).cursor <= tokens.len(),
    decreases tokens.len() - at, 1int,
{
    if !token_at(tokens, at).closes_list() {
        lemma_expression_cursor(tokens, at);
        let first = expression_at(tokens, at);
        if first.result is Ok {
            lemma_items_cursor(tokens, first.cursor);
        }
    }
}

/// The part of `lemma_cursor_moves_on` that speaks of single expressions.
proof fn lemma_expression_cursor(tokens: Seq<SpecToken>, at: int)
    requires
        0 <= at,
    ensures
        at <= expression_at(tokens, at).cursor,
        at <= tokens.len() ==> expression_at(tokens, at).cursor <= tokens.len(),
        expression_at(tokens, at).result is Ok ==> at < expression_at(tokens, at).cursor
            <= tokens.len(),
    decreases tokens.len() - at, 0int,
{
    if token_at(tokens, at) is OpenParen {
        lemma_items_cursor(tokens, at + 1);
    }
}

/// The tree that a token sequence stands for: the expression at its start.
/// What follows that expression is not looked at.
pub open spec fn tree_of(tokens: Seq<SpecToken>) -> Result<SpecExpression, Fault> {
    expression_at(tokens, 0).result
}

/// The tokens that write an expression: the token of an atom; for a list,
/// the tokens of its items between two parentheses.
pub open spec fn flat(tree: SpecExpression) -> Seq<SpecToken>
    decreases tree,
{
    match tree {
        SpecExpression::Number(text) => seq![SpecToken::Number(text)],
        SpecExpression::Str(text) => seq![SpecToken::String(text)],
        SpecExpression::Symbol(text) => seq![SpecToken::Symbol(text)],
        SpecExpression::List(items) => seq![SpecToken::OpenParen] + flat_all(items)
            + seq![SpecToken::CloseParen],
    }
}

/// The tokens that write the expressions of `items`, one after the other.
pub open spec fn flat_all(items: Seq<SpecExpression>) -> Seq<SpecToken>
    decreases items,
{
    if items.len() == 0 {
        Seq::empty()
    } else {
        flat(items[0]) + flat_all(items.drop_first())
    }
}

/// Parsing undoes writing: where the tokens that write `tree` stand in a
/// token sequence, whatever stands before and after them, the parser finds
/// `tree` there and stops behind it.
pub proof fn lemma_reads_back(
    tree: SpecExpression,
    before: Seq<SpecToken>,
    after: Seq<SpecToken>,
)
    ensures
        expression_at(before + flat(tree) + after, before.len() as int) == (Outcome {
            result: Ok(tree),
            cursor: (before.len() + flat(tree).len()) as int,
        }),
    decreases tree,
{
    let tokens = before + flat(tree) + after;
    let at = before.len() as int;
    assert(tokens[at] == flat(tree)[0]);
    match tree {
        SpecExpression::List(items) => {
            let inner = before + seq![SpecToken::OpenParen];
            let outer = seq![SpecToken::CloseParen] + after;
            assert(tokens =~= inner + flat_all(items) + outer);
            lemma_reads_back_all(items, inner, outer);
            assert(tokens[at + 1 + flat_all(items).len()] == SpecToken::CloseParen);
        },
        _ => {},
    }
}

/// The part of `lemma_reads_back` that speaks of the items of a list: the
/// parser finds them all where a token that closes the list follows them.
pub proof fn lemma_reads_back_all(
    items: Seq<SpecExpression>,
    before: Seq<SpecToken>,
    after: Seq<SpecToken>,
)
    requires
        token_at(after, 0).closes_list(),
    ensures
        items_at(before + flat_all(items) + after, before.len() as int) == (Outcome {
            result: Ok(items),
            cursor: (before.len() + flat_all(items).len()) as int,
        }),
    decreases items,
{
    let tokens = before + flat_all(items) + after;
    let at = before.len() as int;
    if items.len() == 0 {
        assert(token_at(tokens, at) == token_at(after, 0));
        assert(items =~= Seq::empty());
    } else {
        let first = items[0];
        let rest = items.drop_first();
        assert(tokens =~= before + flat(first) + (flat_all(rest) + after));
        lemma_reads_back(first, before, flat_all(rest) + after);
        assert(flat(first).len() > 0 && !flat(first)[0].closes_list());
        assert(tokens[at] == flat(first)[0]);
        assert(tokens =~= (before + flat(first)) + flat_all(rest) + after);
        lemma_reads_back_all(rest, before + flat(first), after);
        assert(seq![first] + rest =~= items);
        assert(expression_at(tokens, at).cursor <= tokens.len());
    }
}

/// Parsing the tokens that write a tree gives the tree, whatever follows
/// them.
pub proof fn lemma_tree_of_flat(tree: SpecExpression, after: Seq<SpecToken>)
    ensures
        tree_of(flat(tree) + after) == Ok::<SpecExpression, Fault>(tree),
{
    lemma_reads_back(tree, Seq::empty(), after);
    assert(Seq::<SpecToken>::empty() + flat(tree) + after =~= flat(tree) + after);
}

} // verus!
