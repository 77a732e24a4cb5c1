//! Writing and reading back: a text that is written from a tree scans and
//! parses to that tree.
//!
//! The library has no printer. What is stated here is what scanner and
//! parser owe to any printer: to one that writes the tokens of a tree in
//! order and puts white space between them wherever two of them would
//! otherwise run together (`laid_out`), and in particular to the compact one
//! that puts a single space between the items of a list (`printed`).

use crate::error::Fault;
use crate::lexical::{
    emitted, lemma_round_advances, number_end, round, tokens_from, tokens_of, well_formed, Round,
};
use crate::syntax::{flat, flat_all, lemma_tree_of_flat, tree_of, SpecExpression};
use crate::text::{
    char_at, ends_symbol, is_blank, is_digit, lemma_run_end, lemma_run_end_is, run_end, Run,
};
use crate::token::SpecToken;
use vstd::prelude::*;

verus! {

/// The text of a token. The end marker has none.
pub open spec fn lexeme(token: SpecToken) -> Seq<char> {
    match token {
        SpecToken::OpenParen => seq!['('],
        SpecToken::CloseParen => seq![')'],
        SpecToken::Quote => seq!['\''],
        SpecToken::Comma => seq![','],
        SpecToken::Symbol(text) => text,
        SpecToken::String(text) => text,
        SpecToken::Number(text) => text,
        SpecToken::End => Seq::empty(),
    }
}

/// Whether every token can have come from the scanner and none is the end
/// marker.
pub open spec fn writable(tokens: Seq<SpecToken>) -> bool {
    forall|i: int|
        0 <= i < tokens.len() ==> well_formed(#[trigger] tokens[i]) && !(tokens[i] is End)
}

/// Whether the text of `token` stops where `after` begins: a symbol needs a
/// character that ends it, a number one that is neither a digit nor a
/// point, and both may stand at the very end. The other tokens stop by
/// themselves.
pub open spec fn halts(token: SpecToken, after: Seq<char>) -> bool {
    match token {
        SpecToken::Symbol(_) => after.len() == 0 || ends_symbol(after[0]),
        SpecToken::Number(_) => after.len() == 0 || (!is_digit(after[0]) && after[0] != '.'),
        _ => true,
    }
}

/// Whether `gap` is white space: blanks and line feeds only.
pub open spec fn is_gap(gap: Seq<char>) -> bool {
    forall|i: int| 0 <= i < gap.len() ==> is_blank(#[trigger] gap[i]) || gap[i] == '\n'
}

/// The tokens written out in order, `gaps[i]` behind the `i`-th of them.
pub open spec fn laid_out(tokens: Seq<SpecToken>, gaps: Seq<Seq<char>>) -> Seq<char>
    decreases tokens.len(),
{
    if tokens.len() == 0 || gaps.len() == 0 {
        Seq::empty()
    } else {
        lexeme(tokens[0]) + gaps[0] + laid_out(tokens.drop_first(), gaps.drop_first())
    }
}

/// Whether `gaps` keeps the tokens apart: there is one gap for each token,
/// each is white space, and each token stops where what follows it begins.
pub open spec fn keeps_apart(tokens: Seq<SpecToken>, gaps: Seq<Seq<char>>) -> bool
    decreases tokens.len(),
{
    &&& tokens.len() == gaps.len()
    &&& tokens.len() > 0 ==> {
        &&& is_gap(gaps[0])
        &&& halts(tokens[0], gaps[0] + laid_out(tokens.drop_first(), gaps.drop_first()))
        &&& keeps_apart(tokens.drop_first(), gaps.drop_first())
    }
}

/// A tree written out compactly: an atom as its text, a list as its items
/// between two parentheses.
pub open spec fn printed(tree: SpecExpression) -> Seq<char>
    decreases tree,
{
    match tree {
        SpecExpression::Number(text) => text,
        SpecExpression::Str(text) => text,
        SpecExpression::Symbol(text) => text,
        SpecExpression::List(items) => seq!['('] + printed_all(items) + seq![')'],
    }
}

/// The expressions of `items` written out compactly, with one space between
/// each two of them.
pub open spec fn printed_all(items: Seq<SpecExpression>) -> Seq<char>
    decreases items,
{
    if items.len() == 0 {
        Seq::empty()
    } else if items.len() == 1 {
        printed(items[0])
    } else {
        printed(items[0]) + seq![' '] + printed_all(items.drop_first())
    }
}

/// Where a run stops does not depend on what stands before it.
pub proof fn lemma_run_end_shift(run: Run, before: Seq<char>, text: Seq<char>, from: int)
    requires
        0 <= from <= text.len(),
    ensures
        run_end(run, before + text, before.len() + from) == before.len() + run_end(
            run,
            text,
            from,
        ),
    decreases text.len() - from,
{
    if from < text.len() {
        assert((before + text)[before.len() + from] == text[from]);
        if run.takes(text[from]) {
            lemma_run_end_shift(run, before, text, from + 1);
        }
    }
}

/// A round that succeeds does not depend on what stands before it.
pub proof fn lemma_round_shift(before: Seq<char>, text: Seq<char>, at: int)
    requires
        round(text, at) is Ok,
    ensures
        round(before + text, before.len() + at) == Ok::<Round, Fault>(
            Round {
                emit: round(text, at)->Ok_0.emit,
                next: before.len() + round(text, at)->Ok_0.next,
            },
        ),
{
    let whole = before + text;
    let shift = before.len() as int;
    let r = round(text, at)->Ok_0;
    lemma_round_advances(text, at);
    assert(whole[shift + at] == text[at]);
    assert(whole.subrange(shift + at, shift + r.next) =~= text.subrange(at, r.next));
    lemma_run_end_shift(Run::Quoted, before, text, at + 1);
    lemma_run_end_shift(Run::Comment, before, text, at + 1);
    lemma_run_end_shift(Run::Symbol, before, text, at + 1);
    lemma_run_end_shift(Run::Digits, before, text, at + 1);
    let digits = run_end(Run::Digits, text, at + 1);
    lemma_run_end(Run::Digits, text, at + 1);
    assert(char_at(whole, shift + digits) == char_at(text, digits));
    assert(char_at(whole, shift + digits + 1) == char_at(text, digits + 1));
    if digits + 1 <= text.len() {
        lemma_run_end_shift(Run::Digits, before, text, digits + 1);
    }
}

/// A scan that succeeds does not depend on what stands before the place
/// where it starts.
pub proof fn lemma_tokens_shift(before: Seq<char>, text: Seq<char>, at: int)
    requires
        0 <= at,
        tokens_from(text, at) is Ok,
    ensures
        tokens_from(before + text, before.len() + at) == tokens_from(text, at),
    decreases text.len() - at,
{
    if at < text.len() {
        lemma_round_advances(text, at);
        lemma_round_shift(before, text, at);
        lemma_tokens_shift(before, text, round(text, at)->Ok_0.next);
    }
}

/// A well-formed token is read back in one round, which stops behind its
/// text, wherever the token stops where the rest of the text begins.
pub proof fn lemma_token_read_back(token: SpecToken, after: Seq<char>)
    requires
        well_formed(token),
        !(token is End),
        halts(token, after),
    ensures
        lexeme(token).len() > 0,
        round(lexeme(token) + after, 0) == Ok::<Round, Fault>(
            Round { emit: Some(token), next: lexeme(token).len() as int },
        ),
{
    let word = lexeme(token);
    let text = word + after;
    let end = word.len() as int;
    assert(text.subrange(0, end) =~= word);
    assert forall|i: int| 0 <= i < end implies text[i] == word[i] by {}
    if after.len() > 0 {
        assert(text[end] == after[0]);
    }
    match token {
        SpecToken::Symbol(_) => {
            assert(text[0] == word[0]);
            assert forall|i: int| 1 <= i < end implies Run::Symbol.takes(#[trigger] text[i]) by {
                assert(text[i] == word[i]);
            }
            lemma_run_end_is(Run::Symbol, text, 1, end);
        },
        SpecToken::String(_) => {
            assert(text[0] == word[0]);
            assert(text[end - 1] == word.last());
            assert forall|i: int| 1 <= i < end - 1 implies Run::Quoted.takes(
                #[trigger] text[i],
            ) by {
                assert(text[i] == word[i]);
            }
            lemma_run_end_is(Run::Quoted, text, 1, end - 1);
        },
        SpecToken::Number(_) => {
            let digits = run_end(Run::Digits, word, 0);
            lemma_run_end(Run::Digits, word, 0);
            assert(text[0] == word[0]);
            assert forall|i: int| 1 <= i < digits implies Run::Digits.takes(
                #[trigger] text[i],
            ) by {
                assert(text[i] == word[i]);
            }
            if digits < end {
                assert(text[digits] == word[digits]);
                assert(text[digits + 1] == word[digits + 1]);
                lemma_run_end(Run::Digits, word, digits + 1);
                assert forall|i: int| digits + 1 <= i < end implies Run::Digits.takes(
                    #[trigger] text[i],
                ) by {
                    assert(text[i] == word[i]);
                }
                lemma_run_end_is(Run::Digits, text, digits + 1, end);
            }
            lemma_run_end_is(Run::Digits, text, 1, digits);
            assert(number_end(text, 0) == end);
        },
        _ => {},
    }
}

/// A token in front of a text that scans is scanned first, and the text
/// behind it as it is on its own.
pub proof fn lemma_token_then(token: SpecToken, after: Seq<char>)
    requires
        well_formed(token),
        !(token is End),
        halts(token, after),
        tokens_from(after, 0) is Ok,
    ensures
        tokens_from(lexeme(token) + after, 0) == Ok::<Seq<SpecToken>, Fault>(
            seq![token] + tokens_from(after, 0)->Ok_0,
        ),
{
    let word = lexeme(token);
    lemma_token_read_back(token, after);
    lemma_tokens_shift(word, after, 0);
    assert(emitted(Round { emit: Some(token), next: word.len() as int }) == seq![token]);
}

/// A character that yields no token in front of a text that scans changes
/// nothing.
pub proof fn lemma_white_then(c: char, after: Seq<char>)
    requires
        is_blank(c) || c == '\n',
        tokens_from(after, 0) is Ok,
    ensures
        tokens_from(seq![c] + after, 0) == tokens_from(after, 0),
{
    let text = seq![c] + after;
    assert(text[0] == c);
    assert(round(text, 0) == Ok::<Round, Fault>(Round { emit: None, next: 1 }));
    lemma_tokens_shift(seq![c], after, 0);
    assert(emitted(Round { emit: None, next: 1 }) + tokens_from(after, 0)->Ok_0
        =~= tokens_from(after, 0)->Ok_0);
}

/// White space in front of a text that scans changes nothing.
pub proof fn lemma_gap_then(gap: Seq<char>, after: Seq<char>)
    requires
        is_gap(gap),
        tokens_from(after, 0) is Ok,
    ensures
        tokens_from(gap + after, 0) == tokens_from(after, 0),
    decreases gap.len(),
{
    if gap.len() == 0 {
        assert(gap + after =~= after);
    } else {
        let shorter = gap.drop_first();
        assert forall|i: int| 0 <= i < shorter.len() implies is_blank(#[trigger] shorter[i])
            || shorter[i] == '\n' by {
            assert(shorter[i] == gap[i + 1]);
        }
        lemma_gap_then(shorter, after);
        assert(is_blank(gap[0]) || gap[0] == '\n');
        lemma_white_then(gap[0], shorter + after);
        assert(gap + after =~= seq![gap[0]] + (shorter + after));
    }
}

/// Scanning undoes laying out: tokens that are written out in order, with
/// white space that keeps them apart, scan to themselves and the end
/// marker, whatever white space stands in front of them.
pub proof fn lemma_laid_out_scans(lead: Seq<char>, tokens: Seq<SpecToken>, gaps: Seq<Seq<char>>)
    requires
        is_gap(lead),
        writable(tokens),
        keeps_apart(tokens, gaps),
    ensures
        tokens_of(lead + laid_out(tokens, gaps)) == Ok::<Seq<SpecToken>, Fault>(
            tokens + seq![SpecToken::End],
        ),
    decreases tokens.len(),
{
    let text = laid_out(tokens, gaps);
    if tokens.len() == 0 {
        assert(tokens + seq![SpecToken::End] =~= seq![SpecToken::End]);
    } else {
        let first = tokens[0];
        let rest = tokens.drop_first();
        let tail = laid_out(rest, gaps.drop_first());
        assert(well_formed(first) && !(first is End));
        assert forall|i: int| 0 <= i < rest.len() implies well_formed(#[trigger] rest[i]) && !(
        rest[i] is End) by {
            assert(rest[i] == tokens[i + 1]);
        }
        lemma_laid_out_scans(gaps[0], rest, gaps.drop_first());
        lemma_token_then(first, gaps[0] + tail);
        assert(text =~= lexeme(first) + (gaps[0] + tail));
        assert(seq![first] + (rest + seq![SpecToken::End]) =~= tokens + seq![SpecToken::End]);
    }
    lemma_gap_then(lead, text);
}

/// Reading undoes laying out: a tree whose atoms the scanner can have read,
/// written out token by token with white space that keeps the tokens apart,
/// scans without fault and parses to itself.
pub proof fn lemma_laid_out_reads_back(
    tree: SpecExpression,
    lead: Seq<char>,
    gaps: Seq<Seq<char>>,
)
    requires
        writable(flat(tree)),
        is_gap(lead),
        keeps_apart(flat(tree), gaps),
    ensures
        tokens_of(lead + laid_out(flat(tree), gaps)) matches Ok(tokens) && tree_of(tokens) == Ok::<
            SpecExpression,
            Fault,
        >(tree),
{
    lemma_laid_out_scans(lead, flat(tree), gaps);
    lemma_tree_of_flat(tree, seq![SpecToken::End]);
}

/// The two parts of a token sequence that can be written can be written.
pub proof fn lemma_writable_parts(left: Seq<SpecToken>, right: Seq<SpecToken>)
    requires
        writable(left + right),
    ensures
        writable(left),
        writable(right),
{
    let whole = left + right;
    assert forall|i: int| 0 <= i < left.len() implies well_formed(#[trigger] left[i]) && !(
    left[i] is End) by {
        assert(left[i] == whole[i]);
    }
    assert forall|i: int| 0 <= i < right.len() implies well_formed(#[trigger] right[i]) && !(
    right[i] is End) by {
        assert(right[i] == whole[left.len() + i]);
    }
}

/// A tree printed compactly in front of a text that scans, where that text
/// is empty or begins with a space or a closing parenthesis, scans to the
/// tokens of the tree and then those of the text.
pub proof fn lemma_printed_then(tree: SpecExpression, after: Seq<char>)
    requires
        writable(flat(tree)),
        after.len() == 0 || after[0] == ' ' || after[0] == ')',
        tokens_from(after, 0) is Ok,
    ensures
        tokens_from(printed(tree) + after, 0) == Ok::<Seq<SpecToken>, Fault>(
            flat(tree) + tokens_from(after, 0)->Ok_0,
        ),
    decreases tree,
{
    let behind = tokens_from(after, 0)->Ok_0;
    match tree {
        SpecExpression::List(items) => {
            let open = SpecToken::OpenParen;
            let close = SpecToken::CloseParen;
            lemma_writable_parts(seq![open] + flat_all(items), seq![close]);
            lemma_writable_parts(seq![open], flat_all(items));
            // The closing parenthesis and what follows it.
            let closing = seq![')'] + after;
            lemma_token_then(close, after);
            assert(lexeme(close) + after =~= closing);
            // The items, then the closing parenthesis.
            lemma_printed_all_then(items, closing);
            // The opening parenthesis, then the items.
            let inner = printed_all(items) + closing;
            lemma_token_then(open, inner);
            assert(lexeme(open) + inner =~= printed(tree) + after);
            assert(seq![open] + (flat_all(items) + (seq![close] + behind)) =~= flat(tree)
                + behind);
        },
        _ => {
            let token = flat(tree)[0];
            assert(well_formed(token) && !(token is End));
            lemma_token_then(token, after);
            assert(flat(tree) =~= seq![token]);
        },
    }
}

/// The part of `lemma_printed_then` that speaks of the items of a list,
/// which a closing parenthesis follows.
pub proof fn lemma_printed_all_then(items: Seq<SpecExpression>, after: Seq<char>)
    requires
        writable(flat_all(items)),
        after.len() > 0 && after[0] == ')',
        tokens_from(after, 0) is Ok,
    ensures
        tokens_from(printed_all(items) + after, 0) == Ok::<Seq<SpecToken>, Fault>(
            flat_all(items) + tokens_from(after, 0)->Ok_0,
        ),
    decreases items,
{
    let behind = tokens_from(after, 0)->Ok_0;
    if items.len() == 0 {
        assert(printed_all(items) + after =~= after);
        assert(flat_all(items) + behind =~= behind);
    } else {
        let first = items[0];
        let rest = items.drop_first();
        lemma_writable_parts(flat(first), flat_all(rest));
        if items.len() == 1 {
            assert(rest.len() == 0);
            assert(flat_all(items) =~= flat(first));
            lemma_printed_then(first, after);
        } else {
            lemma_printed_all_then(rest, after);
            let more = printed_all(rest) + after;
            lemma_white_then(' ', more);
            let spaced = seq![' '] + more;
            assert(spaced[0] == ' ');
            lemma_printed_then(first, spaced);
            assert(printed_all(items) + after =~= printed(first) + spaced);
            assert(flat(first) + (flat_all(rest) + behind) =~= flat_all(items) + behind);
        }
    }
}

/// Reading undoes printing: a tree whose atoms the scanner can have read,
/// printed compactly, scans without fault and parses to itself.
pub proof fn lemma_printed_reads_back(tree: SpecExpression)
    requires
        writable(flat(tree)),
    ensures
        tokens_of(printed(tree)) matches Ok(tokens) && tree_of(tokens) == Ok::<
            SpecExpression,
            Fault,
        >(tree),
{
    let nothing = Seq::<char>::empty();
    lemma_printed_then(tree, nothing);
    assert(printed(tree) + nothing =~= printed(tree));
    lemma_tree_of_flat(tree, seq![SpecToken::End]);
}

} // verus!
