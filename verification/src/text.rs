//! Characters of the language: the classes the scanner tells apart, the runs
//! of characters it consumes at once, line counting, and the decimal text of
//! a line number.

use vstd::prelude::*;

verus! {

/// The ASCII decimal digits.
pub open spec fn is_digit(c: char) -> bool {
    '0' <= c && c <= '9'
}

/// Space, tab and carriage return: skipped between tokens without any
/// bookkeeping. The line feed is not among them, since it is counted.
pub open spec fn is_blank(c: char) -> bool {
    c == ' ' || c == '\t' || c == '\r'
}

/// The characters at which a symbol stops.
pub open spec fn ends_symbol(c: char) -> bool {
    c == ' ' || c == '(' || c == ')' || c == '\n'
}

/// The character at position `at`, or NUL where the text has none.
pub open spec fn char_at(text: Seq<char>, at: int) -> char {
    if 0 <= at < text.len() {
        text[at]
    } else {
        '\0'
    }
}

/// A maximal stretch of characters that the scanner consumes in one go.
#[derive(Clone, Copy, Debug, PartialEq, Eq)]
pub enum Run {
    /// The tail of a symbol: everything up to a space, a parenthesis or a
    /// line feed.
    Symbol,
    /// Decimal digits.
    Digits,
    /// The inside of a string literal: everything up to the next `"`.
    Quoted,
    /// A comment: everything up to the next line feed.
    Comment,
}

impl Run {
    /// Whether a run of this kind goes on over `c`.
    pub open spec fn takes(self, c: char) -> bool {
        match self {
            Run::Symbol => !ends_symbol(c),
            Run::Digits => is_digit(c),
            Run::Quoted => c != '"',
            Run::Comment => c != '\n',
        }
    }

    /// Whether a run of this kind goes on over `c`.
    pub fn accepts(self, c: char) -> (r: bool)
        ensures
            r == self.takes(c),
    {
        match self {
            Run::Symbol => !(c == ' ' || c == '(' || c == ')' || c == '\n'),
            Run::Digits => '0' <= c && c <= '9',
            Run::Quoted => c != '"',
            Run::Comment => c != '\n',
        }
    }
}

/// Where a run that starts at `from` stops: the first position at or after
/// `from` whose character the run does not take, or the end of the text.
pub open spec fn run_end(run: Run, text: Seq<char>, from: int) -> int
    decreases text.len() - from,
{
    if 0 <= from < text.len() && run.takes(text[from]) {
        run_end(run, text, from + 1)
    } else {
        from
    }
}

/// A run stops inside the text or at its end, on a character it does not
/// take, and takes every character before that.
pub proof fn lemma_run_end(run: Run, text: Seq<char>, from: int)
    requires
        0 <= from <= text.len(),
    ensures
        from <= run_end(run, text, from) <= text.len(),
        run_end(run, text, from) < text.len() ==> !run.takes(text[run_end(run, text, from)]),
        forall|i: int| from <= i < run_end(run, text, from) ==> run.takes(#[trigger] text[i]),
    decreases text.len() - from,
{
    if from < text.len() && run.takes(text[from]) {
        lemma_run_end(run, text, from + 1);
    }
}

/// The stopping place of a run is the only position with the properties that
/// `lemma_run_end` lists.
pub proof fn lemma_run_end_is(run: Run, text: Seq<char>, from: int, end: int)
    requires
        0 <= from <= end <= text.len(),
        forall|i: int| from <= i < end ==> run.takes(#[trigger] text[i]),
        end < text.len() ==> !run.takes(text[end]),
    ensures
        run_end(run, text, from) == end,
    decreases end - from,
{
    if from < end {
        assert(run.takes(text[from]));
        lemma_run_end_is(run, text, from + 1, end);
    }
}

/// The number of line feeds among the first `upto` characters.
pub open spec fn line_breaks(text: Seq<char>, upto: int) -> nat
    decreases upto,
{
    if upto <= 0 || upto > text.len() {
        0
    } else {
        line_breaks(text, upto - 1) + if text[upto - 1] == '\n' {
            1nat
        } else {
            0nat
        }
    }
}

/// The one-based number of the line that position `at` lies on.
pub open spec fn line_at(text: Seq<char>, at: int) -> nat {
    line_breaks(text, at) + 1
}

/// There are no more line feeds than characters.
pub proof fn lemma_line_breaks_bound(text: Seq<char>, upto: int)
    requires
        0 <= upto <= text.len(),
    ensures
        line_breaks(text, upto) <= upto,
    decreases upto,
{
    if upto > 0 {
        lemma_line_breaks_bound(text, upto - 1);
    }
}

/// The character that writes the digit `d`.
pub open spec fn digit_char(d: nat) -> char {
    if d == 0 {
        '0'
    } else if d == 1 {
        '1'
    } else if d == 2 {
        '2'
    } else if d == 3 {
        '3'
    } else if d == 4 {
        '4'
    } else if d == 5 {
        '5'
    } else if d == 6 {
        '6'
    } else if d == 7 {
        '7'
    } else if d == 8 {
        '8'
    } else {
        '9'
    }
}

/// The decimal numeral of `n`, without sign or leading zeros.
pub open spec fn decimal(n: nat) -> Seq<char>
    decreases n,
{
    if n < 10 {
        seq![digit_char(n)]
    } else {
        decimal(n / 10).push(digit_char(n % 10))
    }
}

/// The one-character text of a single digit.
fn digit_text(d: usize) -> (text: &'static str)
    requires
        d < 10,
    ensures
        text@ == seq![digit_char(d as nat)],
{
    proof {
        reveal_strlit("0");
        reveal_strlit("1");
        reveal_strlit("2");
        reveal_strlit("3");
        reveal_strlit("4");
        reveal_strlit("5");
        reveal_strlit("6");
        reveal_strlit("7");
        reveal_strlit("8");
        reveal_strlit("9");
    }
    let text = if d == 0 {
        "0"
    } else if d == 1 {
        "1"
    } else if d == 2 {
        "2"
    } else if d == 3 {
        "3"
    } else if d == 4 {
        "4"
    } else if d == 5 {
        "5"
    } else if d == 6 {
        "6"
    } else if d == 7 {
        "7"
    } else if d == 8 {
        "8"
    } else {
        "9"
    };
    assert(text@ =~= seq![digit_char(d as nat)]);
    text
}

/// Writes `n` in decimal.
pub fn decimal_string(n: usize) -> (text: String)
    ensures
        text@ == decimal(n as nat),
    decreases n,
{
    if n < 10 {
        String::from_str(digit_text(n))
    } else {
        let mut text = decimal_string(n / 10);
        text.append(digit_text(n % 10));
        assert(text@ =~= decimal(n as nat));
        text
    }
}

} // verus!
