use crate::error::{invalid, ParseErrorView};
use crate::token::TokenView;
use vstd::prelude::*;

verus! {

/// Whether `c` is one of the decimal digits `0` to `9`.
pub open spec fn is_digit(c: char) -> bool {
    '0' <= c && c <= '9'
}

/// The number that the digit `c` writes.
pub open spec fn digit_value(c: char) -> nat {
    (c as int - '0' as int) as nat
}

/// The character that writes the digit `d`.
pub open spec fn digit_char(d: nat) -> char {
    ('0' as int + d) as char
}

/// The decimal digits that write `n`, without leading zeros.
pub open spec fn decimal_digits(n: nat) -> Seq<char>
    decreases n,
{
    if n < 10 {
        seq![digit_char(n)]
    } else {
        decimal_digits(n / 10).push(digit_char(n % 10))
    }
}

/// How many space characters stand in a row at `pos`.
pub open spec fn space_run(src: Seq<char>, pos: nat) -> nat
    decreases src.len() - pos,
{
    if pos < src.len() && src[pos as int] == ' ' {
        1 + space_run(src, pos + 1)
    } else {
        0
    }
}

/// How many decimal digits stand in a row at `pos`.
pub open spec fn digit_run(src: Seq<char>, pos: nat) -> nat
    decreases src.len() - pos,
{
    if pos < src.len() && is_digit(src[pos as int]) {
        1 + digit_run(src, pos + 1)
    } else {
        0
    }
}

/// The number that a sequence of decimal digits writes.
pub open spec fn decimal_value(digits: Seq<char>) -> nat
    decreases digits.len(),
{
    if digits.len() == 0 {
        0
    } else {
        decimal_value(digits.drop_last()) * 10 + digit_value(digits.last())
    }
}

/// The rest of a string literal whose opening quote stands just before
/// `pos`: the decoded text, and the number of characters up to and including
/// the closing quote. A backslash makes the character after it part of the
/// text as it is. `None` where the input ends before a closing quote.
pub open spec fn quoted(src: Seq<char>, pos: nat) -> Option<(Seq<char>, nat)>
    decreases src.len() - pos,
{
    if pos >= src.len() {
        None
    } else if src[pos as int] == '"' {
        Some((Seq::empty(), 1))
    } else if src[pos as int] == '\\' {
        if pos + 1 >= src.len() {
            None
        } else {
            match quoted(src, pos + 2) {
                Some((rest, used)) => Some((seq![src[(pos + 1) as int]] + rest, used + 2)),
                None => None,
            }
        }
    } else {
        match quoted(src, pos + 1) {
            Some((rest, used)) => Some((seq![src[pos as int]] + rest, used + 1)),
            None => None,
        }
    }
}

/// One step of the scanner: what it found, and how many characters it
/// moved over.
pub struct Lexed {
    pub outcome: Result<(nat, TokenView), ParseErrorView>,
    pub used: nat,
}

/// The token that begins at `start`, where `start` holds no space: a run of
/// digits, a string literal, or one of the six marks. A run of digits whose
/// value is beyond `i32`, a string literal without its closing quote, any
/// other character and the end of the document are failures.
///
/// Proofs see this definition only where they ask for it by `reveal`.
#[verifier::opaque]
pub open spec fn token_at(src: Seq<char>, start: nat) -> Lexed {
    if start >= src.len() {
        Lexed { outcome: Err(invalid("EOF"@, start)), used: 0 }
    } else {
        let c = src[start as int];
        if is_digit(c) {
            let len = digit_run(src, start);
            let value = decimal_value(src.subrange(start as int, (start + len) as int));
            if value <= i32::MAX {
                Lexed { outcome: Ok((start, TokenView::Number(value as int))), used: len }
            } else {
                Lexed { outcome: Err(invalid("string to num"@, start)), used: len }
            }
        } else if c == '{' {
            Lexed { outcome: Ok((start, TokenView::OpenObject)), used: 1 }
        } else if c == '}' {
            Lexed { outcome: Ok((start, TokenView::CloseObject)), used: 1 }
        } else if c == '[' {
            Lexed { outcome: Ok((start, TokenView::OpenArray)), used: 1 }
        } else if c == ']' {
            Lexed { outcome: Ok((start, TokenView::CloseArray)), used: 1 }
        } else if c == ':' {
            Lexed { outcome: Ok((start, TokenView::Colon)), used: 1 }
        } else if c == ',' {
            Lexed { outcome: Ok((start, TokenView::Comma)), used: 1 }
        } else if c == '"' {
            match quoted(src, start + 1) {
                Some((text, used)) => Lexed {
                    outcome: Ok((start, TokenView::JsonString(text))),
                    used: used + 1,
                },
                None => Lexed {
                    outcome: Err(invalid("unterminated string"@, start)),
                    used: (src.len() - start) as nat,
                },
            }
        } else {
            Lexed { outcome: Err(invalid("failed to parse"@, start)), used: 0 }
        }
    }
}

/// The next token at or after `pos`, spaces skipped, and how far the scanner
/// moves: over the spaces and the token, or on a failure to where the scan
/// stopped.
pub open spec fn lex(src: Seq<char>, pos: nat) -> Lexed {
    let spaces = space_run(src, pos);
    let found = token_at(src, pos + spaces);
    Lexed { outcome: found.outcome, used: spaces + found.used }
}

/// `text` stands in `src` at `pos`.
pub open spec fn occurs(src: Seq<char>, pos: nat, text: Seq<char>) -> bool {
    pos + text.len() <= src.len() && src.subrange(pos as int, (pos + text.len()) as int) == text
}

/// No digit stands in `src` at `pos`.
pub open spec fn no_digit_at(src: Seq<char>, pos: nat) -> bool {
    pos >= src.len() || !is_digit(src[pos as int])
}

/// Where two texts stand one behind the other, each of them stands.
pub proof fn lemma_occurs_split(src: Seq<char>, pos: nat, a: Seq<char>, b: Seq<char>)
    requires
        occurs(src, pos, a + b),
    ensures
        occurs(src, pos, a),
        occurs(src, pos + a.len(), b),
{
    let whole = src.subrange(pos as int, (pos + (a + b).len()) as int);
    assert(src.subrange(pos as int, (pos + a.len()) as int) =~= whole.subrange(
        0,
        a.len() as int,
    ));
    assert((a + b).subrange(0, a.len() as int) =~= a);
    assert(src.subrange((pos + a.len()) as int, (pos + a.len() + b.len()) as int)
        =~= whole.subrange(
        a.len() as int,
        (a + b).len() as int,
    ));
    assert((a + b).subrange(a.len() as int, (a + b).len() as int) =~= b);
}

/// A text that stands in `src` gives it its characters.
pub proof fn lemma_occurs_at(src: Seq<char>, pos: nat, text: Seq<char>, i: int)
    requires
        occurs(src, pos, text),
        0 <= i < text.len(),
    ensures
        src[pos + i] == text[i],
{
}

/// What `decimal_digits` writes is one digit or more, and reads back as the
/// number written.
pub proof fn lemma_decimal_digits(n: nat)
    ensures
        decimal_digits(n).len() >= 1,
        forall|i: int| 0 <= i < decimal_digits(n).len() ==> is_digit(#[trigger] decimal_digits(n)[i]),
        decimal_value(decimal_digits(n)) == n,
    decreases n,
{
    if n < 10 {
        let one = seq![digit_char(n)];
        assert(decimal_value(one.drop_last()) == 0);
    } else {
        lemma_decimal_digits(n / 10);
        let front = decimal_digits(n / 10);
        assert(front.push(digit_char(n % 10)).drop_last() =~= front);
    }
}

/// A run of spaces ends inside the document.
pub proof fn lemma_space_run_bound(src: Seq<char>, pos: nat)
    ensures
        pos <= src.len() ==> pos + space_run(src, pos) <= src.len(),
        pos >= src.len() ==> space_run(src, pos) == 0,
    decreases src.len() - pos,
{
    if pos < src.len() && src[pos as int] == ' ' {
        lemma_space_run_bound(src, pos + 1);
    }
}

/// A run of digits ends inside the document.
pub proof fn lemma_digit_run_bound(src: Seq<char>, pos: nat)
    ensures
        pos <= src.len() ==> pos + digit_run(src, pos) <= src.len(),
        pos >= src.len() ==> digit_run(src, pos) == 0,
    decreases src.len() - pos,
{
    if pos < src.len() && is_digit(src[pos as int]) {
        lemma_digit_run_bound(src, pos + 1);
    }
}

/// A string literal that ends does so inside the document.
pub proof fn lemma_quoted_bound(src: Seq<char>, pos: nat)
    ensures
        match quoted(src, pos) {
            Some((_, used)) => 1 <= used && pos + used <= src.len(),
            None => true,
        },
    decreases src.len() - pos,
{
    if pos < src.len() && src[pos as int] != '"' {
        if src[pos as int] == '\\' {
            if pos + 1 < src.len() {
                lemma_quoted_bound(src, pos + 2);
            }
        } else {
            lemma_quoted_bound(src, pos + 1);
        }
    }
}

/// A step of the scanner never leaves the document; a token takes at least
/// one character and begins where the spaces end; a failure names an offset
/// at or after the one the step began at.
pub proof fn lemma_lex_bounds(src: Seq<char>, pos: nat)
    ensures
        pos <= src.len() ==> pos + lex(src, pos).used <= src.len(),
        match lex(src, pos).outcome {
            Ok((at, _)) => at == pos + space_run(src, pos) && at < pos + lex(src, pos).used
                && pos + lex(src, pos).used <= src.len(),
            Err(e) => e == invalid(e->message, pos + space_run(src, pos)) && (pos <= src.len()
                ==> e->pos <= src.len()),
        },
{
    reveal(token_at);
    lemma_space_run_bound(src, pos);
    let start = pos + space_run(src, pos);
    lemma_digit_run_bound(src, start);
    lemma_quoted_bound(src, start + 1);
}

} // verus!
