use crate::content::{Content, Value};
use crate::error::{invalid, ParseError};
use crate::grammar::{
    document, element_head, elements, lemma_element_head_bounds, lemma_member_head_bounds,
    lemma_separator_bounds, member_head, members, separator, value_after,
};
use crate::lexing::{
    decimal_value, digit_run, is_digit, lemma_lex_bounds, lex, occurs, quoted, space_run,
    token_at, Lexed,
};
use crate::render::{escaped, lemma_lex_string};
use crate::parser::{content_result, parse_document};
use crate::token::TokenView;
use vstd::prelude::*;

verus! {

/// Parsing is a function of the text: whatever two runs on the same
/// document return, they return the same failure, or trees of the same
/// value.
pub proof fn lemma_parse_deterministic(
    text: Seq<char>,
    first: Result<Content, ParseError>,
    second: Result<Content, ParseError>,
)
    requires
        content_result(first) == parse_document(text),
        content_result(second) == parse_document(text),
    ensures
        content_result(first) == content_result(second),
        first matches Ok(a) ==> second matches Ok(b) && a@ == b@,
        first matches Err(a) ==> second matches Err(b) && a@ == b@,
{
}

/// Text without quotes and backslashes is written as it is.
proof fn lemma_escaped_plain(text: Seq<char>)
    requires
        forall|i: int| 0 <= i < text.len() ==> text[i] != '"' && text[i] != '\\',
    ensures
        escaped(text) == text,
    decreases text.len(),
{
    if text.len() > 0 {
        let tail = text.subrange(1, text.len() as int);
        lemma_escaped_plain(tail);
    }
}

/// A string literal that holds no backslash decodes to the very characters
/// between its quotes, whatever they are.
pub proof fn lemma_string_verbatim(src: Seq<char>, pos: nat, text: Seq<char>)
    requires
        occurs(src, pos, seq!['"'] + text + seq!['"']),
        forall|i: int| 0 <= i < text.len() ==> text[i] != '"' && text[i] != '\\',
    ensures
        lex(src, pos) == (Lexed {
            outcome: Ok((pos, TokenView::JsonString(text))),
            used: text.len() + 2,
        }),
{
    lemma_escaped_plain(text);
    lemma_lex_string(src, pos, text);
}

/// A run of digits that writes more than `i32` holds is no token: the
/// scanner fails at the first of them, behind all of them.
pub proof fn lemma_number_too_large(src: Seq<char>, pos: nat)
    requires
        pos < src.len(),
        is_digit(src[pos as int]),
        decimal_value(src.subrange(pos as int, (pos + digit_run(src, pos)) as int)) > i32::MAX,
    ensures
        lex(src, pos) == (Lexed {
            outcome: Err(invalid("string to num"@, pos)),
            used: digit_run(src, pos),
        }),
{
    reveal(token_at);
}

/// Reading a value, begun inside the document, ends inside it, and a
/// failure names an offset inside it or its end.
proof fn lemma_value_in_bounds(src: Seq<char>, token: (nat, TokenView), pos: nat, room: nat)
    requires
        pos <= src.len(),
        token.0 <= src.len(),
    ensures
        pos + value_after(src, token, pos, room).used <= src.len(),
        value_after(src, token, pos, room).outcome matches Err(e) ==> e is InvalidInput && e->pos
            <= src.len(),
    decreases src.len() - pos, 1nat,
{
    match token.1 {
        TokenView::OpenObject => {
            if room > 0 {
                lemma_members_in_bounds(src, pos, (room - 1) as nat);
            }
        },
        TokenView::OpenArray => {
            if room > 0 {
                lemma_elements_in_bounds(src, pos, (room - 1) as nat);
            }
        },
        _ => {},
    }
}

proof fn lemma_members_in_bounds(src: Seq<char>, pos: nat, room: nat)
    requires
        pos <= src.len(),
    ensures
        pos + members(src, pos, room).used <= src.len(),
        members(src, pos, room).outcome matches Err(e) ==> e is InvalidInput && e->pos <= src.len(),
    decreases src.len() - pos, 0nat,
{
    let head = member_head(src, pos);
    lemma_member_head_bounds(src, pos);
    if let Ok(Some((_, token))) = head.outcome {
        let value = value_after(src, token, pos + head.used, room);
        lemma_value_in_bounds(src, token, pos + head.used, room);
        let to_value = head.used + value.used;
        if value.outcome is Ok {
            let mark = separator(src, pos + to_value, true);
            lemma_separator_bounds(src, pos + to_value, true);
            if let Ok(true) = mark.outcome {
                lemma_members_in_bounds(src, pos + to_value + mark.used, room);
            }
        }
    }
}

proof fn lemma_elements_in_bounds(src: Seq<char>, pos: nat, room: nat)
    requires
        pos <= src.len(),
    ensures
        pos + elements(src, pos, room).used <= src.len(),
        elements(src, pos, room).outcome matches Err(e) ==> e is InvalidInput && e->pos
            <= src.len(),
    decreases src.len() - pos, 0nat,
{
    let head = element_head(src, pos);
    lemma_element_head_bounds(src, pos);
    if let Ok(Some(token)) = head.outcome {
        let value = value_after(src, token, pos + head.used, room);
        lemma_value_in_bounds(src, token, pos + head.used, room);
        let to_value = head.used + value.used;
        if value.outcome is Ok {
            let mark = separator(src, pos + to_value, false);
            lemma_separator_bounds(src, pos + to_value, false);
            if let Ok(true) = mark.outcome {
                lemma_elements_in_bounds(src, pos + to_value + mark.used, room);
            }
        }
    }
}

/// A parser never reads past the end of the document, and every failure of
/// `document` is an `InvalidInput` whose offset lies in the document or is
/// its end.
pub proof fn lemma_failure_in_bounds(src: Seq<char>, pos: nat, room: nat)
    requires
        pos <= src.len(),
    ensures
        pos + document(src, pos, room).used <= src.len(),
        document(src, pos, room).outcome matches Err(e) ==> e is InvalidInput && e->pos
            <= src.len(),
{
    let first = lex(src, pos);
    lemma_lex_bounds(src, pos);
    if let Ok(token) = first.outcome {
        lemma_value_in_bounds(src, token, pos + first.used, room);
    }
}

/// A string literal that ends has its closing quote as its last character.
proof fn lemma_quoted_is_closed(src: Seq<char>, pos: nat)
    ensures
        match quoted(src, pos) {
            Some((_, used)) => 1 <= used && pos + used <= src.len() && src[pos + used - 1]
                == '"',
            None => true,
        },
    decreases src.len() - pos,
{
    if pos < src.len() && src[pos as int] != '"' {
        if src[pos as int] == '\\' {
            if pos + 1 < src.len() {
                lemma_quoted_is_closed(src, pos + 2);
            }
        } else {
            lemma_quoted_is_closed(src, pos + 1);
        }
    }
}

/// A string token begins with a quote and ends with another: a literal
/// whose closing quote is missing is never a token.
pub proof fn lemma_accepted_string_is_closed(src: Seq<char>, pos: nat)
    ensures
        match lex(src, pos).outcome {
            Ok((at, TokenView::JsonString(_))) => {
                let end = pos + lex(src, pos).used;
                at + 2 <= end <= src.len() && src[at as int] == '"' && src[end - 1] == '"'
            },
            _ => true,
        },
{
    reveal(token_at);
    let at = pos + space_run(src, pos);
    lemma_quoted_is_closed(src, at + 1);
}

/// A closing brace or bracket that was read is the last character read.
proof fn lemma_closing_mark_is_last(src: Seq<char>, pos: nat)
    ensures
        match lex(src, pos).outcome {
            Ok((_, TokenView::CloseObject)) => src[pos + lex(src, pos).used - 1] == '}',
            Ok((_, TokenView::CloseArray)) => src[pos + lex(src, pos).used - 1] == ']',
            _ => true,
        },
{
    reveal(token_at);
}

proof fn lemma_value_is_closed(src: Seq<char>, token: (nat, TokenView), pos: nat, room: nat)
    requires
        pos <= src.len(),
    ensures
        match value_after(src, token, pos, room).outcome {
            Ok(Value::Object(_)) => {
                let end = pos + value_after(src, token, pos, room).used;
                pos < end <= src.len() && src[end - 1] == '}'
            },
            Ok(Value::Array(_)) => {
                let end = pos + value_after(src, token, pos, room).used;
                pos < end <= src.len() && src[end - 1] == ']'
            },
            _ => true,
        },
    decreases src.len() - pos, 1nat,
{
    match token.1 {
        TokenView::OpenObject => {
            if room > 0 {
                lemma_members_are_closed(src, pos, (room - 1) as nat);
            }
        },
        TokenView::OpenArray => {
            if room > 0 {
                lemma_elements_are_closed(src, pos, (room - 1) as nat);
            }
        },
        _ => {},
    }
}

proof fn lemma_members_are_closed(src: Seq<char>, pos: nat, room: nat)
    requires
        pos <= src.len(),
    ensures
        members(src, pos, room).outcome is Ok ==> {
            let end = pos + members(src, pos, room).used;
            pos < end <= src.len() && src[end - 1] == '}'
        },
    decreases src.len() - pos, 0nat,
{
    let head = member_head(src, pos);
    lemma_member_head_bounds(src, pos);
    lemma_closing_mark_is_last(src, pos);
    if let Ok(Some((_, token))) = head.outcome {
        let value = value_after(src, token, pos + head.used, room);
        let to_value = head.used + value.used;
        if value.outcome is Ok {
            let mark = separator(src, pos + to_value, true);
            lemma_separator_bounds(src, pos + to_value, true);
            lemma_closing_mark_is_last(src, pos + to_value);
            if let Ok(true) = mark.outcome {
                lemma_members_are_closed(src, pos + to_value + mark.used, room);
            }
        }
    }
}

proof fn lemma_elements_are_closed(src: Seq<char>, pos: nat, room: nat)
    requires
        pos <= src.len(),
    ensures
        elements(src, pos, room).outcome is Ok ==> {
            let end = pos + elements(src, pos, room).used;
            pos < end <= src.len() && src[end - 1] == ']'
        },
    decreases src.len() - pos, 0nat,
{
    let head = element_head(src, pos);
    lemma_element_head_bounds(src, pos);
    lemma_closing_mark_is_last(src, pos);
    if let Ok(Some(token)) = head.outcome {
        let value = value_after(src, token, pos + head.used, room);
        let to_value = head.used + value.used;
        if value.outcome is Ok {
            let mark = separator(src, pos + to_value, false);
            lemma_separator_bounds(src, pos + to_value, false);
            lemma_closing_mark_is_last(src, pos + to_value);
            if let Ok(true) = mark.outcome {
                lemma_elements_are_closed(src, pos + to_value + mark.used, room);
            }
        }
    }
}

/// Where a document is accepted, the last character read is the brace that
/// closes the object, or the bracket that closes the array: a document
/// whose closing mark is missing is rejected.
pub proof fn lemma_accepted_document_is_closed(src: Seq<char>, pos: nat, room: nat)
    requires
        pos <= src.len(),
    ensures
        match document(src, pos, room).outcome {
            Ok(value) => {
                let end = pos + document(src, pos, room).used;
                &&& pos + 2 <= end <= src.len()
                &&& value is Object || value is Array
                &&& value is Object ==> src[end - 1] == '}'
                &&& value is Array ==> src[end - 1] == ']'
            },
            Err(_) => true,
        },
{
    let first = lex(src, pos);
    lemma_lex_bounds(src, pos);
    if let Ok(token) = first.outcome {
        lemma_value_is_closed(src, token, pos + first.used, room);
    }
}

} // verus!
