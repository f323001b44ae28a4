use crate::error::{ParseError, ParseErrorView};
use crate::lexing::{decimal_value, digit_run, lex, quoted, space_run, token_at};
use crate::token::{JsonToken, JsonTokenWrap, TokenView};
use vstd::prelude::*;

verus! {

/// What `get_token` returned, as mathematical values.
pub open spec fn token_result(r: Result<JsonTokenWrap, ParseError>) -> Result<
    (nat, TokenView),
    ParseErrorView,
> {
    match r {
        Ok(token) => Ok(token@),
        Err(e) => Err(e@),
    }
}

/// `rest`, the outcome of scanning onward, seen from a point `seen`
/// characters earlier, at which `text` had still to be read.
pub open spec fn continued(text: Seq<char>, seen: nat, rest: Option<(Seq<char>, nat)>) -> Option<
    (Seq<char>, nat),
> {
    match rest {
        Some((tail, used)) => Some((text + tail, seen + used)),
        None => None,
    }
}

/// The scanner: the document as characters, and a cursor into it.
pub struct Tokenizer {
    source: Vec<char>,
    pos: usize,
}

impl Tokenizer {
    #[verifier::type_invariant]
    spec fn cursor_in_bounds(self) -> bool {
        self.pos <= self.source@.len()
    }

    /// The document.
    pub closed spec fn source(&self) -> Seq<char> {
        self.source@
    }

    /// The offset of the next character to read.
    pub closed spec fn cursor(&self) -> nat {
        self.pos as nat
    }

    /// A scanner at the beginning of `source`.
    pub fn new(source: String) -> (r: Tokenizer)
        ensures
            r.source() == source@,
            r.cursor() == 0,
    {
        let mut chars: Vec<char> = Vec::new();
        let text = source.as_str();
        for c in it: text.chars()
            invariant
                chars@ == it.seq().take(it.index() as int),
        {
            chars.push(c);
        }
        Tokenizer { source: chars, pos: 0 }
    }

    /// Reads the next token, skipping the spaces before it.
    ///
    /// The cursor moves over the spaces and the token. On a failure it rests
    /// where the scan stopped: on the offending character, behind a run of
    /// digits too large for `i32`, or at the end of the document.
    pub fn get_token(&mut self) -> (r: Result<JsonTokenWrap, ParseError>)
        ensures
            final(self).source() == old(self).source(),
            token_result(r) == lex(old(self).source(), old(self).cursor()).outcome,
            final(self).cursor() == old(self).cursor() + lex(
                old(self).source(),
                old(self).cursor(),
            ).used,
            final(self).cursor() <= final(self).source().len(),
    {
        proof {
            use_type_invariant(&*self);
            reveal(token_at);
        }
        let len = self.source.len();
        let ghost src = self.source@;
        let ghost from = self.pos as nat;
        let mut start = self.pos;
        while start < len && self.source[start] == ' '
            invariant
                len == src.len(),
                src == self.source@,
                from <= start <= len,
                space_run(src, from) == (start - from) + space_run(src, start as nat),
            decreases len - start,
        {
            start = start + 1;
        }
        if start >= len {
            self.pos = start;
            return Err(ParseError::InvalidInput { message: "EOF".to_string(), pos: start });
        }
        let c = self.source[start];
        if c >= '0' && c <= '9' {
            let (end, value) = self.number_at(start);
            self.pos = end;
            match value {
                Some(n) => Ok(JsonTokenWrap { pos: start, kind: JsonToken::Number(n) }),
                None => Err(
                    ParseError::InvalidInput { message: "string to num".to_string(), pos: start },
                ),
            }
        } else if c == '{' {
            self.pos = start + 1;
            Ok(JsonTokenWrap { pos: start, kind: JsonToken::OpenObject })
        } else if c == '}' {
            self.pos = start + 1;
            Ok(JsonTokenWrap { pos: start, kind: JsonToken::CloseObject })
        } else if c == '[' {
            self.pos = start + 1;
            Ok(JsonTokenWrap { pos: start, kind: JsonToken::OpenArray })
        } else if c == ']' {
            self.pos = start + 1;
            Ok(JsonTokenWrap { pos: start, kind: JsonToken::CloseArray })
        } else if c == ':' {
            self.pos = start + 1;
            Ok(JsonTokenWrap { pos: start, kind: JsonToken::Colon })
        } else if c == ',' {
            self.pos = start + 1;
            Ok(JsonTokenWrap { pos: start, kind: JsonToken::Comma })
        } else if c == '"' {
            match self.string_after(start + 1) {
                Some((text, end)) => {
                    self.pos = end;
                    Ok(JsonTokenWrap { pos: start, kind: JsonToken::JsonString(text) })
                },
                None => {
                    self.pos = len;
                    Err(
                        ParseError::InvalidInput {
                            message: "unterminated string".to_string(),
                            pos: start,
                        },
                    )
                },
            }
        } else {
            self.pos = start;
            Err(ParseError::InvalidInput { message: "failed to parse".to_string(), pos: start })
        }
    }

    /// Scans the run of digits at `start`: where it ends, and its value
    /// where that fits `i32`.
    fn number_at(&self, start: usize) -> (r: (usize, Option<i32>))
        requires
            start < self.source@.len(),
        ensures
            r.0 == start + digit_run(self.source@, start as nat),
            r.0 <= self.source@.len(),
            ({
                let value = decimal_value(self.source@.subrange(start as int, r.0 as int));
                match r.1 {
                    Some(n) => n == value,
                    None => value > i32::MAX,
                }
            }),
    {
        let len = self.source.len();
        let ghost src = self.source@;
        let mut end = start;
        let mut value: i32 = 0;
        let mut overflow = false;
        while end < len && self.source[end] >= '0' && self.source[end] <= '9'
            invariant
                len == src.len(),
                src == self.source@,
                start <= end <= len,
                digit_run(src, start as nat) == (end - start) + digit_run(src, end as nat),
                overflow <==> decimal_value(src.subrange(start as int, end as int)) > i32::MAX,
                !overflow ==> value == decimal_value(src.subrange(start as int, end as int)),
                0 <= value,
            decreases len - end,
        {
            let c = self.source[end];
            let digit: u32 = c as u32 - '0' as u32;
            proof {
                let upto = src.subrange(start as int, end + 1);
                assert(upto.drop_last() =~= src.subrange(start as int, end as int));
            }
            if !overflow {
                let wide: i64 = value as i64 * 10 + digit as i64;
                if wide > i32::MAX as i64 {
                    overflow = true;
                } else {
                    value = wide as i32;
                }
            }
            end = end + 1;
        }
        if overflow {
            (end, None)
        } else {
            (end, Some(value))
        }
    }

    /// Scans a string literal from `from`, the offset behind its opening
    /// quote: the decoded text and the offset behind the closing quote.
    fn string_after(&self, from: usize) -> (r: Option<(String, usize)>)
        requires
            from <= self.source@.len(),
        ensures
            match r {
                Some((text, end)) => quoted(self.source@, from as nat) == Some(
                    (text@, (end - from) as nat),
                ) && from < end <= self.source@.len(),
                None => quoted(self.source@, from as nat) is None,
            },
    {
        let len = self.source.len();
        let ghost src = self.source@;
        let mut text = String::new();
        let mut i = from;
        loop
            invariant
                len == src.len(),
                src == self.source@,
                from <= i <= len,
                quoted(src, from as nat) == continued(
                    text@,
                    (i - from) as nat,
                    quoted(src, i as nat),
                ),
            decreases len - i,
        {
            if i >= len {
                return None;
            }
            let c = self.source[i];
            if c == '"' {
                return Some((text, i + 1));
            } else if c == '\\' {
                if i + 1 >= len {
                    return None;
                }
                let escaped = self.source[i + 1];
                text.push(escaped);
                i = i + 2;
            } else {
                text.push(c);
                i = i + 1;
            }
        }
    }
}

} // verus!
