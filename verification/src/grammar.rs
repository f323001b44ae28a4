use crate::content::{inserted, Value};
use crate::error::{invalid, ParseErrorView};
use crate::lexing::{lemma_lex_bounds, lex};
use crate::token::TokenView;
use vstd::prelude::*;

verus! {

/// What reading one construct gave, and how many characters it moved over,
/// whether it succeeded or not.
pub struct Parsed<T> {
    pub outcome: Result<T, ParseErrorView>,
    pub used: nat,
}

impl<T> Parsed<T> {
    /// The same step, begun `before` characters earlier.
    pub open spec fn after(self, before: nat) -> Parsed<T> {
        Parsed { outcome: self.outcome, used: before + self.used }
    }
}

/// A failed step.
pub open spec fn failed<T>(error: ParseErrorView, used: nat) -> Parsed<T> {
    Parsed { outcome: Err(error), used }
}

/// A step that gave `value`.
pub open spec fn done<T>(value: T, used: nat) -> Parsed<T> {
    Parsed { outcome: Ok(value), used }
}

/// `items`, followed by what `rest` gave: a list of which `items` have been
/// read, seen from `before` characters before the rest of it.
pub open spec fn preceded<T>(items: Seq<T>, before: nat, rest: Parsed<Seq<T>>) -> Parsed<Seq<T>> {
    Parsed {
        outcome: match rest.outcome {
            Ok(more) => Ok(items + more),
            Err(e) => Err(e),
        },
        used: before + rest.used,
    }
}

/// The beginning of a member of an object, read from `pos` on: the closing
/// brace in its place (`None`), or a name, a colon and the first token of
/// the value, of which the name and that token are given.
pub open spec fn member_head(src: Seq<char>, pos: nat) -> Parsed<
    Option<(Seq<char>, (nat, TokenView))>,
> {
    let name = lex(src, pos);
    match name.outcome {
        Err(e) => failed(e, name.used),
        Ok((_, TokenView::CloseObject)) => done(None, name.used),
        Ok((name_at, TokenView::JsonString(key))) => {
            let colon = lex(src, pos + name.used);
            let to_colon = name.used + colon.used;
            match colon.outcome {
                Err(e) => failed(e, to_colon),
                Ok((_, TokenView::Colon)) => {
                    let first = lex(src, pos + to_colon);
                    match first.outcome {
                        Err(e) => failed(e, to_colon + first.used),
                        Ok(token) => done(Some((key, token)), to_colon + first.used),
                    }
                },
                Ok(_) => failed(invalid("must be :"@, name_at), to_colon),
            }
        },
        Ok((at, _)) => failed(invalid("must be string"@, at), name.used),
    }
}

/// The beginning of an element of an array, read from `pos` on: the closing
/// bracket in its place (`None`), or the first token of the value.
pub open spec fn element_head(src: Seq<char>, pos: nat) -> Parsed<Option<(nat, TokenView)>> {
    let first = lex(src, pos);
    match first.outcome {
        Err(e) => failed(e, first.used),
        Ok((_, TokenView::CloseArray)) => done(None, first.used),
        Ok(token) => done(Some(token), first.used),
    }
}

/// The mark that closes an object, or else an array.
pub open spec fn closing_mark(of_object: bool) -> TokenView {
    if of_object {
        TokenView::CloseObject
    } else {
        TokenView::CloseArray
    }
}

/// What stands behind a value in a container, read from `pos` on: a comma,
/// after which more is to come (`true`), or the mark that closes the
/// container (`false`). Any other token is a failure at its offset.
pub open spec fn separator(src: Seq<char>, pos: nat, of_object: bool) -> Parsed<bool> {
    let mark = lex(src, pos);
    match mark.outcome {
        Err(e) => failed(e, mark.used),
        Ok((at, token)) => if token == TokenView::Comma {
            done(true, mark.used)
        } else if token == closing_mark(of_object) {
            done(false, mark.used)
        } else {
            failed(invalid("unexpected token"@, at), mark.used)
        },
    }
}

/// The value whose first token, `token`, ends just before `pos`. A string
/// or a number is a value by itself. An opening brace or bracket begins a
/// container, which is read as long as `room`, the number of levels that may
/// still be entered, is not used up. No other token begins a value.
pub open spec fn value_after(src: Seq<char>, token: (nat, TokenView), pos: nat, room: nat) -> Parsed<
    Value,
>
    decreases src.len() - pos, 1nat,
{
    match token.1 {
        TokenView::JsonString(text) => done(Value::Text(text), 0),
        TokenView::Number(n) => done(Value::Number(n), 0),
        TokenView::OpenObject => if room == 0 {
            failed(invalid("too deeply nested"@, token.0), 0)
        } else {
            let body = members(src, pos, (room - 1) as nat);
            Parsed {
                outcome: match body.outcome {
                    Ok(list) => Ok(Value::Object(inserted(Map::empty(), list))),
                    Err(e) => Err(e),
                },
                used: body.used,
            }
        },
        TokenView::OpenArray => if room == 0 {
            failed(invalid("too deeply nested"@, token.0), 0)
        } else {
            let body = elements(src, pos, (room - 1) as nat);
            Parsed {
                outcome: match body.outcome {
                    Ok(list) => Ok(Value::Array(list)),
                    Err(e) => Err(e),
                },
                used: body.used,
            }
        },
        _ => failed(invalid("unexpected token"@, token.0), 0),
    }
}

/// The members of an object whose opening brace ends just before `pos`, in
/// the order in which they are written: a closing brace, or a name, a colon
/// and a value, followed by a closing brace or by a comma and more of the
/// same.
pub open spec fn members(src: Seq<char>, pos: nat, room: nat) -> Parsed<Seq<(Seq<char>, Value)>>
    decreases src.len() - pos, 0nat,
{
    let head = member_head(src, pos);
    match head.outcome {
        Err(e) => failed(e, head.used),
        Ok(None) => done(Seq::empty(), head.used),
        Ok(Some((key, token))) => {
            proof {
                lemma_member_head_bounds(src, pos);
            }
            let value = value_after(src, token, pos + head.used, room);
            let to_value = head.used + value.used;
            match value.outcome {
                Err(e) => failed(e, to_value),
                Ok(v) => {
                    let mark = separator(src, pos + to_value, true);
                    let to_mark = to_value + mark.used;
                    match mark.outcome {
                        Err(e) => failed(e, to_mark),
                        Ok(false) => done(seq![(key, v)], to_mark),
                        Ok(true) => {
                            proof {
                                lemma_separator_bounds(src, pos + to_value, true);
                            }
                            preceded(seq![(key, v)], to_mark, members(src, pos + to_mark, room))
                        },
                    }
                },
            }
        },
    }
}

/// The elements of an array whose opening bracket ends just before `pos`: a
/// closing bracket, or a value, followed by a closing bracket or by a comma
/// and more of the same.
pub open spec fn elements(src: Seq<char>, pos: nat, room: nat) -> Parsed<Seq<Value>>
    decreases src.len() - pos, 0nat,
{
    let head = element_head(src, pos);
    match head.outcome {
        Err(e) => failed(e, head.used),
        Ok(None) => done(Seq::empty(), head.used),
        Ok(Some(token)) => {
            proof {
                lemma_element_head_bounds(src, pos);
            }
            let value = value_after(src, token, pos + head.used, room);
            let to_value = head.used + value.used;
            match value.outcome {
                Err(e) => failed(e, to_value),
                Ok(v) => {
                    let mark = separator(src, pos + to_value, false);
                    let to_mark = to_value + mark.used;
                    match mark.outcome {
                        Err(e) => failed(e, to_mark),
                        Ok(false) => done(seq![v], to_mark),
                        Ok(true) => {
                            proof {
                                lemma_separator_bounds(src, pos + to_value, false);
                            }
                            preceded(seq![v], to_mark, elements(src, pos + to_mark, room))
                        },
                    }
                },
            }
        },
    }
}

/// The document that begins at `pos`: an object or an array. What follows
/// its closing brace or bracket is not looked at.
pub open spec fn document(src: Seq<char>, pos: nat, room: nat) -> Parsed<Value> {
    let first = lex(src, pos);
    match first.outcome {
        Err(e) => failed(e, first.used),
        Ok((at, TokenView::OpenObject)) => value_after(
            src,
            (at, TokenView::OpenObject),
            pos + first.used,
            room,
        ).after(first.used),
        Ok((at, TokenView::OpenArray)) => value_after(
            src,
            (at, TokenView::OpenArray),
            pos + first.used,
            room,
        ).after(first.used),
        Ok((at, _)) => failed(invalid("parse error"@, at), first.used),
    }
}

/// The beginning of a member lies inside the document; where a value
/// follows, its first token does too, and at least three were read.
pub proof fn lemma_member_head_bounds(src: Seq<char>, pos: nat)
    ensures
        pos <= src.len() ==> pos + member_head(src, pos).used <= src.len(),
        match member_head(src, pos).outcome {
            Ok(Some((_, token))) => pos + 2 <= token.0 < pos + member_head(src, pos).used
                <= src.len(),
            Ok(None) => 1 <= member_head(src, pos).used && pos + member_head(src, pos).used
                <= src.len(),
            Err(e) => e is InvalidInput && pos <= e->pos && (pos <= src.len() ==> e->pos
                <= src.len()),
        },
{
    let name = lex(src, pos);
    lemma_lex_bounds(src, pos);
    lemma_lex_bounds(src, pos + name.used);
    lemma_lex_bounds(src, pos + name.used + lex(src, pos + name.used).used);
}

/// The beginning of an element lies inside the document.
pub proof fn lemma_element_head_bounds(src: Seq<char>, pos: nat)
    ensures
        pos <= src.len() ==> pos + element_head(src, pos).used <= src.len(),
        match element_head(src, pos).outcome {
            Ok(Some(token)) => pos <= token.0 < pos + element_head(src, pos).used <= src.len(),
            Ok(None) => 1 <= element_head(src, pos).used && pos + element_head(src, pos).used
                <= src.len(),
            Err(e) => e is InvalidInput && pos <= e->pos && (pos <= src.len() ==> e->pos
                <= src.len()),
        },
{
    lemma_lex_bounds(src, pos);
}

/// A separator lies inside the document.
pub proof fn lemma_separator_bounds(src: Seq<char>, pos: nat, of_object: bool)
    ensures
        pos <= src.len() ==> pos + separator(src, pos, of_object).used <= src.len(),
        match separator(src, pos, of_object).outcome {
            Ok(_) => 1 <= separator(src, pos, of_object).used && pos + separator(
                src,
                pos,
                of_object,
            ).used <= src.len(),
            Err(e) => e is InvalidInput && pos <= e->pos && (pos <= src.len() ==> e->pos
                <= src.len()),
        },
{
    lemma_lex_bounds(src, pos);
}

} // verus!
