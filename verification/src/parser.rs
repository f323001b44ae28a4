use crate::content::{inserted, items_view, members_view, well_formed, Content, Value};
use crate::error::{ParseError, ParseErrorView};
use crate::grammar::{
    document, done, element_head, elements, lemma_element_head_bounds, lemma_member_head_bounds,
    lemma_separator_bounds, member_head, members, preceded, separator, value_after,
};
use crate::token::{JsonToken, JsonTokenWrap};
use crate::tokenizer::Tokenizer;
use vstd::prelude::*;

verus! {

/// The number of levels of objects and arrays that a parser enters unless it
/// is made with another limit.
pub const DEFAULT_MAX_DEPTH: usize = 128;

/// The state of a parser: the document, the offset of the next character to
/// read, and the number of levels of objects and arrays that it may still
/// enter.
pub struct ParserView {
    pub source: Seq<char>,
    pub cursor: nat,
    pub room: nat,
}

impl ParserView {
    /// The same parser, `used` characters further on.
    pub open spec fn advanced(self, used: nat) -> ParserView {
        ParserView { cursor: self.cursor + used, ..self }
    }
}

/// What a builder that fills a container returned, as mathematical values.
pub open spec fn unit_result(r: Result<(), ParseError>) -> Result<(), ParseErrorView> {
    match r {
        Ok(()) => Ok(()),
        Err(e) => Err(e@),
    }
}

/// What a function that returns a tree returned, as mathematical values.
pub open spec fn content_result(r: Result<Content, ParseError>) -> Result<Value, ParseErrorView> {
    match r {
        Ok(content) => Ok(content@),
        Err(e) => Err(e@),
    }
}

/// What parsing `text` as a whole document gives: the tree, or the first
/// failure.
pub open spec fn parse_document(text: Seq<char>) -> Result<Value, ParseErrorView> {
    document(text, 0, DEFAULT_MAX_DEPTH as nat).outcome
}

/// The recursive-descent parser over a `Tokenizer`.
pub struct JsonParser {
    tokenizer: Tokenizer,
    room: usize,
}

impl View for JsonParser {
    type V = ParserView;

    closed spec fn view(&self) -> ParserView {
        ParserView {
            source: self.tokenizer.source(),
            cursor: self.tokenizer.cursor(),
            room: self.room as nat,
        }
    }
}

impl JsonParser {
    /// A parser over `tokenizer` that enters at most `max_depth` levels of
    /// objects and arrays.
    pub fn with_max_depth(tokenizer: Tokenizer, max_depth: usize) -> (r: JsonParser)
        ensures
            r@ == (ParserView {
                source: tokenizer.source(),
                cursor: tokenizer.cursor(),
                room: max_depth as nat,
            }),
    {
        JsonParser { tokenizer, room: max_depth }
    }

    /// A parser over `tokenizer` with the default limit on nesting.
    pub fn new(tokenizer: Tokenizer) -> (r: JsonParser)
        ensures
            r@ == (ParserView {
                source: tokenizer.source(),
                cursor: tokenizer.cursor(),
                room: DEFAULT_MAX_DEPTH as nat,
            }),
    {
        JsonParser::with_max_depth(tokenizer, DEFAULT_MAX_DEPTH)
    }

    /// A parser at the beginning of `json_str`, with the default limit on
    /// nesting.
    pub fn new2(json_str: &str) -> (r: JsonParser)
        ensures
            r@ == (ParserView {
                source: json_str@,
                cursor: 0,
                room: DEFAULT_MAX_DEPTH as nat,
            }),
    {
        JsonParser::new(Tokenizer::new(json_str.to_string()))
    }

    /// Parses `json_str` as a document with the default limit on nesting.
    pub fn content_from_str(json_str: &str) -> (r: Result<Content, ParseError>)
        ensures
            content_result(r) == parse_document(json_str@),
            r matches Ok(content) ==> well_formed(content),
    {
        let mut parser = JsonParser::new2(json_str);
        parser.parse()
    }

    /// Reads one document, an object or an array, from the cursor on. What
    /// follows the document is left unread.
    pub fn parse(&mut self) -> (r: Result<Content, ParseError>)
        ensures
            ({
                let step = document(old(self)@.source, old(self)@.cursor, old(self)@.room);
                &&& final(self)@ == old(self)@.advanced(step.used)
                &&& content_result(r) == step.outcome
            }),
            r matches Ok(content) ==> well_formed(content),
    {
        let first = match self.tokenizer.get_token() {
            Ok(token) => token,
            Err(e) => {
                return Err(e);
            },
        };
        match first.kind {
            JsonToken::OpenObject | JsonToken::OpenArray => self.value_from(first),
            _ => Err(ParseError::InvalidInput { message: "parse error".to_string(), pos: first.pos }),
        }
    }

    /// The value that begins with `token`, which has just been read.
    fn value_from(&mut self, token: JsonTokenWrap) -> (r: Result<Content, ParseError>)
        requires
            old(self)@.cursor <= old(self)@.source.len(),
        ensures
            ({
                let step = value_after(
                    old(self)@.source,
                    token@,
                    old(self)@.cursor,
                    old(self)@.room,
                );
                &&& final(self)@ == old(self)@.advanced(step.used)
                &&& content_result(r) == step.outcome
            }),
            r matches Ok(content) ==> well_formed(content),
        decreases old(self)@.source.len() - old(self)@.cursor, 1nat,
    {
        let at = token.pos;
        match token.kind {
            JsonToken::JsonString(text) => Ok(Content::StringLiteral(text)),
            JsonToken::Number(n) => Ok(Content::Number(n)),
            JsonToken::OpenObject => {
                if self.room == 0 {
                    return Err(
                        ParseError::InvalidInput {
                            message: "too deeply nested".to_string(),
                            pos: at,
                        },
                    );
                }
                let mut child = Content::object();
                self.room = self.room - 1;
                let r = self.parse_object(&mut child);
                self.room = self.room + 1;
                match r {
                    Ok(()) => Ok(child),
                    Err(e) => Err(e),
                }
            },
            JsonToken::OpenArray => {
                if self.room == 0 {
                    return Err(
                        ParseError::InvalidInput {
                            message: "too deeply nested".to_string(),
                            pos: at,
                        },
                    );
                }
                let mut child = Content::array();
                self.room = self.room - 1;
                let r = self.parse_array(&mut child);
                self.room = self.room + 1;
                match r {
                    Ok(()) => Ok(child),
                    Err(e) => Err(e),
                }
            },
            _ => Err(ParseError::InvalidInput { message: "unexpected token".to_string(), pos: at }),
        }
    }

    /// Reads the beginning of a member: the closing brace in its place, or a
    /// name, a colon and the first token of the value.
    fn member_head(&mut self) -> (r: Result<Option<(String, JsonTokenWrap)>, ParseError>)
        ensures
            ({
                let step = member_head(old(self)@.source, old(self)@.cursor);
                &&& final(self)@ == old(self)@.advanced(step.used)
                &&& final(self)@.cursor <= final(self)@.source.len()
                &&& match step.outcome {
                    Ok(Some((key, token))) => r matches Ok(Some((k, t))) && k@ == key && t@
                        == token,
                    Ok(None) => r matches Ok(None),
                    Err(e) => r matches Err(x) && x@ == e,
                }
            }),
    {
        let name = match self.tokenizer.get_token() {
            Ok(token) => token,
            Err(e) => {
                return Err(e);
            },
        };
        let name_at = name.pos;
        let key = match name.kind {
            JsonToken::CloseObject => {
                return Ok(None);
            },
            JsonToken::JsonString(text) => text,
            _ => {
                return Err(
                    ParseError::InvalidInput {
                        message: "must be string".to_string(),
                        pos: name_at,
                    },
                );
            },
        };
        let colon = match self.tokenizer.get_token() {
            Ok(token) => token,
            Err(e) => {
                return Err(e);
            },
        };
        match colon.kind {
            JsonToken::Colon => {},
            _ => {
                return Err(
                    ParseError::InvalidInput { message: "must be :".to_string(), pos: name_at },
                );
            },
        }
        match self.tokenizer.get_token() {
            Ok(first) => Ok(Some((key, first))),
            Err(e) => Err(e),
        }
    }

    /// Reads the beginning of an element: the closing bracket in its place,
    /// or the first token of the value.
    fn element_head(&mut self) -> (r: Result<Option<JsonTokenWrap>, ParseError>)
        ensures
            ({
                let step = element_head(old(self)@.source, old(self)@.cursor);
                &&& final(self)@ == old(self)@.advanced(step.used)
                &&& final(self)@.cursor <= final(self)@.source.len()
                &&& match step.outcome {
                    Ok(Some(token)) => r matches Ok(Some(t)) && t@ == token,
                    Ok(None) => r matches Ok(None),
                    Err(e) => r matches Err(x) && x@ == e,
                }
            }),
    {
        match self.tokenizer.get_token() {
            Ok(first) => match first.kind {
                JsonToken::CloseArray => Ok(None),
                _ => Ok(Some(first)),
            },
            Err(e) => Err(e),
        }
    }

    /// Reads what stands behind a value: a comma (`true`: more is to come)
    /// or the mark that closes the container (`false`).
    fn separator(&mut self, of_object: bool) -> (r: Result<bool, ParseError>)
        ensures
            ({
                let step = separator(old(self)@.source, old(self)@.cursor, of_object);
                &&& final(self)@ == old(self)@.advanced(step.used)
                &&& final(self)@.cursor <= final(self)@.source.len()
                &&& match step.outcome {
                    Ok(more) => r == Ok::<bool, ParseError>(more),
                    Err(e) => r matches Err(x) && x@ == e,
                }
            }),
    {
        let mark = match self.tokenizer.get_token() {
            Ok(token) => token,
            Err(e) => {
                return Err(e);
            },
        };
        match mark.kind {
            JsonToken::Comma => Ok(true),
            JsonToken::CloseObject if of_object => Ok(false),
            JsonToken::CloseArray if !of_object => Ok(false),
            _ => Err(
                ParseError::InvalidInput { message: "unexpected token".to_string(), pos: mark.pos },
            ),
        }
    }

    /// Reads the members of an object whose opening brace has just been
    /// read, up to and including its closing brace, and inserts them into
    /// `content` in the order in which they are written.
    ///
    /// Nothing is inserted unless the whole object was read. `content` must
    /// be an object: anything else is left as it is, nothing is read, and
    /// `TokenError` says so.
    pub fn parse_object(&mut self, content: &mut Content) -> (r: Result<(), ParseError>)
        ensures
            match old(content)@ {
                Value::Object(base) => {
                    let body = members(old(self)@.source, old(self)@.cursor, old(self)@.room);
                    &&& final(self)@ == old(self)@.advanced(body.used)
                    &&& match body.outcome {
                        Ok(list) => r is Ok && final(content)@ == Value::Object(
                            inserted(base, list),
                        ),
                        Err(e) => unit_result(r) == Err::<(), ParseErrorView>(e) && *final(content)
                            == *old(content),
                    }
                },
                _ => r == Err::<(), ParseError>(ParseError::TokenError) && *final(content) == *old(
                    content,
                ) && final(self)@ == old(self)@,
            },
            well_formed(*old(content)) ==> well_formed(*final(content)),
        decreases old(self)@.source.len() - old(self)@.cursor, 0nat,
    {
        match content {
            Content::Object(_) => {},
            _ => {
                return Err(ParseError::TokenError);
            },
        }
        let ghost src = self@.source;
        let ghost start = self@.cursor;
        let ghost room = self@.room;
        let mut parsed: Vec<(String, Content)> = Vec::new();
        let mut closed = false;
        proof {
            let body = members(src, start, room);
            assert(members_view(parsed@) =~= Seq::empty());
            assert(Seq::<(Seq<char>, Value)>::empty() + body.outcome->Ok_0 =~= body.outcome->Ok_0);
        }
        while !closed
            invariant
                *content == *old(content),
                old(content)@ is Object,
                start <= self@.cursor,
                self@ == old(self)@.advanced((self@.cursor - start) as nat),
                old(self)@.source == src,
                old(self)@.cursor == start,
                old(self)@.room == room,
                forall|i: int| 0 <= i < parsed@.len() ==> well_formed((#[trigger] parsed@[i]).1),
                !closed ==> members(src, start, room) == preceded(
                    members_view(parsed@),
                    (self@.cursor - start) as nat,
                    members(src, self@.cursor, room),
                ),
                closed ==> members(src, start, room) == done(
                    members_view(parsed@),
                    (self@.cursor - start) as nat,
                ),
                closed ==> self@.cursor <= src.len(),
            decreases src.len() - self@.cursor + (if closed { 0int } else { 1int }),
        {
            let ghost so_far = members_view(parsed@);
            proof {
                lemma_member_head_bounds(src, self@.cursor);
            }
            let (key, first) = match self.member_head() {
                Ok(Some(begun)) => begun,
                Ok(None) => {
                    closed = true;
                    assert(so_far + Seq::<(Seq<char>, Value)>::empty() =~= so_far);
                    continue ;
                },
                Err(e) => {
                    return Err(e);
                },
            };
            let value = match self.value_from(first) {
                Ok(value) => value,
                Err(e) => {
                    return Err(e);
                },
            };
            let ghost member = (key@, value@);
            proof {
                lemma_separator_bounds(src, self@.cursor, true);
            }
            let more = match self.separator(true) {
                Ok(more) => more,
                Err(e) => {
                    return Err(e);
                },
            };
            parsed.push((key, value));
            proof {
                assert(members_view(parsed@) =~= so_far.push(member));
                if more {
                    let rest = members(src, self@.cursor, room).outcome->Ok_0;
                    assert(so_far + (seq![member] + rest) =~= so_far.push(member) + rest);
                } else {
                    assert(so_far + seq![member] =~= so_far.push(member));
                }
            }
            closed = !more;
        }
        let ghost list = members_view(parsed@);
        let ghost base = old(content)@->Object_0;
        for member in it: parsed
            invariant
                it.seq() == parsed@,
                list == members_view(parsed@),
                content@ == Value::Object(inserted(base, list.take(it.index() as int))),
                well_formed(*old(content)) ==> well_formed(*content),
                forall|i: int| 0 <= i < parsed@.len() ==> well_formed((#[trigger] parsed@[i]).1),
        {
            let ghost k = it.index() as int;
            proof {
                assert(list.take(k + 1).drop_last() =~= list.take(k));
                assert(well_formed(parsed@[k].1));
            }
            let (key, value) = member;
            let _ = content.insert(key, value);
        }
        assert(list.take(list.len() as int) =~= list);
        Ok(())
    }

    /// Reads the elements of an array whose opening bracket has just been
    /// read, up to and including its closing bracket, and appends them to
    /// `content`.
    ///
    /// Nothing is appended unless the whole array was read. `content` must
    /// be an array: anything else is left as it is, nothing is read, and
    /// `TokenError` says so.
    pub fn parse_array(&mut self, content: &mut Content) -> (r: Result<(), ParseError>)
        ensures
            match old(content)@ {
                Value::Array(base) => {
                    let body = elements(old(self)@.source, old(self)@.cursor, old(self)@.room);
                    &&& final(self)@ == old(self)@.advanced(body.used)
                    &&& match body.outcome {
                        Ok(list) => r is Ok && final(content)@ == Value::Array(base + list),
                        Err(e) => unit_result(r) == Err::<(), ParseErrorView>(e) && *final(content)
                            == *old(content),
                    }
                },
                _ => r == Err::<(), ParseError>(ParseError::TokenError) && *final(content) == *old(
                    content,
                ) && final(self)@ == old(self)@,
            },
            well_formed(*old(content)) ==> well_formed(*final(content)),
        decreases old(self)@.source.len() - old(self)@.cursor, 0nat,
    {
        match content {
            Content::Array(_) => {},
            _ => {
                return Err(ParseError::TokenError);
            },
        }
        let ghost src = self@.source;
        let ghost start = self@.cursor;
        let ghost room = self@.room;
        let mut parsed: Vec<Content> = Vec::new();
        let mut closed = false;
        proof {
            let body = elements(src, start, room);
            assert(items_view(parsed@) =~= Seq::empty());
            assert(Seq::<Value>::empty() + body.outcome->Ok_0 =~= body.outcome->Ok_0);
        }
        while !closed
            invariant
                *content == *old(content),
                old(content)@ is Array,
                start <= self@.cursor,
                self@ == old(self)@.advanced((self@.cursor - start) as nat),
                old(self)@.source == src,
                old(self)@.cursor == start,
                old(self)@.room == room,
                forall|i: int| 0 <= i < parsed@.len() ==> well_formed(#[trigger] parsed@[i]),
                !closed ==> elements(src, start, room) == preceded(
                    items_view(parsed@),
                    (self@.cursor - start) as nat,
                    elements(src, self@.cursor, room),
                ),
                closed ==> elements(src, start, room) == done(
                    items_view(parsed@),
                    (self@.cursor - start) as nat,
                ),
                closed ==> self@.cursor <= src.len(),
            decreases src.len() - self@.cursor + (if closed { 0int } else { 1int }),
        {
            let ghost so_far = items_view(parsed@);
            proof {
                lemma_element_head_bounds(src, self@.cursor);
            }
            let first = match self.element_head() {
                Ok(Some(first)) => first,
                Ok(None) => {
                    closed = true;
                    assert(so_far + Seq::<Value>::empty() =~= so_far);
                    continue ;
                },
                Err(e) => {
                    return Err(e);
                },
            };
            let value = match self.value_from(first) {
                Ok(value) => value,
                Err(e) => {
                    return Err(e);
                },
            };
            let ghost item = value@;
            proof {
                lemma_separator_bounds(src, self@.cursor, false);
            }
            let more = match self.separator(false) {
                Ok(more) => more,
                Err(e) => {
                    return Err(e);
                },
            };
            parsed.push(value);
            proof {
                assert(items_view(parsed@) =~= so_far.push(item));
                if more {
                    let rest = elements(src, self@.cursor, room).outcome->Ok_0;
                    assert(so_far + (seq![item] + rest) =~= so_far.push(item) + rest);
                } else {
                    assert(so_far + seq![item] =~= so_far.push(item));
                }
            }
            closed = !more;
        }
        let ghost list = items_view(parsed@);
        let ghost base = old(content)@->Array_0;
        for item in it: parsed
            invariant
                it.seq() == parsed@,
                list == items_view(parsed@),
                content@ == Value::Array(base + list.take(it.index() as int)),
                well_formed(*old(content)) ==> well_formed(*content),
                forall|i: int| 0 <= i < parsed@.len() ==> well_formed(#[trigger] parsed@[i]),
        {
            let ghost k = it.index() as int;
            proof {
                assert((base + list.take(k)).push(list[k]) =~= base + list.take(k + 1));
                assert(well_formed(parsed@[k]));
            }
            let _ = content.push(item);
        }
        assert(list.take(list.len() as int) =~= list);
        Ok(())
    }
}

} // verus!
