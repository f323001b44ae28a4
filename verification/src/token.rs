use vstd::prelude::*;

verus! {

/// A lexical unit as a mathematical value.
pub enum TokenView {
    OpenObject,
    CloseObject,
    OpenArray,
    CloseArray,
    Number(int),
    JsonString(Seq<char>),
    Colon,
    Comma,
}

/// The closed set of lexical units.
#[derive(Debug)]
pub enum JsonToken {
    OpenObject,
    CloseObject,
    OpenArray,
    CloseArray,
    Number(i32),
    JsonString(String),
    Colon,
    Comma,
}

impl View for JsonToken {
    type V = TokenView;

    open spec fn view(&self) -> TokenView {
        match self {
            JsonToken::OpenObject => TokenView::OpenObject,
            JsonToken::CloseObject => TokenView::CloseObject,
            JsonToken::OpenArray => TokenView::OpenArray,
            JsonToken::CloseArray => TokenView::CloseArray,
            JsonToken::Number(n) => TokenView::Number(*n as int),
            JsonToken::JsonString(text) => TokenView::JsonString(text@),
            JsonToken::Colon => TokenView::Colon,
            JsonToken::Comma => TokenView::Comma,
        }
    }
}

/// A token together with the offset of its first character.
#[derive(Debug)]
pub struct JsonTokenWrap {
    pub pos: usize,
    pub kind: JsonToken,
}

impl View for JsonTokenWrap {
    type V = (nat, TokenView);

    open spec fn view(&self) -> (nat, TokenView) {
        (self.pos as nat, self.kind@)
    }
}

} // verus!
