use crate::lexing::decimal_digits;
use crate::text::push_decimal;
use vstd::prelude::*;
use vstd::string::StringExecFns;

verus! {

/// What a `ParseError` says, with the message as a sequence of characters.
pub enum ParseErrorView {
    InvalidInput { message: Seq<char>, pos: nat },
    TokenError,
}

impl ParseErrorView {
    /// The failure in words: the message and the offset for `InvalidInput`.
    pub open spec fn description(self) -> Seq<char> {
        match self {
            ParseErrorView::InvalidInput { message, pos } => message + ", pos: "@ + decimal_digits(
                pos,
            ),
            ParseErrorView::TokenError => "token error"@,
        }
    }
}

/// Why a document, or a single token, was rejected.
///
/// `InvalidInput` names the zero-based character offset the failure is tied
/// to. `TokenError` is for the one failure that no offset belongs to: a
/// container of the wrong variant handed to a builder.
#[derive(Debug)]
pub enum ParseError {
    InvalidInput { message: String, pos: usize },
    TokenError,
}

impl View for ParseError {
    type V = ParseErrorView;

    open spec fn view(&self) -> ParseErrorView {
        match self {
            ParseError::InvalidInput { message, pos } => ParseErrorView::InvalidInput {
                message: message@,
                pos: *pos as nat,
            },
            ParseError::TokenError => ParseErrorView::TokenError,
        }
    }
}

impl ParseError {
    /// The failure in words, for a reader.
    pub fn to_string(&self) -> (r: String)
        ensures
            r@ == self@.description(),
    {
        match self {
            ParseError::InvalidInput { message, pos } => {
                let mut out = message.clone();
                out.append(", pos: ");
                push_decimal(&mut out, *pos);
                out
            },
            ParseError::TokenError => "token error".to_string(),
        }
    }
}

/// The failure with the given message at the given offset.
pub open spec fn invalid(message: Seq<char>, pos: nat) -> ParseErrorView {
    ParseErrorView::InvalidInput { message, pos }
}

} // verus!
