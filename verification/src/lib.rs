//! A parser for a small language of nested values: objects, arrays, strings
//! and non-negative integers.
//!
//! A [`Tokenizer`] turns the characters of a document into tokens, each with
//! the offset at which it begins. A [`JsonParser`] reads tokens and builds a
//! tree of [`Content`], which `get` and `at` navigate without failing.
//!
//! What each function computes is stated over mathematical values: the
//! scanner in [`lexing`], the grammar in [`grammar`], the value of a tree in
//! [`content`]. [`render`] writes a tree back as a document and proves that
//! parsing it gives the tree again; [`laws`] holds further facts that are
//! proved of every document.

pub mod content;
pub mod equality;
pub mod error;
pub mod grammar;
pub mod laws;
pub mod lexing;
pub mod parser;
pub mod render;
pub mod text;
pub mod token;
pub mod tokenizer;

pub use content::Content;
pub use error::ParseError;
pub use parser::{JsonParser, DEFAULT_MAX_DEPTH};
pub use token::{JsonToken, JsonTokenWrap};
pub use tokenizer::Tokenizer;
