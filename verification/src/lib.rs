//! A small recursive-descent JSON parser whose behaviour is proved against a
//! mathematical description of the grammar.
//!
//! The grammar is deliberately narrow: the three literals, non-negative
//! decimal integers, strings without escape sequences, and arrays and objects
//! with at least one entry. Whatever follows the first value of a text is
//! ignored.

pub mod compose;
pub mod cursor;
pub mod error;
pub mod grammar;
pub mod laws;
pub mod parser;
pub mod progress;
pub mod text;
pub mod value;
pub mod whitespace;

pub use crate::cursor::Cursor;
pub use crate::error::ParseError;
pub use crate::parser::{parse, Parser};
pub use crate::value::{Json, Object};
