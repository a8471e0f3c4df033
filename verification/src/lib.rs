//! A self-contained JSON decoder: a quote-aware lexer, a recursive-descent
//! tree builder, and a value model with fail-safe accessors.
//!
//! Every executable function carries a contract over a mathematical model of
//! the text, the tokens and the trees, and the decoder as a whole is held to
//! a set of laws: every token is sound, a builder ends at the closing token
//! of its structure, a document cut short is malformed, materializing a
//! lazily decoded document gives what decoding gives, and what is written
//! canonically is read back as the same tree.

pub mod chars;
pub mod document;
pub mod entries;
pub mod error;
pub mod laws;
pub mod lazy;
pub mod lazy_parser;
pub mod lexer;
pub mod numeral;
pub mod parser;
pub mod round_trip;
pub mod tokens;
pub mod value;
pub mod written;

pub use crate::error::ParseError;
pub use crate::lazy::{JsonValueLazy, LazyObject};
pub use crate::lazy_parser::{parse_arr_lazy, parse_lazy, parse_obj_lazy};
pub use crate::lexer::tokenize;
pub use crate::parser::{parse, parse_arr, parse_obj, parse_value};
pub use crate::value::{FloatLiteral, JsonObject, JsonValue, Number};
