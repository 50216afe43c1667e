//! A recursive-descent parser for a JSON-like value language.
//!
//! A document is a text. [`parse_json`] reads it whole and returns the value
//! it holds or the failure it ran into, with the byte offset of the failure.
//! The grammar is small on purpose: strings have no escape sequences,
//! numbers no exponents, and arrays and objects are never empty.
//!
//! The grammar is written down once, as specification functions over the
//! bytes of the input, and every parser is proved to return exactly what
//! they say. On top of that the library proves that the alternatives of a
//! value exclude one another, that what a parser returns is well formed, and
//! that a value written as text parses to itself.
//!
//! - [`cursor`]: a position in a text, with the lexical primitives.
//! - [`lexical`], [`grammar`]: the grammar as specification.
//! - [`scalar`], [`parser`]: the parsers themselves.
//! - [`value`], [`equality`], [`serialize`]: values, when two of them are
//!   the same, and how they are written.
//! - [`error`]: failures.
//! - [`exclusive`], [`wellformed`], [`roundtrip`], [`text`]: what is proved
//!   of the grammar, and the facts about UTF-8 that the proofs rest on.

pub mod cursor;
pub mod equality;
pub mod error;
pub mod exclusive;
pub mod grammar;
pub mod lexical;
pub mod parser;
pub mod roundtrip;
pub mod scalar;
pub mod serialize;
pub mod text;
pub mod value;
pub mod wellformed;

pub use crate::cursor::Cursor;
pub use crate::error::{ErrorKind, ParseError};
pub use crate::grammar::MAX_DEPTH;
pub use crate::parser::{parse_array, parse_json, parse_member, parse_object, parse_value};
pub use crate::scalar::{parse_bool, parse_null, parse_num, parse_string};
pub use crate::value::{Decimal, JsonValue, Member, Num};
