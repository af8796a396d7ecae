//! Reader for a human-editable, strongly-typed, indentation-structured text
//! serialization format.
//!
//! A document is a sequence of lines. Nesting is expressed by a per-document
//! indentation unit of 2, 3 or 4 spaces, detected from the document itself.
//! Each line is either blank, a comment (first character after the
//! indentation is `#`), a `key: value` pair, a bare key introducing a nested
//! container, or a `- value` list item. Scalar payloads are decoded into a
//! closed set of value kinds: text, boolean, integer of the smallest fitting
//! width (or arbitrary precision), number, date, time, and date-time.
//!
//! A small document:
//!
//! ```text
//! # a comment
//! name: example
//! limits:
//!   lower: -40
//!   upper: 2.5e1
//! tags:
//!   - alpha
//!   - beta
//! ```
//!
//! [`Parser::new`] detects the indentation unit (two spaces here) and
//! [`Parser::next`] then yields `name`, `limits` (a record) and `tags`
//! (a list), one at a time.
//!
//! The crate is organised leaf-first: [`value`] holds the value types and
//! their mathematical views, [`chars`] the character-sequence helpers,
//! [`scalar`] the scalar grammar and decoders, [`line`] the indentation
//! detector and line classifier, and [`parse`] the structural decoder and
//! the document parser.

pub mod chars;
pub mod value;
pub mod scalar;
pub mod line;
pub mod parse;

pub use value::{Value, Int, Date, Time, DateTime, Error, IntV, ValueV};
pub use line::indentation;
pub use parse::{Parser, ParserV, scalar_key_eq};
pub use scalar::{decode_bool, decode_int, decode_number, decode_date, decode_time,
    decode_datetime, decode_text, decode_any};
