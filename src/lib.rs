//! A JSON text parser: a tokenizer and a recursive-descent parser that turn
//! a source string into a tree of JSON values, or into an error that names
//! the offending token's byte offset and line.

pub mod error;
pub mod laws;
pub mod literal;
pub mod parser;
pub mod round_trip;
pub mod token;
pub mod tokenizer;
pub mod value;
