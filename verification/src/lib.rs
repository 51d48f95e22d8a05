//! The front end of a small language: a lexer that splits a source text
//! into tokens, and a parser that turns tokens into expressions.
//!
//! Both passes stop at the first error and return it; neither returns a
//! partial result. What each function returns is stated in its contract,
//! over the grammar in [`grammar`] and the sequence views of the data.

pub mod grammar;
pub mod integer;
pub mod lexer;
pub mod parser;
pub mod prepend;
pub mod stream;
pub mod text;
