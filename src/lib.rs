//! A small front end for a toy language: a tokenizer, a set of parser
//! combinators over text, and a recursive-descent expression parser over
//! tokens.

pub mod basics;
pub mod combinator;
pub mod error;
pub mod parser;
pub mod text;
pub mod tokenizer;
