//! A small compiler from parenthesised prefix calls, such as
//! `(add 2 (subtract 4 2))`, to conventional call syntax, such as
//! `add(2, subtract(4, 2))`.
//!
//! The pipeline has four stages, each a pure function of its input:
//! [`tokenizer`] turns text into tokens, [`parser`] builds a tree,
//! [`transformer`] rewrites every call into an identifier and an argument
//! list, and [`code_generator`] prints the result.
pub mod code_generator;
pub mod parser;
pub mod pipeline;
pub mod text;
pub mod tokenizer;
pub mod transformer;
