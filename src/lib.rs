//! A small LOGO-style turtle language: lexer, parser and evaluator.

pub mod errors;
pub mod interpreter;
pub mod number;
pub mod parser;
pub mod statements;
mod text;
pub mod token;
pub mod tokenizer;
