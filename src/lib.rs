//! Lexical front end of a small interpreted language: turns source text
//! into a sequence of typed tokens, with every step checked against a
//! mathematical description of the lexical grammar.
pub mod grammar;
pub mod tokens;
pub mod scanner;
pub mod laws;
pub mod expr;
pub mod printer;
pub mod ty_map;
