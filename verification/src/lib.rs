//! galvanic library: the lexing and parsing phases of a compiler for a
//! small subset of Rust, each stated as a function with a contract.

pub mod ast;
pub mod lexer;
pub mod parser;
