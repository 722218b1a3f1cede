//! A small shell: a tokenizer for command lines and the rules that turn a
//! line into a command.

pub mod text;
pub mod parser;
pub mod lexer;
pub mod shell;
