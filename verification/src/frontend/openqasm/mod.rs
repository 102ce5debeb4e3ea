//! The OpenQASM 3 frontend: a hand-written tokenizer for the supported
//! subset, and pieces of its syntax tree.
pub mod ast;
pub mod lexer;
pub mod translate;
