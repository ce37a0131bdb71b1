//! A tokenizer, a recursive-descent parser and a tree-walking evaluator for
//! the BIRL language, each proved against a mathematical model of its stage.
pub mod ast;
pub mod evaluator;
pub mod lexer;
pub mod parser;
pub mod pipeline;
pub mod token;
