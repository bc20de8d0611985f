//! Front end of a small scripting language: a pull-based tokenizer and a
//! recursive-descent parser with two tokens of lookahead, both verified.
//!
//! - [`lexer`]: tokens, and the tokenizer that hands them out one by one,
//!   each with the place of its first byte.
//! - [`ast`]: the syntax tree, and the text by which each node is shown.
//! - [`parser`]: the grammar, the parser that follows it, and how it goes on
//!   after an error.
//! - [`text`]: the decimal text of integers.
//! - [`empty_statements`]: what tokenizer and parser make of inputs that
//!   hold nothing but semicolons.
//!
//! Every function states what it returns over a mathematical model: the
//! state of the tokenizer and of the parser, and the value of each token and
//! node.

pub mod ast;
pub mod empty_statements;
pub mod lexer;
pub mod parser;
pub mod text;
