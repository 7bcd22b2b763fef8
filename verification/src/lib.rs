//! The front end of a tree-walking interpreter for a small expression
//! language: a scanner, a recursive-descent parser, and an evaluator.
//!
//! Source text is scanned into tokens (`scanner`), the tokens are parsed
//! into an expression tree (`parser`), and the tree is evaluated to a value
//! (`expr`); `interpreter::run` does the three in a row. Numbers are IEEE
//! 754 binary32 numbers, held as their bit patterns and computed with in
//! integer arithmetic (`ieee`, `decimal`, `bignat`).
//!
//! Every function has a contract over a mathematical model of its
//! arguments, and is proved to meet it.

pub mod bignat;
pub mod decimal;
pub mod expr;
pub mod ieee;
pub mod interpreter;
pub mod parser;
pub mod scanner;
pub mod text;
