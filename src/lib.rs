//! A small s-expression language: tokenizer, syntax builder, type checker
//! and evaluator, each stage stated against a mathematical model.
//!
//! Every stage recurses on the nesting of its input, so input nested deeply
//! enough can exhaust the call stack.

pub mod diagnostic;
pub mod checker;
pub mod interpreter;
pub mod parser;
pub mod render;
pub mod soundness;
pub mod syntax_tree;
mod text;
