//! A small prefix-notation expression language: a lexer, a recursive-descent
//! parser and a tree-walking evaluator, each verified against a mathematical
//! model of what it computes.
//!
//! Numbers are IEEE-754 doubles, held by their bit patterns. The library never
//! does floating-point arithmetic itself: a token arrives with the number it
//! spells, and the evaluator names each sum, difference, product or quotient it
//! needs and reads the answers from the results its caller supplies.

pub mod env;
pub mod eval;
pub mod expr;
pub mod lexer;
pub mod meaning;
pub mod parser;

pub use env::{default_env, LispEnv};
pub use eval::{eval, Step};
pub use expr::{Builtin, Form, LispError, LispExpr};
pub use lexer::tokenize;
pub use parser::{parse, Token};
