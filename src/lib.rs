//! StarQL: a small query language. Text is cut into tokens (`lexer`), parsed
//! by recursive descent into a syntax tree (`parser`, `ast`), and evaluated
//! over a chain of scopes (`eval`, `environment`) into values (`value`).
//! A pipeline `root | op(name = arg, ...)` runs operators (`ops`) over a
//! list, evaluating each argument once, or once per element when it
//! mentions the current element `@` (`localfinder`). `printer` renders trees.
//!
//! Each stage is specified by spec functions over mathematical models and
//! proved: `lex_from`, `parse_spec`, `eval_top`, `has_local`, `print`.
use vstd::prelude::*;

pub mod ast;
pub mod environment;
pub mod error;
pub mod eval;
pub mod interpreter;
pub mod lexer;
pub mod localfinder;
pub mod number;
pub mod ops;
pub mod parser;
pub mod printer;
pub mod text;
pub mod value;

verus! {

} // verus!
