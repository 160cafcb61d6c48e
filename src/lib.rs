//! Front end of a small expression language: a scanner, a Pratt parser that builds a
//! typed syntax tree while collecting diagnostics, and the canonical rendering of that
//! tree, each stated against a specification and proved.
use vstd::prelude::*;

pub mod text;
pub mod ast;
pub mod lexer;
pub mod grammar;
pub mod parser;
pub mod render;
pub mod canonical;

verus! {

} // verus!
