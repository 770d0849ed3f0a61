//! A small Lisp: a reader that turns text into values, scopes kept in an
//! arena, and an evaluator for `def!`, `let*`, `do`, `if`, `fn*`, `eval` and
//! calls, each proved against a model of what it computes.
use vstd::prelude::*;

pub mod env;
pub mod eval;
pub mod natives;
pub mod reader;
pub mod types;

verus! {

} // verus!
