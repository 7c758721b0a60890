//! A small make-like build engine.
//!
//! Targets are declared with their dependencies and the shell commands that
//! produce them; a memoized depth-first evaluation then decides, with the
//! help of two caller-supplied strategies, which commands to run and in
//! what order.  Commands and variable definitions go through a fixed-point
//! textual substitution of `$name` references.

use vstd::prelude::*;

pub mod eval;
pub mod expand;
pub mod graph;
pub mod lex;
pub mod parse;
pub mod recipe;
pub mod sexpr;
pub mod tokens;

verus! {

/// How much diagnostic output the surrounding application should emit.
/// The engine itself only stores the setting; it never changes behaviour.
#[derive(Debug, Eq, PartialEq, PartialOrd, Copy, Clone, Structural)]
pub enum Verbosity {
    Minimal,
    Verbose,
    Debug,
}

} // verus!
