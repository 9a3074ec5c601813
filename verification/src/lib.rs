//! A lexical-scope resolver ("linker") and evaluator for a small expression
//! language with named-variable lambdas, application and tuples, together
//! with the byte-buffer codec and virtual-machine scaffolding that the
//! surrounding system uses.
//!
//! The linker turns a tree that refers to variables by name into a
//! closure-converted tree that refers to variables by flat stack position;
//! the evaluator then runs that tree against an explicit runtime value stack.

pub mod ast;
pub mod eval;
pub mod laws;
pub mod link;
pub mod mem;
pub mod model;
pub mod script;
