//! A small Lisp (in the "make a lisp" family): a reader, a printer,
//! environments and an evaluator, each stated against a mathematical model.

pub mod builtin_laws;
pub mod core_lib;
pub mod env;
pub mod eval;
pub mod laws;
pub mod order;
pub mod printer;
pub mod reader;
pub mod repl;
pub mod semantics;
pub mod stages;
pub mod text;
pub mod types;
