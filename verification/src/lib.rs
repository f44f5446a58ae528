//! A declarative task runner: a small language of named shell tasks with
//! dependencies and variable bindings, a parser for it, and the engine that
//! turns a set of requested task names into a validated, ordered execution
//! sequence.

pub mod ast;
pub mod error;
pub mod friggenfile;
pub mod grammar;
pub mod parser;
pub mod print;
pub mod run;
pub mod scan;
pub mod tasks;
pub mod vars;
