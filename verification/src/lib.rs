//! A small compiler for integer arithmetic expressions: a scanner, a
//! precedence-climbing parser and an ARM64 code generator with a bounded
//! register pool, each with a machine-checked contract.

pub mod assembly;
pub mod ast;
pub mod scan;
