//! Tern: a small logic-programming core.
//!
//! The crate is built from three subsystems: a unification engine over
//! first-order terms, a goal algebra whose goals produce interleaving
//! answer streams, and a stack-based bytecode virtual machine fed by a
//! code generator that walks an abstract syntax tree.

pub mod assoc;
pub mod codegen;
pub mod errors;
pub mod logic;
pub mod parser;
pub mod tokenizer;
pub mod unification;
pub mod vm;
