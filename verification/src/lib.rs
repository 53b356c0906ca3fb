//! A small regular-expression engine: a pattern string is parsed into a
//! syntax tree, the tree is compiled into linear bytecode for a tiny virtual
//! machine, and the bytecode is run against input text by depth-first
//! backtracking search.

pub mod ast;
pub mod codegen;
pub mod evaluator;
pub mod helper;
pub mod instruction;
pub mod parser;
