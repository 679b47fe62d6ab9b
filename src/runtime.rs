//! A reference interpreter for the AST, as a step machine: the library
//! decides each step, and the caller performs the input and output.
pub mod ast_walker;
