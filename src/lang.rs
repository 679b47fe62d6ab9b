//! The source language: its tokens, the lexer, and lowering into the IR tree.
pub mod instructionize;
pub mod lexer;
pub mod token;
