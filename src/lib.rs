//! An optimizing transpiler core for the eight-symbol tape language.
//!
//! [`lang`] lexes source text and lowers its tokens into a tree of
//! [`instruction::IRInstruction`]s held by [`block::IRBlock`]s. The pass
//! driver, [`block::IRBlock::optimize`], rewrites that tree bottom-up with the
//! three peephole passes of [`optimization`], and [`transpile`] turns the
//! result into C source.
//!
//! [`token`], [`ast`] and [`ir`] are a simpler front end over program bytes,
//! and [`runtime`] interprets its AST one step at a time.
pub mod ast;
pub mod block;
pub mod instruction;
pub mod ir;
pub mod lang;
pub mod optimization;
pub mod runtime;
pub mod token;
pub mod transpile;
