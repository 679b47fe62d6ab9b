//! The three peephole passes, each over one block's direct sequence.
pub mod constants;
pub mod merge;
pub mod reorder;
