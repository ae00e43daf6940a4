//! Literate snapshot tests: a file holds fenced blocks, a caller computes what each block
//! should hold, and a pass either writes the file anew or compares.

pub mod block;
pub mod directive;
pub mod encoding;
pub mod laws;
pub mod pass;
pub mod text;

pub use crate::block::{parse_block, Block, BlockView};
pub use crate::directive::{parse_arguments, Arguments, DirectiveError, Extension, Syntax};
pub use crate::pass::{
    compare, needs_rewrite, parse_blocks, reconcile, rewrite, run_test, Mismatch, Outcome,
};
