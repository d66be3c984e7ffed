//! Verified text processing for LLVM IR loop fuzzing and loop-IR extraction.

pub mod text;
pub mod scan;
pub mod pred_map;
pub mod cfg;
pub mod loop_ir;
pub mod cost;
pub mod harness;
pub mod alive;
pub mod campaign;
pub mod reparse;
pub mod block_ranges;
