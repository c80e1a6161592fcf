//! Counts the lines of Rust source files that fall inside `unsafe { ... }`
//! blocks, and aggregates the counts over a directory tree into a
//! hierarchical report whose interior nodes carry the sums of their
//! children's counts.

pub mod errors;
pub mod report;
pub mod scanner;

pub use errors::ScanError;
pub use report::{aggregate, classify_file, FsTree, Output};
pub use scanner::{classify_content, classify_flags, instrumented_lines, split_lines};
