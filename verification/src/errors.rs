//! The error taxonomy of the scanner and the aggregator.

use vstd::prelude::*;

verus! {

/// Why a scan or a traversal failed. Every failure aborts the whole
/// traversal: there is no partial report.
#[derive(Clone, Copy, Debug, PartialEq, Eq, Structural)]
pub enum ScanError {
    /// The file's name does not carry the `.rs` suffix.
    InvalidInput,
    /// The path does not exist.
    NotFound,
    /// The file exists but could not be read.
    ReadError,
    /// Rewritten content could not be persisted.
    WriteError,
    /// A directory could not be listed.
    PermissionError,
    /// The block-open pattern failed to compile.
    PatternError,
}

impl ScanError {
    /// A short human-readable description of the failure.
    pub fn message(&self) -> (r: &'static str)
        ensures
            r@.len() > 0,
            self is InvalidInput ==> r@ == "File must be a Rust file"@,
            self is NotFound ==> r@ == "File does not exist"@,
            self is ReadError ==> r@ == "Could not read file"@,
            self is WriteError ==> r@ == "Could not write to file"@,
            self is PermissionError ==> r@ == "Could not list directory"@,
            self is PatternError ==> r@ == "Could not compile pattern"@,
    {
        let m: &'static str = match self {
            ScanError::InvalidInput => "File must be a Rust file",
            ScanError::NotFound => "File does not exist",
            ScanError::ReadError => "Could not read file",
            ScanError::WriteError => "Could not write to file",
            ScanError::PermissionError => "Could not list directory",
            ScanError::PatternError => "Could not compile pattern",
        };
        proof {
            reveal_strlit("File must be a Rust file");
            reveal_strlit("File does not exist");
            reveal_strlit("Could not read file");
            reveal_strlit("Could not write to file");
            reveal_strlit("Could not list directory");
            reveal_strlit("Could not compile pattern");
        }
        m
    }
}

} // verus!
