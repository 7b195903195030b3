use vstd::prelude::*;

verus! {

/// Paths, carried in the "not found" error.
#[verifier::external_type_specification]
#[verifier::external_body]
pub struct ExPathBuf(std::path::PathBuf);

/// serde_json's error type, carried in the JSON error.
#[verifier::external_type_specification]
#[verifier::external_body]
pub struct ExJsonError(serde_json::Error);

/// The ways opening, reading or writing an index can fail.
#[derive(Debug)]
pub enum IndexError {
    /// I/O error.
    Io(std::io::Error),
    /// Index not found at `path`.
    NotFound { path: std::path::PathBuf },
    /// Corrupt index.
    Corrupt { details: String },
    /// Meta version `found` not supported (expected `expected`).
    VersionMismatch { found: u32, expected: u32 },
    /// JSON error.
    Json(serde_json::Error),
}

} // verus!
