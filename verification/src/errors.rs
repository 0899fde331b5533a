//! The error taxonomy of the core.
//!
//! Per-file failures (`HashGenerationFailed`, `DecodeError`,
//! `InaccessibleFile`) are isolated: a batch drops the file and goes
//! on. Store-level failures (`StoreUnavailable`, `Store`) abort the
//! whole operation.

use vstd::prelude::*;

verus! {

/// Every failure the core can report.
#[derive(Debug)]
pub enum CoreError {
    /// The persistent store could not be opened or migrated.
    StoreUnavailable { detail: String },
    /// A single read or write against the persistent store failed.
    Store { detail: String },
    /// An image could not be canonical-hashed; the file is skipped.
    HashGenerationFailed,
    /// An encoded perceptual hash could not be parsed.
    DecodeError,
    /// File metadata could not be read; the file is skipped.
    InaccessibleFile,
}

impl CoreError {
    /// A human-readable description of the failure.
    pub fn message(&self) -> (r: String)
        ensures
            (self is StoreUnavailable || self is Store) ==> r@.len() > 0,
    {
        proof {
            reveal_strlit("store unavailable: ");
            reveal_strlit("store operation failed: ");
            reveal_strlit("could not generate perceptual hash");
            reveal_strlit("could not decode perceptual hash");
            reveal_strlit("file metadata could not be read");
        }
        match self {
            CoreError::StoreUnavailable { detail } => {
                let mut r = String::from_str("store unavailable: ");
                r.append(detail.as_str());
                r
            },
            CoreError::Store { detail } => {
                let mut r = String::from_str("store operation failed: ");
                r.append(detail.as_str());
                r
            },
            CoreError::HashGenerationFailed => String::from_str(
                "could not generate perceptual hash",
            ),
            CoreError::DecodeError => String::from_str("could not decode perceptual hash"),
            CoreError::InaccessibleFile => String::from_str("file metadata could not be read"),
        }
    }
}

} // verus!
