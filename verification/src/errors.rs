//! The one failure family that crosses component boundaries, each
//! carrying enough context for a log line.

use vstd::prelude::*;

verus! {

/// A failure during collection, evaluation, or deduplication.
#[derive(Debug)]
pub enum DedupError {
    /// An input/output failure, described by the shell around the library.
    Io(String),
    /// A glob pattern that would not compile.
    FilterCompile(String),
    /// A configuration the run cannot proceed with.
    Config(String),
}

impl DedupError {
    /// The human-readable description carried by the error.
    pub fn message(&self) -> (r: String)
        ensures
            match self {
                DedupError::Io(m) => r@ == m@,
                DedupError::FilterCompile(m) => r@ == m@,
                DedupError::Config(m) => r@ == m@,
            },
    {
        match self {
            DedupError::Io(m) => m.clone(),
            DedupError::FilterCompile(m) => m.clone(),
            DedupError::Config(m) => m.clone(),
        }
    }
}

} // verus!
