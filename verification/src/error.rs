//! Error kinds for the core engine.

use vstd::prelude::*;

verus! {

/// Every failure of the core engine is reported as one of these kinds.
/// Each variant carries a plain message, usually the offending path or
/// target. Failures of outside components (the filesystem, a serializer)
/// are mapped into `Io` or `Serialization` by the layer that performs the
/// outside call; nothing in this crate panics on such a failure.
#[derive(Debug)]
pub enum ArkeError {
    /// A vault-level invariant was violated, e.g. the root is missing.
    Vault(String),
    /// A referenced note path has no backing file.
    FileNotFound(String),
    /// An underlying filesystem failure, carried as its message.
    Io(String),
    /// A structural document parsing failure.
    Parse(String),
    /// Malformed reference syntax rejected by a stricter extractor.
    InvalidWikilink(String),
    /// An encode/decode failure at the serialization boundary.
    Serialization(String),
    /// A failure of the indexing collaborator.
    Index(String),
    /// Catch-all for failures with no better kind.
    Unknown(String),
}

} // verus!
