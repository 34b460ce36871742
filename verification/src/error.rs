use vstd::prelude::*;

verus! {

/// The error taxonomy of the engine.
///
/// `HashMismatch` and `MalformedBundle` mean the data itself is corrupt;
/// the remaining variants mean an operation could not proceed.
#[derive(Debug)]
pub enum ShrLinkError {
    /// Reading the source or writing the output failed.
    Io(String),
    /// Worker-pool construction or codec-level (de)compression failed.
    Compression(String),
    /// A network transfer failed.
    Network(String),
    /// A peer-to-peer operation failed.
    P2P(String),
    /// An HTTP operation failed.
    Http(String),
    /// The configuration could not be read or written.
    Config(String),
    /// The digest recomputed after decompression differs from the stored
    /// digest; both are carried as lowercase hex for diagnostics.
    HashMismatch { expected: String, actual: String },
    /// The bundle buffer has a bad magic or version, or is truncated.
    MalformedBundle(String),
    /// An operation timed out.
    Timeout(String),
    /// A caller-supplied parameter is unusable.
    InvalidInput(String),
    /// Any other failure.
    Other(String),
}

} // verus!
