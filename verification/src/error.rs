use vstd::prelude::*;

verus! {

/// The error kinds that the mapping layer surfaces to its callers.
///
/// Absence of a key is not an error: lookups report it as an empty result.
#[derive(Clone, Copy, Debug, PartialEq, Eq, Structural)]
pub enum Error {
    /// A logical key or a record could not be serialized.
    EncodingError,
    /// Bytes read from the store do not parse as the expected key or
    /// value shape: truncated, malformed, or written by an incompatible
    /// schema. Never auto-repaired.
    DecodingError,
    /// The underlying storage engine failed (I/O failure, disk
    /// exhaustion). Never retried by this layer.
    EngineError,
    /// An operation was invoked on a store handle after it was closed.
    ClosedHandleError,
}

impl Error {
    /// A short description of the error kind.
    pub fn describe(&self) -> &'static str {
        match self {
            Error::EncodingError => "value could not be encoded",
            Error::DecodingError => "stored bytes could not be decoded",
            Error::EngineError => "storage engine failure",
            Error::ClosedHandleError => "store handle is closed",
        }
    }
}

} // verus!
