//! The codec's failure channel: every encode or decode returns its value or
//! one `Error`, which pairs a structured kind with a human-readable message.

use vstd::prelude::*;
use crate::bgp_error::BGPError;

verus! {

/// The structured kind of a codec failure.
///
/// - `ReadError`: malformed or truncated input (too few bytes for a read,
///   an unrecognized registry id, leftover bytes after a bounded parse).
/// - `WriteError`: a value that is well-typed locally but has no valid wire
///   representation.
/// - `OtherError`: an invariant violation outside read/write framing.
/// - `BGPError`: an RFC 4271 protocol error meant for the peer.
#[derive(Clone, Copy, PartialEq, Eq, Structural, Debug, Hash)]
pub enum ErrorType {
    ReadError,
    WriteError,
    OtherError,
    BGPError(BGPError),
}

/// A codec failure: the structured kind plus a diagnostic message.
#[derive(Clone, PartialEq, Eq, Debug, Hash)]
pub struct Error {
    message: String,
    ty: ErrorType,
}

impl ErrorType {
    /// Wraps this kind and a diagnostic message into an `Error`.
    pub fn err(&self, message: &str) -> (r: Error)
        ensures
            r.kind() == *self,
    {
        Error { message: message.to_string(), ty: *self }
    }
}

impl Error {
    /// The structured kind, for contracts.
    pub closed spec fn kind(self) -> ErrorType {
        self.ty
    }

    /// The structured kind, so callers can react programmatically.
    pub fn error_type(&self) -> (r: ErrorType)
        ensures
            r == self.kind(),
    {
        self.ty
    }

    /// The diagnostic message, for logging.
    pub fn message(&self) -> &String {
        &self.message
    }
}

} // verus!
