//! Error taxonomy of the streaming core.

use vstd::prelude::*;

verus! {

/// Everything that a streaming operation can report.
///
/// - `Io`: a device read or write failed (short read, device closed, ...);
///   reported by the handle behind the operation and propagated unchanged.
/// - `Protocol`: the decoder observed a `PrevIsLast` control word while no
///   beat was in hand, the one possible protocol violation.
/// - `Config`: a constructor was given an unusable configuration, such as a
///   buffer capacity that is zero or not a multiple of [`crate::ALIGN`].
#[derive(Debug, Clone, Copy, PartialEq, Eq, Structural)]
pub enum StreamError {
    Io,
    Protocol,
    Config,
}

impl StreamError {
    /// A short human-readable description, usable by unverified callers
    /// in place of a `Display` implementation.
    pub fn message(&self) -> (s: &'static str)
        ensures
            s@ == match self {
                StreamError::Io => "device i/o failed"@,
                StreamError::Protocol => "protocol violation"@,
                StreamError::Config => "invalid configuration"@,
            },
    {
        match self {
            StreamError::Io => "device i/o failed",
            StreamError::Protocol => "protocol violation",
            StreamError::Config => "invalid configuration",
        }
    }
}

} // verus!
