use vstd::prelude::*;

verus! {

/// The ways an operation of the metrics engine can fail.
#[derive(Clone, Copy, Debug, PartialEq, Eq, Structural)]
pub enum ErrorKind {
    /// A metric's category or name is empty or holds a character outside `[a-z0-9_]`.
    InvalidMetricIdentity,
    /// A mutation or a collection was attempted before `initialize`.
    NotInitialized,
    /// A collection was asked for a ping that no metric registered.
    UnknownPing,
    /// The data directory given to `initialize` cannot be used.
    StorageUnavailable,
    /// A value was out of range; it was clamped and the caller's call went on.
    ValueOutOfRange,
    /// A boundary handle does not name a live metric.
    InvalidHandle,
}

/// The message that goes with each error.
pub open spec fn message_of(e: ErrorKind) -> Seq<char> {
    match e {
        ErrorKind::InvalidMetricIdentity => "invalid metric identity"@,
        ErrorKind::NotInitialized => "glean is not initialized"@,
        ErrorKind::UnknownPing => "unknown ping"@,
        ErrorKind::StorageUnavailable => "storage unavailable"@,
        ErrorKind::ValueOutOfRange => "value out of range"@,
        ErrorKind::InvalidHandle => "invalid metric handle"@,
    }
}

impl ErrorKind {
    /// A short human-readable message for the error.
    pub fn message(&self) -> (r: &'static str)
        ensures
            r@ == message_of(*self),
    {
        match self {
            ErrorKind::InvalidMetricIdentity => "invalid metric identity",
            ErrorKind::NotInitialized => "glean is not initialized",
            ErrorKind::UnknownPing => "unknown ping",
            ErrorKind::StorageUnavailable => "storage unavailable",
            ErrorKind::ValueOutOfRange => "value out of range",
            ErrorKind::InvalidHandle => "invalid metric handle",
        }
    }
}

} // verus!
