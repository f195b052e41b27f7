use vstd::prelude::*;

verus! {

/// The errors of the store and of its protocol.
///
/// Errors that come from the operating system or from a payload codec reach the
/// library as their message.
#[derive(Debug, Clone, PartialEq, Eq)]
pub enum KvsError {
    /// A filesystem or network operation failed.
    Io(String),
    /// A record or a protocol message is malformed or too large.
    Serialization(String),
    /// `remove` was called on a key that is not in the store.
    KeyNotFound,
    /// An index entry resolved to a record that is not a `Set` of its key.
    UnexpectedCommandType,
    /// An address could not be parsed.
    Net(String),
    /// The data directory belongs to another engine.
    EngineMismatch { requested: String, previous: String },
    /// A lock was poisoned by a panicking thread.
    ConcurrentError,
    /// An error reported by the other side of a connection.
    StringError(String),
}

} // verus!
