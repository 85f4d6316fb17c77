use vstd::prelude::*;

verus! {

/// The errors of the store.
#[derive(Debug, PartialEq, Eq)]
pub enum KvsError {
    /// A removal named a key that is not in the store.
    KeyNotFound,
    /// A log file could not be read or created, or the log set is unusable.
    LogInit,
    /// A frame on the wire or on disk could not be parsed.
    Parser(String),
    /// Bytes that should hold a request could not be decoded: those bytes and
    /// the reason.
    KvsDeserializer(Vec<u8>, String),
    /// An input or output operation failed.
    IO(String),
    /// The worker pool did not shut down in time.
    Pooling,
    /// A connection could not be served.
    TCP(String),
    /// A key or a value is not valid UTF-8.
    Utf8(String),
    /// A key directory entry led to a record other than a `Set` of its key.
    UnexpectedCommandType(String),
    /// The data directory was created by another engine.
    EngineMismatch(String),
}

} // verus!
