//! The error taxonomy of the store.

use vstd::prelude::*;

verus! {

/// Every failure the store, the engines, the codec, the server or the
/// client can report.
#[derive(Debug)]
pub enum KVStoreError {
    /// An underlying file or socket failure, described in text.
    Io(String),
    /// Malformed record or message bytes, on disk or on the wire.
    Serde(String),
    /// A failure reported by the embedded ordered-key store.
    Sled(String),
    /// The embedded store handed back bytes that are not UTF-8.
    Utf8Error,
    /// `remove` was asked for a key that is not present.
    KeyNotFound,
    /// An on-disk record addressed by the index is not a `Set` record.
    UnknownCommandType,
    /// An engine name that the server does not know.
    UnknownEngineType,
    /// The requested engine conflicts with the data already on disk.
    ChangeEngineError,
    /// An error string relayed from the remote server.
    CommonStringError(String),
}

impl KVStoreError {
    /// The diagnostic text of this error, as the server sends it to a
    /// client and as the command-line tools print it.
    pub fn message(&self) -> (r: String)
        ensures
            r@ == self.message_spec(),
    {
        match self {
            KVStoreError::Io(s) => s.clone(),
            KVStoreError::Serde(s) => s.clone(),
            KVStoreError::Sled(s) => s.clone(),
            KVStoreError::Utf8Error => "Utf8 Error".to_owned(),
            KVStoreError::KeyNotFound => "Key not found".to_owned(),
            KVStoreError::UnknownCommandType => "Unknown command type".to_owned(),
            KVStoreError::UnknownEngineType => "Unknown engine type".to_owned(),
            KVStoreError::ChangeEngineError => "Change engine after initialization".to_owned(),
            KVStoreError::CommonStringError(s) => s.clone(),
        }
    }

    /// What `message` returns, variant by variant.
    pub open spec fn message_spec(&self) -> Seq<char> {
        match self {
            KVStoreError::Io(s) => s@,
            KVStoreError::Serde(s) => s@,
            KVStoreError::Sled(s) => s@,
            KVStoreError::Utf8Error => "Utf8 Error"@,
            KVStoreError::KeyNotFound => "Key not found"@,
            KVStoreError::UnknownCommandType => "Unknown command type"@,
            KVStoreError::UnknownEngineType => "Unknown engine type"@,
            KVStoreError::ChangeEngineError => "Change engine after initialization"@,
            KVStoreError::CommonStringError(s) => s@,
        }
    }
}

} // verus!
