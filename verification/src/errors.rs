//! The store's failure kinds and their user-visible messages.

use vstd::prelude::*;

verus! {

/// Why a store operation failed.
#[derive(Debug, Clone, PartialEq, Eq)]
pub enum KvError {
    /// A `remove` was asked for a key that is absent.
    KeyNotFound,
    /// An indexed location decoded to a `Remove` record: corruption.
    UnexpectedCommandType,
    /// A segment held a malformed or truncated record.
    Decode,
    /// An error carried over the wire as its rendered message.
    StringError(String),
}

impl KvError {
    /// The message shown to users and sent over the wire.
    pub fn message(&self) -> (r: String)
        ensures
            r@ == match self {
                KvError::KeyNotFound => "Key not found"@,
                KvError::UnexpectedCommandType => "Unexpected command type"@,
                KvError::Decode => "Malformed log record"@,
                KvError::StringError(s) => s@,
            },
    {
        match self {
            KvError::KeyNotFound => "Key not found".to_owned(),
            KvError::UnexpectedCommandType => "Unexpected command type".to_owned(),
            KvError::Decode => "Malformed log record".to_owned(),
            KvError::StringError(s) => s.clone(),
        }
    }
}

} // verus!
