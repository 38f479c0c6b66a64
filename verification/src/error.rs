//! The errors that the store and the client report.

use vstd::prelude::*;
use vstd::string::StringExecFns;

verus! {

/// Why an operation failed.
#[derive(Debug, PartialEq, Eq)]
pub enum KvsError {
    /// A key was removed that the store does not hold, or an index entry
    /// resolved to a record that is not a `Set`.
    KeyNotFound,
    /// A record is malformed or cut short.
    Serialization,
    /// A failure that a server reported, with its message.
    Remote(String),
}

impl KvsError {
    /// The text of this error as a caller sees it.
    pub open spec fn message_view(self) -> Seq<char> {
        match self {
            KvsError::KeyNotFound => "Key not found"@,
            KvsError::Serialization => "Malformed record"@,
            KvsError::Remote(msg) => msg@,
        }
    }

    /// The text of this error, for display and for the wire.
    pub fn message(&self) -> (text: String)
        ensures
            text@ == self.message_view(),
    {
        match self {
            KvsError::KeyNotFound => String::from_str("Key not found"),
            KvsError::Serialization => String::from_str("Malformed record"),
            KvsError::Remote(msg) => msg.clone(),
        }
    }
}

/// What a client makes of the answer of a server: the answer itself where
/// the server gave one, and else a `Remote` error with the message that the
/// server sent.
pub fn reply_to_result<T>(reply: Result<T, String>) -> (r: Result<T, KvsError>)
    ensures
        match reply {
            Ok(answer) => r == Ok::<T, KvsError>(answer),
            Err(message) => r == Err::<T, KvsError>(KvsError::Remote(message)),
        },
{
    match reply {
        Ok(answer) => Ok(answer),
        Err(message) => Err(KvsError::Remote(message)),
    }
}

} // verus!
