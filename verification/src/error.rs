//! The errors the store surfaces.
use vstd::prelude::*;

use crate::bytes_util::clone_bytes;

verus! {

/// What went wrong. Size-limit violations and a missing key are
/// recoverable at the call site; the rest carry the failing detail as
/// text.
#[derive(Debug)]
pub enum LSMLibError {
    /// An underlying file operation failed.
    Io(String),
    /// A filename or integer field did not parse during open.
    Parse(String),
    /// The key is absent, for callers that want absence as an error.
    KeyNotFound(Vec<u8>),
    /// The key exceeds the configured limit.
    KeyIsTooLarge,
    /// The value exceeds the configured limit.
    ValueIsTooLarge,
    /// An internal write went to a file opened read-only.
    FileNotWriteable(String),
    /// Another process holds the directory lock.
    AlreadyLocked,
    /// Anything else.
    Custom(String),
}

impl LSMLibError {
    /// A short description of the error.
    pub fn message(&self) -> (r: String)
        ensures
            self matches LSMLibError::KeyIsTooLarge ==> r@ == "key is too large"@,
            self matches LSMLibError::ValueIsTooLarge ==> r@ == "value is too large"@,
            self matches LSMLibError::AlreadyLocked ==> r@ == "db is already locked"@,
    {
        match self {
            LSMLibError::Io(s) => String::from_str(s.as_str()),
            LSMLibError::Parse(s) => String::from_str(s.as_str()),
            LSMLibError::KeyNotFound(_) => String::from_str("key not found"),
            LSMLibError::KeyIsTooLarge => String::from_str("key is too large"),
            LSMLibError::ValueIsTooLarge => String::from_str("value is too large"),
            LSMLibError::FileNotWriteable(s) => String::from_str(s.as_str()),
            LSMLibError::AlreadyLocked => String::from_str("db is already locked"),
            LSMLibError::Custom(s) => String::from_str(s.as_str()),
        }
    }

    /// A copy of this error.
    pub fn duplicate(&self) -> (r: LSMLibError)
        ensures
            r matches LSMLibError::KeyIsTooLarge <==> self matches LSMLibError::KeyIsTooLarge,
            r matches LSMLibError::ValueIsTooLarge <==> self matches LSMLibError::ValueIsTooLarge,
            r matches LSMLibError::AlreadyLocked <==> self matches LSMLibError::AlreadyLocked,
    {
        match self {
            LSMLibError::Io(s) => LSMLibError::Io(String::from_str(s.as_str())),
            LSMLibError::Parse(s) => LSMLibError::Parse(String::from_str(s.as_str())),
            LSMLibError::KeyNotFound(k) => LSMLibError::KeyNotFound(clone_bytes(k)),
            LSMLibError::KeyIsTooLarge => LSMLibError::KeyIsTooLarge,
            LSMLibError::ValueIsTooLarge => LSMLibError::ValueIsTooLarge,
            LSMLibError::FileNotWriteable(s) => LSMLibError::FileNotWriteable(
                String::from_str(s.as_str()),
            ),
            LSMLibError::AlreadyLocked => LSMLibError::AlreadyLocked,
            LSMLibError::Custom(s) => LSMLibError::Custom(String::from_str(s.as_str())),
        }
    }
}

} // verus!
