//! The store's error kinds, and the filter deciding which errors clients
//! may see.

use vstd::prelude::*;

verus! {

/// Everything that can go wrong inside the clipboard store.
pub enum StoreError {
    /// A requested operation is not available; carries a description.
    NotImplemented(String),
    /// An internal invariant was broken; carries a description.
    Bug(String),
    /// An empty blob was offered for storage.
    Empty,
    /// No clipboard answers to the given handle.
    NoSuch,
    /// The filesystem failed; carries the underlying message.
    IoError(String),
    /// A textual rendering was requested of bytes that are not valid UTF-8.
    InvalidUtf8,
}

impl StoreError {
    /// The short description shown for this error.
    pub open spec fn message_spec(self) -> Seq<char> {
        match self {
            StoreError::NotImplemented(_) => "not implemented"@,
            StoreError::Bug(_) => "actix-drop bug"@,
            StoreError::Empty => "empty clipboard sent"@,
            StoreError::NoSuch => "no such clipboard"@,
            StoreError::IoError(_) => "io error"@,
            StoreError::InvalidUtf8 => "bad utf-8"@,
        }
    }

    /// Renders the short description of this error.
    pub fn message(&self) -> (r: String)
        ensures
            r@ == self.message_spec(),
    {
        match self {
            StoreError::NotImplemented(_) => String::from_str("not implemented"),
            StoreError::Bug(_) => String::from_str("actix-drop bug"),
            StoreError::Empty => String::from_str("empty clipboard sent"),
            StoreError::NoSuch => String::from_str("no such clipboard"),
            StoreError::IoError(_) => String::from_str("io error"),
            StoreError::InvalidUtf8 => String::from_str("bad utf-8"),
        }
    }
}

/// Filters an error for client eyes: a filesystem error is withheld, every
/// other error passes through unchanged.
pub fn public_error(err: StoreError) -> (r: Option<StoreError>)
    ensures
        match err {
            StoreError::IoError(_) => r is None,
            _ => r == Some(err),
        },
{
    match err {
        StoreError::IoError(_) => None,
        _ => Some(err),
    }
}

/// The message shown to clients for `err`: its own message if it may be
/// shown, the internal-bug message otherwise.
pub fn extract_error_msg(err: StoreError) -> (r: String)
    ensures
        r@ == match err {
            StoreError::IoError(_) => "actix-drop bug"@,
            _ => err.message_spec(),
        },
{
    match public_error(err) {
        Some(e) => e.message(),
        None => String::from_str("actix-drop bug"),
    }
}

} // verus!
