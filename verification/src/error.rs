use vstd::prelude::*;

verus! {

/// The failure kinds of the store, the codec and the server.
#[derive(Debug)]
pub enum KvsError {
    /// A free-form error carrying rendered text; used on the wire to hand
    /// server-side error text to clients and to report an engine mismatch.
    StringError(String),
    /// A string decoding failure.
    Utf8Error(String),
    /// An underlying I/O failure, rendered to text by the caller that saw it.
    Io(String),
    /// A record or protocol encoding/decoding failure: corruption in a log
    /// or a protocol violation on a connection.
    Serde(String),
    /// `remove` was called on an absent key.
    KeyNotFound,
    /// A log position indexed as a `Set` did not hold a `Set` record.
    UnexpectedCommandType,
}

impl KvsError {
    /// The rendered error text, as printed for users and sent on the wire.
    pub open spec fn spec_message(&self) -> Seq<char> {
        match self {
            KvsError::StringError(s) => s@,
            KvsError::Utf8Error(s) => s@,
            KvsError::Io(s) => s@,
            KvsError::Serde(s) => s@,
            KvsError::KeyNotFound => "Key not found"@,
            KvsError::UnexpectedCommandType => "Unexpected command type"@,
        }
    }

    /// Render this error to its user-visible text.
    pub fn message(&self) -> (r: String)
        ensures
            r@ == self.spec_message(),
    {
        match self {
            KvsError::StringError(s) => s.clone(),
            KvsError::Utf8Error(s) => s.clone(),
            KvsError::Io(s) => s.clone(),
            KvsError::Serde(s) => s.clone(),
            KvsError::KeyNotFound => "Key not found".to_owned(),
            KvsError::UnexpectedCommandType => "Unexpected command type".to_owned(),
        }
    }
}

} // verus!
