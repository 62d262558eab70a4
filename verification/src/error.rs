//! The error type of configuration operations.

use vstd::prelude::*;

verus! {

/// Error type for configuration operations.
#[derive(Debug)]
pub enum Error {
    /// Error from a source, with its message.
    Source(String),
    /// Error during deserialization.
    Deserialize(String),
    /// Error during merging.
    Merge(String),
    /// A field value that could not be parsed.
    Parse(String),
}

/// Result type for configuration operations.
pub type Result<T> = core::result::Result<T, Error>;

impl Error {
    /// The text under which the error is shown to a user: the kind of the
    /// error, a colon, and its message.
    pub open spec fn display(&self) -> Seq<char> {
        match self {
            Error::Source(m) => "Source error: "@ + m@,
            Error::Deserialize(m) => "Deserialization error: "@ + m@,
            Error::Merge(m) => "Merge error: "@ + m@,
            Error::Parse(m) => "Parse error: "@ + m@,
        }
    }

    /// The text under which the error is shown to a user.
    pub fn message(&self) -> (s: String)
        ensures
            s@ == self.display(),
    {
        let (head, m) = match self {
            Error::Source(m) => ("Source error: ", m),
            Error::Deserialize(m) => ("Deserialization error: ", m),
            Error::Merge(m) => ("Merge error: ", m),
            Error::Parse(m) => ("Parse error: ", m),
        };
        let mut s = String::from_str(head);
        s.append(m.as_str());
        s
    }
}

} // verus!
