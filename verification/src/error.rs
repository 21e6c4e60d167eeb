//! The error kinds the core can surface: malformed URLs, undecodable
//! responses or files, missing packages and files, and version
//! conflicts.  Network and filesystem failures stay with the caller
//! that performs the I/O.

use vstd::prelude::*;

verus! {

#[derive(Debug)]
pub enum Error {
    /// The repository URL lacks the source-host prefix, has fewer
    /// than two path segments, or pins no concrete commit.
    MalformedUrl,
    /// A response body or file had an unexpected shape; carries the
    /// offending text.
    Decode(String),
    /// A package, file or manifest was not found; carries a message.
    NotFound(String),
    /// Two records of one name could not be collapsed; carries both,
    /// serialized.
    VersionConflict(String, String),
}

impl Error {
    /// A human-readable rendering of the error.
    pub fn message(&self) -> (r: String)
        ensures
            match self {
                Error::MalformedUrl => r@ == "invalid url"@,
                Error::Decode(s) => r@ == s@,
                Error::NotFound(s) => r@ == s@,
                Error::VersionConflict(a, b) => r@ == "Version conflict:\n"@ + a@ + "\nand\n\n"@
                    + b@,
            },
    {
        match self {
            Error::MalformedUrl => "invalid url".to_owned(),
            Error::Decode(s) => s.as_str().to_owned(),
            Error::NotFound(s) => s.as_str().to_owned(),
            Error::VersionConflict(a, b) => {
                let mut r = "Version conflict:\n".to_owned();
                r.append(a.as_str());
                r.append("\nand\n\n");
                r.append(b.as_str());
                r
            },
        }
    }
}

} // verus!
