//! Errors of the server core.
use vstd::prelude::*;

verus! {

/// The errors that the core operations report. Paths and the messages of
/// lower-level failures are carried as text.
#[derive(Debug)]
pub enum Error {
    RepoNotFound(String),
    PathTraversal(String),
    InvalidRepo(String, String),
    Protocol(String),
    Git(String),
    Io(String),
}

/// The human-readable message of an error.
pub open spec fn error_message(e: Error) -> Seq<char> {
    match e {
        Error::RepoNotFound(s) => "repository not found: "@ + s@,
        Error::PathTraversal(p) => "path traversal rejected: "@ + p@,
        Error::InvalidRepo(p, m) => "invalid repository at "@ + p@ + ": "@ + m@,
        Error::Protocol(m) => "protocol error: "@ + m@,
        Error::Git(m) => "git operation failed: "@ + m@,
        Error::Io(m) => "io error: "@ + m@,
    }
}

/// Concatenation of a literal and a string.
pub fn join_str(lead: &str, rest: &str) -> (r: String)
    ensures
        r@ == lead@ + rest@,
{
    let mut r = String::from_str(lead);
    r.append(rest);
    r
}

impl Error {
    /// The message of this error, as its `Display` would render it.
    pub fn to_string(&self) -> (r: String)
        ensures
            r@ == error_message(*self),
    {
        match self {
            Error::RepoNotFound(s) => join_str("repository not found: ", s.as_str()),
            Error::PathTraversal(p) => join_str("path traversal rejected: ", p.as_str()),
            Error::InvalidRepo(p, m) => {
                let mut r = join_str("invalid repository at ", p.as_str());
                r.append(": ");
                r.append(m.as_str());
                r
            },
            Error::Protocol(m) => join_str("protocol error: ", m.as_str()),
            Error::Git(m) => join_str("git operation failed: ", m.as_str()),
            Error::Io(m) => join_str("io error: ", m.as_str()),
        }
    }
}

} // verus!
