//! Typed errors for usage, I/O, workspace metadata, and analysis failures.
use crate::error::io_error_text;
use crate::text::{concat, owned};
use vstd::prelude::*;

verus! {

/// Failure that stops a Rust-frontend run before a complete report.
#[derive(Debug)]
pub enum Error {
    /// Invalid flags or missing required values.
    Usage(String),
    /// A filesystem read or walk failed.
    Io {
        /// Path that could not be used.
        path: String,
        /// Underlying operating-system error.
        source: std::io::Error,
    },
    /// Workspace metadata failed or had an unexpected shape.
    Metadata(String),
    /// A selected package name is not a workspace member.
    UnknownPackage(String),
    /// A Rust source file could not be parsed.
    Parse(String),
}

/// The message shown for an error that carries no operating-system text.
pub open spec fn error_text(e: Error) -> Seq<char> {
    match e {
        Error::Usage(m) => m@,
        Error::Parse(m) => m@,
        Error::Metadata(m) => "cargo metadata: "@ + m@,
        Error::UnknownPackage(name) => "unknown package `"@ + name@ + "`"@,
        Error::Io { path, .. } => path@,
    }
}

impl Error {
    /// Builds a usage error from `message`.
    pub fn usage(message: &str) -> (e: Error)
        ensures
            e matches Error::Usage(m) && m@ == message@,
    {
        Error::Usage(owned(message))
    }

    /// Builds an I/O error for `path`.
    pub fn io(path: &str, source: std::io::Error) -> (e: Error)
        ensures
            e matches Error::Io { path: p, .. } && p@ == path@,
    {
        Error::Io { path: owned(path), source }
    }

    /// The underlying I/O error, present only for [`Error::Io`].
    pub fn source(&self) -> (r: Option<&std::io::Error>)
        ensures
            r is Some <==> self is Io,
            r matches Some(e) ==> (self matches Error::Io { source, .. } && *e == source),
    {
        match self {
            Error::Io { source, .. } => Some(source),
            _ => None,
        }
    }

    /// The message shown to the user.
    pub fn to_string(&self) -> (s: String)
        ensures
            !(self is Io) ==> s@ == error_text(*self),
            self matches Error::Io { path, .. } ==> s@.len() >= path@.len() + 2 && s@.subrange(
                0,
                path@.len() + 2int,
            ) == path@ + ": "@,
    {
        match self {
            Error::Usage(m) => m.clone(),
            Error::Parse(m) => m.clone(),
            Error::Metadata(m) => concat("cargo metadata: ", m.as_str()),
            Error::UnknownPackage(name) => {
                let head = concat("unknown package `", name.as_str());
                concat(head.as_str(), "`")
            },
            Error::Io { path, source } => {
                let head = concat(path.as_str(), ": ");
                let text = io_error_text(source);
                let r = concat(head.as_str(), text.as_str());
                proof {
                    reveal_strlit(": ");
                    assert(r@.subrange(0, path@.len() + 2int) =~= path@ + ": "@);
                }
                r
            },
        }
    }
}

/// The warning for a source file that was passed over.
pub fn parse_warning(path: &str, err: &Error) -> (w: String)
    ensures
        !(err is Io) ==> w@ == "skipping "@ + path@ + ": "@ + error_text(*err),
        w@.len() >= 11 + path@.len() && w@.subrange(0, 11int + path@.len()) == "skipping "@ + path@ + ": "@,
{
    let head = concat("skipping ", path);
    let head2 = concat(head.as_str(), ": ");
    proof {
        reveal_strlit("skipping ");
        reveal_strlit(": ");
    }
    let text = err.to_string();
    let w = concat(head2.as_str(), text.as_str());
    assert(w@.subrange(0, 11int + path@.len()) =~= "skipping "@ + path@ + ": "@);
    w
}

} // verus!
