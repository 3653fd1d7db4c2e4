//! Typed errors for I/O, coverage input, target discovery, collection, and
//! report output.
use crate::text::{concat, owned};
use vstd::prelude::*;

verus! {

/// `std::io::Error`, carried opaquely inside [`Error::Io`].
#[verifier::external_type_specification]
#[verifier::external_body]
pub struct ExIoError(std::io::Error);

/// Failure that stops a run before a complete report.
#[derive(Debug)]
pub enum Error {
    /// A filesystem read or walk failed.
    Io {
        /// Path that could not be used.
        path: String,
        /// Underlying operating-system error.
        source: std::io::Error,
    },
    /// Coverage content is empty or has no valid line-hit records.
    Coverage(String),
    /// Target discovery failed.
    Resolve(String),
    /// Source collection failed (one or more files).
    Collect(String),
    /// The report could not be written or encoded.
    Report(String),
}

/// The text of an I/O error (`Display` of `std::io::Error`).
///
/// The text comes from the operating system, so nothing is stated about it.
#[verifier::external_body]
pub(crate) fn io_error_text(e: &std::io::Error) -> String {
    format!("{e}")
}

impl Error {
    /// Builds an I/O error for `path`.
    pub fn io(path: &str, source: std::io::Error) -> (e: Error)
        ensures
            e matches Error::Io { path: p, .. } && p@ == path@,
    {
        Error::Io { path: owned(path), source }
    }

    /// Builds a coverage-input error from `message`.
    pub fn coverage(message: &str) -> (e: Error)
        ensures
            e matches Error::Coverage(m) && m@ == message@,
    {
        Error::Coverage(owned(message))
    }

    /// Builds a target-discovery error from `message`.
    pub fn resolve(message: &str) -> (e: Error)
        ensures
            e matches Error::Resolve(m) && m@ == message@,
    {
        Error::Resolve(owned(message))
    }

    /// Builds a collect error from `message`.
    pub fn collect(message: &str) -> (e: Error)
        ensures
            e matches Error::Collect(m) && m@ == message@,
    {
        Error::Collect(owned(message))
    }

    /// Builds a report error from `message`.
    pub fn report(message: &str) -> (e: Error)
        ensures
            e matches Error::Report(m) && m@ == message@,
    {
        Error::Report(owned(message))
    }

    /// The underlying I/O error, present only for [`Error::Io`].
    pub fn source(&self) -> (r: Option<&std::io::Error>)
        ensures
            r is Some <==> self is Io,
            r matches Some(e) ==> (self matches Error::Io { source, .. } && *e == source),
    {
        match self {
            Error::Io { source, .. } => Some(source),
            _ => None,
        }
    }

    /// The message shown to the user: the message itself, or
    /// `path: os-error` for an I/O failure.
    pub fn to_string(&self) -> (s: String)
        ensures
            self matches Error::Coverage(m) ==> s@ == m@,
            self matches Error::Resolve(m) ==> s@ == m@,
            self matches Error::Collect(m) ==> s@ == m@,
            self matches Error::Report(m) ==> s@ == m@,
            self matches Error::Io { path, .. } ==> s@.len() >= path@.len() + 2 && s@.subrange(
                0,
                path@.len() + 2int,
            ) == path@ + ": "@,
    {
        match self {
            Error::Coverage(m) => m.clone(),
            Error::Resolve(m) => m.clone(),
            Error::Collect(m) => m.clone(),
            Error::Report(m) => m.clone(),
            Error::Io { path, source } => {
                let head = concat(path.as_str(), ": ");
                let text = io_error_text(source);
                let r = concat(head.as_str(), text.as_str());
                proof {
                    reveal_strlit(": ");
                    assert(r@.subrange(0, path@.len() + 2int) =~= path@ + ": "@);
                }
                r
            },
        }
    }
}

} // verus!
