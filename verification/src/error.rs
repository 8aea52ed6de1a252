//! The error taxonomy shared by every operation of the crate.

use vstd::prelude::*;
use vstd::string::StringExecFns;

verus! {

/// Why an operation failed.
///
/// `NotFound` reports a missing resource (a path handed in by the caller,
/// an attachment index past the end).  `Validation` reports an operation
/// called in a state or with arguments that violate its precondition.
/// `Io` carries the text of an underlying input/output failure.
/// `MboxShell` reports content that could not be parsed: a malformed
/// message, an undecodable part, or bad query syntax.
#[derive(Debug, Clone)]
pub enum AppError {
    NotFound(String),
    Validation(String),
    Io(String),
    MboxShell(String),
}

impl AppError {
    /// The human-readable text of the error: a fixed prefix naming the
    /// kind, then the detail the variant carries.
    pub open spec fn message_spec(&self) -> Seq<char> {
        match self {
            AppError::NotFound(s) => "Not found: "@ + s@,
            AppError::Validation(s) => "Validation error: "@ + s@,
            AppError::Io(s) => "IO error: "@ + s@,
            AppError::MboxShell(s) => "MBOX error: "@ + s@,
        }
    }

    /// Render the error as its message text.
    pub fn message(&self) -> (r: String)
        ensures
            r@ == self.message_spec(),
    {
        match self {
            AppError::NotFound(s) => {
                let mut m = String::from_str("Not found: ");
                m.append(s.as_str());
                m
            },
            AppError::Validation(s) => {
                let mut m = String::from_str("Validation error: ");
                m.append(s.as_str());
                m
            },
            AppError::Io(s) => {
                let mut m = String::from_str("IO error: ");
                m.append(s.as_str());
                m
            },
            AppError::MboxShell(s) => {
                let mut m = String::from_str("MBOX error: ");
                m.append(s.as_str());
                m
            },
        }
    }
}

} // verus!
