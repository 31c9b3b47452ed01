//! The library's error type.

use vstd::prelude::*;

verus! {

/// What can go wrong while one connection is served.
#[derive(Debug)]
pub enum AppError {
    /// The request text broke the wire format; carries a description of the
    /// violation.
    ParseError(String),
    /// A socket or log-file failure, described as text.
    IoError(String),
    /// Any other failure, described as text.
    Unexpected(String),
}

impl AppError {
    /// The description this error reports itself with.
    pub open spec fn spec_message(&self) -> Seq<char> {
        match self {
            AppError::ParseError(m) => "Failed to parse request: "@ + m@,
            AppError::IoError(m) => "I/O error: "@ + m@,
            AppError::Unexpected(m) => "Unexpected error: "@ + m@,
        }
    }

    /// Renders the description of this error.
    pub fn message(&self) -> (r: String)
        ensures
            r@ == self.spec_message(),
    {
        match self {
            AppError::ParseError(m) => {
                let mut s: String = "Failed to parse request: ".to_owned();
                s.append(m.as_str());
                s
            },
            AppError::IoError(m) => {
                let mut s: String = "I/O error: ".to_owned();
                s.append(m.as_str());
                s
            },
            AppError::Unexpected(m) => {
                let mut s: String = "Unexpected error: ".to_owned();
                s.append(m.as_str());
                s
            },
        }
    }
}

} // verus!
