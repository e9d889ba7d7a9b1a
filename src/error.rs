//! Errors of the layout and parsing steps.
use vstd::prelude::*;

verus! {

/// Why a log line could not be turned into display lines.
#[derive(Clone, Copy, Debug, PartialEq, Eq, Structural)]
pub enum LogError {
    /// The filter is not a valid regular expression.
    InvalidFilter,
    /// The line has a header whose timestamp does not convert to an instant.
    BadTimestamp,
    /// A grapheme cluster cannot be placed within the column width.
    LayoutImpossible,
}

/// The description of an error.
pub open spec fn error_message(e: LogError) -> Seq<char> {
    match e {
        LogError::InvalidFilter => "invalid filter expression"@,
        LogError::BadTimestamp => "timestamp conversion failed"@,
        LogError::LayoutImpossible => "impossible to break span to the column width"@,
    }
}

impl LogError {
    /// A short description of the error.
    pub fn message(&self) -> (r: String)
        ensures
            r@ == error_message(*self),
    {
        match self {
            LogError::InvalidFilter => String::from_str("invalid filter expression"),
            LogError::BadTimestamp => String::from_str("timestamp conversion failed"),
            LogError::LayoutImpossible => String::from_str("impossible to break span to the column width"),
        }
    }
}

} // verus!
