//! The kinds of failure that the note engine reports.
use vstd::prelude::*;

use vstd::string::StringExecFns;

verus! {

/// A failure, with a message that says what failed.
pub enum AppError {
    Io(String),
    Database(String),
    NotFound(String),
    InvalidInput(String),
    LockPoisoned(String),
}

/// The text of an error: its kind, then its message.
pub open spec fn error_text(e: AppError) -> Seq<char> {
    match e {
        AppError::Io(m) => "IO error: "@ + m@,
        AppError::Database(m) => "Database error: "@ + m@,
        AppError::NotFound(m) => "Not found: "@ + m@,
        AppError::InvalidInput(m) => "Invalid input: "@ + m@,
        AppError::LockPoisoned(m) => "Lock poisoned: "@ + m@,
    }
}

impl AppError {
    /// The text of the error, as a user sees it.
    pub fn message(&self) -> (r: String)
        ensures
            r@ == error_text(*self),
    {
        let (head, m) = match self {
            AppError::Io(m) => ("IO error: ", m),
            AppError::Database(m) => ("Database error: ", m),
            AppError::NotFound(m) => ("Not found: ", m),
            AppError::InvalidInput(m) => ("Invalid input: ", m),
            AppError::LockPoisoned(m) => ("Lock poisoned: ", m),
        };
        let mut out = String::from_str(head);
        out.append(m.as_str());
        out
    }
}

} // verus!
