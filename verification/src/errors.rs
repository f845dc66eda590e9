//! The error type shared by the whole library.

use vstd::prelude::*;

verus! {

/// What can go wrong while encoding.
#[derive(Debug, Clone, PartialEq, Eq)]
pub enum ParquetError {
    /// A recoverable failure, with a message for the user.
    General(String),
    /// The requested combination is not supported.
    NYI(String),
    /// The input ended too early.
    EOF(String),
}

/// Whether `e` is a general error with the message `text`.
pub open spec fn is_general_error(e: ParquetError, text: Seq<char>) -> bool {
    e matches ParquetError::General(m) && m@ == text
}

impl ParquetError {
    /// The message that the error carries.
    pub fn message(&self) -> (m: &String)
        ensures
            *m == match *self {
                ParquetError::General(s) => s,
                ParquetError::NYI(s) => s,
                ParquetError::EOF(s) => s,
            },
    {
        match self {
            ParquetError::General(s) => s,
            ParquetError::NYI(s) => s,
            ParquetError::EOF(s) => s,
        }
    }
}

} // verus!
