//! The failures an operation of the index can report.

use vstd::prelude::*;

verus! {

/// A failure, by kind, with the text that describes it.
#[derive(Debug)]
pub enum AppError {
    /// A file or directory could not be read or written.
    Io(String),
    /// An archive container could not be opened or read.
    Zip(String),
    /// A text pattern could not be compiled.
    Regex(String),
    /// The persisted state could not be decoded or encoded.
    SerdeJson(String),
    /// Any other failure, described in words.
    Message(String),
}

impl AppError {
    /// The text carried by the failure.
    pub open spec fn text(self) -> Seq<char> {
        match self {
            AppError::Io(text) => text@,
            AppError::Zip(text) => text@,
            AppError::Regex(text) => text@,
            AppError::SerdeJson(text) => text@,
            AppError::Message(text) => text@,
        }
    }

    /// The failure as a line of text for a caller or a log.
    pub fn message(&self) -> (out: String)
        ensures
            out@ == self.text(),
    {
        match self {
            AppError::Io(text) => text.clone(),
            AppError::Zip(text) => text.clone(),
            AppError::Regex(text) => text.clone(),
            AppError::SerdeJson(text) => text.clone(),
            AppError::Message(text) => text.clone(),
        }
    }
}

} // verus!
