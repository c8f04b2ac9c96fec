//! The errors that the task store and its callers report.

use vstd::prelude::*;

verus! {

/// Why an operation was refused.
#[derive(Debug)]
pub enum Error {
    /// A rule of the task list refused the request; the text says which.
    Domain(String),
    /// The stored data broke a storage constraint; the text says which.
    Database(String),
    /// Neither `XDG_DATA_HOME` nor `HOME` names a data directory.
    DataDirectory,
    /// The editor command could not be parsed or was empty.
    EditorCommand(String),
}

/// Text of the data-directory error.
pub open spec fn data_directory_text() -> Seq<char> {
    "cannot determine data directory: set XDG_DATA_HOME or HOME"@
}

/// The text that describes an error to the user.
pub open spec fn error_text(e: Error) -> Seq<char> {
    match e {
        Error::Domain(m) => m@,
        Error::Database(m) => "database error: "@ + m@,
        Error::DataDirectory => data_directory_text(),
        Error::EditorCommand(m) => "invalid editor command: "@ + m@,
    }
}

impl Error {
    /// A domain error with the given message.
    pub fn domain(message: String) -> (e: Error)
        ensures
            e == Error::Domain(message),
    {
        Error::Domain(message)
    }

    /// The text that describes this error to the user.
    pub fn message(&self) -> (r: String)
        ensures
            r@ == error_text(*self),
    {
        match self {
            Error::Domain(m) => m.clone(),
            Error::Database(m) => {
                let mut r = String::from_str("database error: ");
                r.append(m.as_str());
                r
            },
            Error::DataDirectory => String::from_str(
                "cannot determine data directory: set XDG_DATA_HOME or HOME",
            ),
            Error::EditorCommand(m) => {
                let mut r = String::from_str("invalid editor command: ");
                r.append(m.as_str());
                r
            },
        }
    }
}

} // verus!
