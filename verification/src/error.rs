//! Errors reported to the editor's front end.
use vstd::prelude::*;

verus! {

/// Why a command failed.
#[derive(Debug, Clone, PartialEq, Eq)]
pub enum AppError {
    FileTooLarge,
    NotAFile,
    NotADirectory,
    WorkspaceTooLarge,
    Conflict,
    InvalidStateKey,
    /// The application data directory could not be determined.
    StatePath(String),
    /// A file-system operation failed; the text is the operating system's message.
    Io(String),
    /// Walking a workspace failed; the text is the walker's message.
    Walk(String),
}

/// A failed file-system operation, as the library needs to see it.
#[derive(Debug, Clone, PartialEq, Eq)]
pub struct IoFailure {
    /// The failure was that the file does not exist.
    pub not_found: bool,
    /// The operating system's message.
    pub message: String,
}

/// The message shown to the user for an error.
pub open spec fn spec_error_message(e: AppError) -> Seq<char> {
    match e {
        AppError::FileTooLarge => "The selected file is larger than 16 MB"@,
        AppError::NotAFile => "The selected path is not a regular file"@,
        AppError::NotADirectory => "The selected workspace path is not a folder"@,
        AppError::WorkspaceTooLarge => "The workspace contains more than 20,000 Markdown files"@,
        AppError::Conflict => "The file changed on disk before it could be saved"@,
        AppError::InvalidStateKey => "Invalid application state key"@,
        AppError::StatePath(m) => "Application state path error: "@ + m@,
        AppError::Io(m) => m@,
        AppError::Walk(m) => m@,
    }
}

impl AppError {
    /// The message shown to the user for this error.
    pub fn message(&self) -> (res: String)
        ensures
            res@ == spec_error_message(*self),
    {
        match self {
            AppError::FileTooLarge => String::from_str("The selected file is larger than 16 MB"),
            AppError::NotAFile => String::from_str("The selected path is not a regular file"),
            AppError::NotADirectory => String::from_str(
                "The selected workspace path is not a folder",
            ),
            AppError::WorkspaceTooLarge => String::from_str(
                "The workspace contains more than 20,000 Markdown files",
            ),
            AppError::Conflict => String::from_str(
                "The file changed on disk before it could be saved",
            ),
            AppError::InvalidStateKey => String::from_str("Invalid application state key"),
            AppError::StatePath(m) => {
                let mut res = String::from_str("Application state path error: ");
                res.append(m.as_str());
                res
            },
            AppError::Io(m) => m.clone(),
            AppError::Walk(m) => m.clone(),
        }
    }

    /// The error for a failed file-system operation.
    pub fn from_io(failure: IoFailure) -> (res: AppError)
        ensures
            res == AppError::Io(failure.message),
    {
        AppError::Io(failure.message)
    }
}

} // verus!
