//! The failures that the operations of this crate report.

use vstd::prelude::*;
use vstd::string::*;

verus! {

/// A typed failure. Each variant carries the text that completes its message.
#[derive(Debug, Clone, PartialEq, Eq)]
pub enum AppError {
    /// A file that had to exist does not. Carries its path.
    NotFound(String),
    /// A file that had to be absent exists. Carries its path.
    AlreadyExists(String),
    /// The path does not name an existing directory. Carries the path.
    NotDirectory(String),
    /// A file name that would leave its target directory. Carries the name.
    PathTraversal(String),
    /// The operating system refused an operation. Carries its message.
    Io(String),
    /// The git executable failed. Carries what it reported.
    Git(String),
    /// A request could not be sent or answered. Carries the reason.
    Network(String),
    /// Something that is asked for is not supported, such as a method or an
    /// image extension. Carries the whole message.
    Unsupported(String),
    /// Anything else. Carries the whole message.
    Other(String),
}

impl AppError {
    /// The short human-readable message of the failure.
    pub open spec fn message_text(self) -> Seq<char> {
        match self {
            AppError::NotFound(p) => "File not found: "@ + p@,
            AppError::AlreadyExists(p) => "File already exists: "@ + p@,
            AppError::NotDirectory(p) => "Not a directory: "@ + p@,
            AppError::PathTraversal(p) => "Path traversal detected: "@ + p@,
            AppError::Io(m) => m@,
            AppError::Git(m) => "Git error: "@ + m@,
            AppError::Network(m) => "Network error: "@ + m@,
            AppError::Unsupported(m) => m@,
            AppError::Other(m) => m@,
        }
    }

    /// The text that the failure carries.
    pub open spec fn detail(self) -> Seq<char> {
        match self {
            AppError::NotFound(p) => p@,
            AppError::AlreadyExists(p) => p@,
            AppError::NotDirectory(p) => p@,
            AppError::PathTraversal(p) => p@,
            AppError::Io(m) => m@,
            AppError::Git(m) => m@,
            AppError::Network(m) => m@,
            AppError::Unsupported(m) => m@,
            AppError::Other(m) => m@,
        }
    }

    /// Renders the failure as the message shown to the user.
    pub fn message(&self) -> (text: String)
        ensures
            text@ == self.message_text(),
    {
        match self {
            AppError::NotFound(p) => String::from_str("File not found: ").concat(p.as_str()),
            AppError::AlreadyExists(p) => String::from_str("File already exists: ").concat(
                p.as_str(),
            ),
            AppError::NotDirectory(p) => String::from_str("Not a directory: ").concat(p.as_str()),
            AppError::PathTraversal(p) => String::from_str("Path traversal detected: ").concat(
                p.as_str(),
            ),
            AppError::Io(m) => m.clone(),
            AppError::Git(m) => String::from_str("Git error: ").concat(m.as_str()),
            AppError::Network(m) => String::from_str("Network error: ").concat(m.as_str()),
            AppError::Unsupported(m) => m.clone(),
            AppError::Other(m) => m.clone(),
        }
    }
}

} // verus!
