//! The error taxonomy of the stack store: store errors, filesystem errors,
//! not-found, conflicts, and argument errors, each carrying the specific
//! name, path or token involved.

use vstd::prelude::*;
use vstd::string::StringExecFns;

verus! {

/// One error of the stack store. Every variant carries a human-readable
/// detail string naming the offending item, path or token.
#[derive(Debug)]
pub enum FstkError {
    DatabaseError(String),
    FileSystemError(String),
    ItemNotFound(String),
    TagError(String),
    DestinationConflict(String),
    PermissionDenied(String),
    InvalidArgument(String),
    IoError(String),
    Other(String),
}

impl FstkError {
    /// The display text of the error: a fixed prefix naming the category,
    /// followed by the detail string.
    pub fn message(&self) -> (r: String)
        ensures
            r@ == self.spec_message(),
    {
        match self {
            FstkError::DatabaseError(m) => String::from_str("Database error: ").concat(m.as_str()),
            FstkError::FileSystemError(m) => String::from_str("File system error: ").concat(
                m.as_str(),
            ),
            FstkError::ItemNotFound(m) => String::from_str("Item not found: ").concat(m.as_str()),
            FstkError::TagError(m) => String::from_str("Tag error: ").concat(m.as_str()),
            FstkError::DestinationConflict(m) => String::from_str(
                "Destination conflict: ",
            ).concat(m.as_str()),
            FstkError::PermissionDenied(m) => String::from_str("Permission denied: ").concat(
                m.as_str(),
            ),
            FstkError::InvalidArgument(m) => String::from_str("Invalid argument: ").concat(
                m.as_str(),
            ),
            FstkError::IoError(m) => String::from_str("IO error: ").concat(m.as_str()),
            FstkError::Other(m) => String::from_str("Other error: ").concat(m.as_str()),
        }
    }

    /// What `message` returns, variant by variant.
    pub open spec fn spec_message(&self) -> Seq<char> {
        match self {
            FstkError::DatabaseError(m) => "Database error: "@ + m@,
            FstkError::FileSystemError(m) => "File system error: "@ + m@,
            FstkError::ItemNotFound(m) => "Item not found: "@ + m@,
            FstkError::TagError(m) => "Tag error: "@ + m@,
            FstkError::DestinationConflict(m) => "Destination conflict: "@ + m@,
            FstkError::PermissionDenied(m) => "Permission denied: "@ + m@,
            FstkError::InvalidArgument(m) => "Invalid argument: "@ + m@,
            FstkError::IoError(m) => "IO error: "@ + m@,
            FstkError::Other(m) => "Other error: "@ + m@,
        }
    }
}

/// Relies on std::io::Error, carried through opaquely so that errors from the
/// surrounding application's filesystem work can be converted.
#[verifier::external_type_specification]
#[verifier::external_body]
pub struct ExIoError(std::io::Error);

/// Relies on anyhow::Error, carried through opaquely so that errors from the
/// surrounding application can be converted.
#[verifier::external_type_specification]
#[verifier::external_body]
pub struct ExAnyhowError(anyhow::Error);

/// Relies on rusqlite::Error, carried through opaquely so that errors from the
/// surrounding application's database work can be converted.
#[verifier::external_type_specification]
#[verifier::external_body]
pub struct ExSqliteError(rusqlite::Error);

impl From<std::io::Error> for FstkError {
    /// Relies on std::io::Error's Display implementation for the detail text.
    #[verifier::external_body]
    fn from(error: std::io::Error) -> (r: Self)
        ensures
            r is IoError,
    {
        FstkError::IoError(error.to_string())
    }
}

impl From<rusqlite::Error> for FstkError {
    /// Relies on rusqlite::Error's Display implementation for the detail text.
    #[verifier::external_body]
    fn from(error: rusqlite::Error) -> (r: Self)
        ensures
            r is DatabaseError,
    {
        FstkError::DatabaseError(error.to_string())
    }
}

impl From<anyhow::Error> for FstkError {
    /// Relies on anyhow::Error's Display implementation for the detail text.
    #[verifier::external_body]
    fn from(error: anyhow::Error) -> (r: Self)
        ensures
            r is Other,
    {
        FstkError::Other(error.to_string())
    }
}

} // verus!
