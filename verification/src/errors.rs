//! Error taxonomy of the engine.
//!
//! Every failure that crosses the engine boundary carries a stable,
//! machine-readable code (see [`AuddNativeError::code`]) next to a
//! human-readable message, so callers can dispatch on the code without
//! parsing prose.

use vstd::prelude::*;
use vstd::string::StringExecFns;

verus! {

/// Errors surfaced by the engine and its boundary.
#[derive(Debug, Clone, PartialEq, Eq)]
pub enum AuddNativeError {
    /// A document or argument was malformed; caught before any algorithm runs.
    InvalidInput(String),
    /// The requested source type has no ingestion collaborator.
    UnsupportedSource(String),
    /// The requested format has no ingestion collaborator.
    UnsupportedFormat(String),
    /// A database connection could not be established.
    DbConnectionFailed(String),
    /// An external resource failed to read or write.
    IoError(String),
    /// An engine invariant was violated; treated as a bug.
    InternalError(String),
    /// The operation was cancelled.
    Cancelled,
    /// The operation timed out.
    Timeout,
    /// A document was malformed on the wire.
    JsonError(String),
}

impl AuddNativeError {
    /// The stable machine-readable code of this error.
    pub fn code(&self) -> (r: &'static str)
        ensures
            self is InvalidInput ==> r@ == "INVALID_INPUT"@,
            self is UnsupportedSource ==> r@ == "UNSUPPORTED_SOURCE"@,
            self is UnsupportedFormat ==> r@ == "UNSUPPORTED_FORMAT"@,
            self is DbConnectionFailed ==> r@ == "DB_CONNECTION_FAILED"@,
            self is IoError ==> r@ == "IO_ERROR"@,
            self is InternalError ==> r@ == "INTERNAL_ERROR"@,
            self is Cancelled ==> r@ == "CANCELLED"@,
            self is Timeout ==> r@ == "TIMEOUT"@,
            self is JsonError ==> r@ == "JSON_ERROR"@,
    {
        match self {
            Self::InvalidInput(_) => "INVALID_INPUT",
            Self::UnsupportedSource(_) => "UNSUPPORTED_SOURCE",
            Self::UnsupportedFormat(_) => "UNSUPPORTED_FORMAT",
            Self::DbConnectionFailed(_) => "DB_CONNECTION_FAILED",
            Self::IoError(_) => "IO_ERROR",
            Self::InternalError(_) => "INTERNAL_ERROR",
            Self::Cancelled => "CANCELLED",
            Self::Timeout => "TIMEOUT",
            Self::JsonError(_) => "JSON_ERROR",
        }
    }

    /// The human-readable message of this error: a fixed prefix naming the
    /// failure, followed by the detail the failure site recorded.
    pub fn message(&self) -> (r: String)
        ensures
            self matches AuddNativeError::InvalidInput(d) ==> r@ == "Invalid input: "@ + d@,
            self matches AuddNativeError::UnsupportedSource(d) ==> r@ == "Unsupported source type: "@ + d@,
            self matches AuddNativeError::UnsupportedFormat(d) ==> r@ == "Unsupported format: "@ + d@,
            self matches AuddNativeError::DbConnectionFailed(d) ==> r@ == "Database connection failed: "@ + d@,
            self matches AuddNativeError::IoError(d) ==> r@ == "IO error: "@ + d@,
            self matches AuddNativeError::InternalError(d) ==> r@ == "Internal error: "@ + d@,
            self is Cancelled ==> r@ == "Operation cancelled"@,
            self is Timeout ==> r@ == "Operation timeout"@,
            self matches AuddNativeError::JsonError(d) ==> r@ == "JSON error: "@ + d@,
    {
        match self {
            Self::InvalidInput(d) => String::from_str("Invalid input: ").concat(d.as_str()),
            Self::UnsupportedSource(d) => String::from_str("Unsupported source type: ").concat(d.as_str()),
            Self::UnsupportedFormat(d) => String::from_str("Unsupported format: ").concat(d.as_str()),
            Self::DbConnectionFailed(d) => String::from_str("Database connection failed: ").concat(d.as_str()),
            Self::IoError(d) => String::from_str("IO error: ").concat(d.as_str()),
            Self::InternalError(d) => String::from_str("Internal error: ").concat(d.as_str()),
            Self::Cancelled => String::from_str("Operation cancelled"),
            Self::Timeout => String::from_str("Operation timeout"),
            Self::JsonError(d) => String::from_str("JSON error: ").concat(d.as_str()),
        }
    }
}

} // verus!
