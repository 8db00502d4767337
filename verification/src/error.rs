//! What can go wrong.

use vstd::prelude::*;

verus! {

/// Every error of the library and of the program around it.
#[derive(Debug, PartialEq, Eq)]
pub enum Error {
    /// A file could not be read or written.
    Io(String),
    /// A JSON file does not have the expected shape.
    Json(String),
    /// A table file could not be decoded, or two tables do not fit together.
    Polars(String),
    /// A value was outside its accepted range, or otherwise invalid.
    InvalidArgument(String),
    /// A requested item was not found.
    NotFound(String),
    /// An item exists already where it has to be unique.
    AlreadyExists(String),
    /// The user's home directory could not be determined.
    NoHomeDir,
    /// A request to an external service failed, or its answer had another shape.
    Network(String),
    /// A table has no row id column, or a row without a row id.
    RowIdsMissing(String),
    /// Another handle holds the change log at `path`.
    SyncLogLocked { path: String },
    /// A batch of changes does not fit this device's data.
    MergeRejected(String),
    /// Assigning row ids failed on `path`.
    RowIdMigration { path: String, source: String },
    /// The backup before a reset of the change log failed.
    SyncResetBackup(String),
    /// Another device sent a message that makes no sense.
    SyncProtocol(String),
    /// An exchange with another device was refused.
    SyncRefused(String),
}

/// What an [`Error`] says.
pub enum ErrorView {
    Io(Seq<char>),
    Json(Seq<char>),
    Polars(Seq<char>),
    InvalidArgument(Seq<char>),
    NotFound(Seq<char>),
    AlreadyExists(Seq<char>),
    NoHomeDir,
    Network(Seq<char>),
    RowIdsMissing(Seq<char>),
    SyncLogLocked(Seq<char>),
    MergeRejected(Seq<char>),
    RowIdMigration(Seq<char>, Seq<char>),
    SyncResetBackup(Seq<char>),
    SyncProtocol(Seq<char>),
    SyncRefused(Seq<char>),
}

impl View for Error {
    type V = ErrorView;

    open spec fn view(&self) -> ErrorView {
        match self {
            Error::Io(m) => ErrorView::Io(m@),
            Error::Json(m) => ErrorView::Json(m@),
            Error::Polars(m) => ErrorView::Polars(m@),
            Error::InvalidArgument(m) => ErrorView::InvalidArgument(m@),
            Error::NotFound(m) => ErrorView::NotFound(m@),
            Error::AlreadyExists(m) => ErrorView::AlreadyExists(m@),
            Error::NoHomeDir => ErrorView::NoHomeDir,
            Error::Network(m) => ErrorView::Network(m@),
            Error::RowIdsMissing(m) => ErrorView::RowIdsMissing(m@),
            Error::SyncLogLocked { path } => ErrorView::SyncLogLocked(path@),
            Error::MergeRejected(m) => ErrorView::MergeRejected(m@),
            Error::RowIdMigration { path, source } => ErrorView::RowIdMigration(path@, source@),
            Error::SyncResetBackup(m) => ErrorView::SyncResetBackup(m@),
            Error::SyncProtocol(m) => ErrorView::SyncProtocol(m@),
            Error::SyncRefused(m) => ErrorView::SyncRefused(m@),
        }
    }
}

/// What a result says.
pub open spec fn outcome<T>(r: Result<T, Error>) -> Result<T, ErrorView> {
    match r {
        Ok(value) => Ok(value),
        Err(e) => Err(e@),
    }
}

impl ErrorView {
    /// The HTTP status that answers a request which failed this way.
    pub open spec fn status(self) -> u16 {
        match self {
            ErrorView::InvalidArgument(_) => 400,
            ErrorView::SyncProtocol(_) => 400,
            ErrorView::NotFound(_) => 404,
            ErrorView::AlreadyExists(_) => 409,
            ErrorView::SyncRefused(_) => 409,
            ErrorView::MergeRejected(_) => 422,
            ErrorView::Network(_) => 503,
            ErrorView::SyncLogLocked(_) => 503,
            _ => 500,
        }
    }

    /// The name of the variant, which holds no path and no value.
    pub open spec fn variant(self) -> Seq<char> {
        match self {
            ErrorView::Io(_) => "Io"@,
            ErrorView::Json(_) => "Json"@,
            ErrorView::Polars(_) => "Polars"@,
            ErrorView::InvalidArgument(_) => "InvalidArgument"@,
            ErrorView::NotFound(_) => "NotFound"@,
            ErrorView::AlreadyExists(_) => "AlreadyExists"@,
            ErrorView::NoHomeDir => "NoHomeDir"@,
            ErrorView::Network(_) => "Network"@,
            ErrorView::RowIdsMissing(_) => "RowIdsMissing"@,
            ErrorView::SyncLogLocked(_) => "SyncLogLocked"@,
            ErrorView::MergeRejected(_) => "MergeRejected"@,
            ErrorView::RowIdMigration(_, _) => "RowIdMigration"@,
            ErrorView::SyncResetBackup(_) => "SyncResetBackup"@,
            ErrorView::SyncProtocol(_) => "SyncProtocol"@,
            ErrorView::SyncRefused(_) => "SyncRefused"@,
        }
    }

    /// The message shown to the user.
    pub open spec fn message(self) -> Seq<char> {
        match self {
            ErrorView::Io(m) => "I/O error: "@ + m,
            ErrorView::Json(m) => "JSON error: "@ + m,
            ErrorView::Polars(m) => "polars error: "@ + m,
            ErrorView::InvalidArgument(m) => m,
            ErrorView::NotFound(m) => m,
            ErrorView::AlreadyExists(m) => m,
            ErrorView::NoHomeDir => "could not determine home directory"@,
            ErrorView::Network(m) => m,
            ErrorView::RowIdsMissing(m) => m,
            ErrorView::SyncLogLocked(path) => "the sync change log at "@ + path
                + " is already open: another process, or another handle in this one, holds it. Only one writer at a time may append, because two would issue the same stamps."@,
            ErrorView::MergeRejected(m) => m,
            ErrorView::RowIdMigration(path, source) => "row ID migration failed for "@ + path
                + ": "@ + source,
            ErrorView::SyncResetBackup(m) => m,
            ErrorView::SyncProtocol(m) => m,
            ErrorView::SyncRefused(m) => m,
        }
    }
}

impl Error {
    /// The HTTP status that answers a request which failed this way.
    pub fn status(&self) -> (r: u16)
        ensures
            r == self@.status(),
    {
        match self {
            Error::InvalidArgument(_) | Error::SyncProtocol(_) => 400,
            Error::NotFound(_) => 404,
            Error::AlreadyExists(_) | Error::SyncRefused(_) => 409,
            Error::MergeRejected(_) => 422,
            Error::Network(_) | Error::SyncLogLocked { .. } => 503,
            Error::Io(_)
            | Error::Json(_)
            | Error::Polars(_)
            | Error::NoHomeDir
            | Error::RowIdsMissing(_)
            | Error::RowIdMigration { .. }
            | Error::SyncResetBackup(_) => 500,
        }
    }

    /// The name of the variant.
    pub fn variant(&self) -> (r: &'static str)
        ensures
            r@ == self@.variant(),
    {
        match self {
            Error::InvalidArgument(_) => "InvalidArgument",
            Error::NotFound(_) => "NotFound",
            Error::AlreadyExists(_) => "AlreadyExists",
            Error::Io(_) => "Io",
            Error::Json(_) => "Json",
            Error::Polars(_) => "Polars",
            Error::NoHomeDir => "NoHomeDir",
            Error::RowIdsMissing(_) => "RowIdsMissing",
            Error::RowIdMigration { .. } => "RowIdMigration",
            Error::SyncResetBackup(_) => "SyncResetBackup",
            Error::SyncProtocol(_) => "SyncProtocol",
            Error::SyncRefused(_) => "SyncRefused",
            Error::Network(_) => "Network",
            Error::MergeRejected(_) => "MergeRejected",
            Error::SyncLogLocked { .. } => "SyncLogLocked",
        }
    }

    /// The message shown to the user.
    pub fn message(&self) -> (r: String)
        ensures
            r@ == self@.message(),
    {
        match self {
            Error::Io(m) => "I/O error: ".to_owned().concat(m.as_str()),
            Error::Json(m) => "JSON error: ".to_owned().concat(m.as_str()),
            Error::Polars(m) => "polars error: ".to_owned().concat(m.as_str()),
            Error::NoHomeDir => "could not determine home directory".to_owned(),
            Error::SyncLogLocked { path } => "the sync change log at ".to_owned().concat(
                path.as_str(),
            ).concat(
                " is already open: another process, or another handle in this one, holds it. Only one writer at a time may append, because two would issue the same stamps.",
            ),
            Error::RowIdMigration { path, source } => "row ID migration failed for ".to_owned().concat(
                path.as_str(),
            ).concat(": ").concat(source.as_str()),
            Error::InvalidArgument(m)
            | Error::NotFound(m)
            | Error::AlreadyExists(m)
            | Error::Network(m)
            | Error::RowIdsMissing(m)
            | Error::MergeRejected(m)
            | Error::SyncResetBackup(m)
            | Error::SyncProtocol(m)
            | Error::SyncRefused(m) => m.clone(),
        }
    }
}

} // verus!
