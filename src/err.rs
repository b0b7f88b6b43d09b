//! The closed set of failures the engine reports.
use vstd::prelude::*;

verus! {

/// Every failure of the engine, one variant per kind.
#[derive(Debug, Clone, PartialEq, Eq)]
pub enum FmError {
    MemoryReadError,
    NotFound,
    TableNotFound,
    TableDeletionError,
    TableCreationError,
    TableReadError,
    TableDeserializationError,
    DatabaseCreationError,
    DatabaseReadError,
    DatabaseDeletionError,
    DatabaseRenameError,
    DatabaseNotFound,
    DecryptionError,
    EncryptionError,
    OsError(String),
    Utf8Error,
    IoError(String),
    EofError,
    LockTimeout,
    TableNotFoundInMemory,
    RecordSerializationError(String),
    SSTableBuildingError(String),
    RecordLimitExceeded,
}

} // verus!
