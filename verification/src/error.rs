//! Errors: what the server answers, and the codes of SQLite's failures.

use vstd::prelude::*;

verus! {

/// Top-level server error, rendered as an HTTP error response.
#[derive(Debug, PartialEq, Eq)]
pub struct AppError {
    /// HTTP status code.
    pub status: u16,
    pub message: String,
    pub code: String,
}

/// A server error, mathematically.
#[verifier::ext_equal]
pub struct Refusal {
    pub status: u16,
    pub code: Seq<char>,
    pub message: Seq<char>,
}

impl View for AppError {
    type V = Refusal;

    open spec fn view(&self) -> Refusal {
        Refusal { status: self.status, code: self.code@, message: self.message@ }
    }
}

impl AppError {
    pub fn new(status: u16, code: &str, message: &str) -> (r: Self)
        ensures
            r@ == (Refusal { status, code: code@, message: message@ }),
    {
        AppError { status, message: message.to_owned(), code: code.to_owned() }
    }

    pub fn not_found(message: &str) -> (r: Self)
        ensures
            r@ == (Refusal { status: 404, code: "NOT_FOUND"@, message: message@ }),
    {
        AppError::new(404, "NOT_FOUND", message)
    }

    pub fn bad_request(code: &str, message: &str) -> (r: Self)
        ensures
            r@ == (Refusal { status: 400, code: code@, message: message@ }),
    {
        AppError::new(400, code, message)
    }

    pub fn internal(message: &str) -> (r: Self)
        ensures
            r@ == (Refusal { status: 500, code: "INTERNAL_ERROR"@, message: message@ }),
    {
        AppError::new(500, "INTERNAL_ERROR", message)
    }

    pub fn conflict(code: &str, message: &str) -> (r: Self)
        ensures
            r@ == (Refusal { status: 409, code: code@, message: message@ }),
    {
        AppError::new(409, code, message)
    }

    /// The answer to a failure of SQLite.
    pub fn from_sqlite(e: &SqliteError) -> (r: Self)
        ensures
            r@ == (Refusal { status: 500, code: sqlite_code(*e), message: sqlite_message(*e) }),
    {
        let code = hrana_code(e);
        let message = e.describe();
        AppError::new(500, code.as_str(), message.as_str())
    }
}

/// The kinds of failure that SQLite tells apart.
#[derive(Clone, Copy, Debug, PartialEq, Eq, Structural)]
pub enum ErrorCode {
    Unknown,
    InternalMalfunction,
    PermissionDenied,
    OperationAborted,
    DatabaseBusy,
    DatabaseLocked,
    OutOfMemory,
    ReadOnly,
    OperationInterrupted,
    SystemIoFailure,
    DatabaseCorrupt,
    NotFound,
    DiskFull,
    CannotOpen,
    FileLockingProtocolFailed,
    SchemaChanged,
    TooBig,
    ConstraintViolation,
    TypeMismatch,
    ApiMisuse,
    NoLargeFileSupport,
    AuthorizationForStatementDenied,
    ParameterOutOfRange,
    NotADatabase,
}

/// A failure of SQLite, as the driver reports it.
#[derive(Debug, PartialEq, Eq)]
pub struct SqliteError {
    /// The kind of failure, where SQLite itself reported it.
    pub code: Option<ErrorCode>,
    /// Whether the failure is a query that gave no row.
    pub no_rows: bool,
    /// SQLite's own words, where it gave any.
    pub detail: Option<String>,
    /// The driver's words.
    pub text: String,
}

/// The name of a kind of failure.
pub open spec fn code_name(code: ErrorCode) -> Seq<char> {
    match code {
        ErrorCode::Unknown => "UNKNOWN"@,
        ErrorCode::InternalMalfunction => "INTERNAL"@,
        ErrorCode::PermissionDenied => "PERM"@,
        ErrorCode::OperationAborted => "ABORT"@,
        ErrorCode::DatabaseBusy => "BUSY"@,
        ErrorCode::DatabaseLocked => "LOCKED"@,
        ErrorCode::OutOfMemory => "NOMEM"@,
        ErrorCode::ReadOnly => "READONLY"@,
        ErrorCode::OperationInterrupted => "INTERRUPT"@,
        ErrorCode::SystemIoFailure => "IOERR"@,
        ErrorCode::DatabaseCorrupt => "CORRUPT"@,
        ErrorCode::NotFound => "NOTFOUND"@,
        ErrorCode::DiskFull => "FULL"@,
        ErrorCode::CannotOpen => "CANTOPEN"@,
        ErrorCode::FileLockingProtocolFailed => "PROTOCOL"@,
        ErrorCode::SchemaChanged => "SCHEMA"@,
        ErrorCode::TooBig => "TOOBIG"@,
        ErrorCode::ConstraintViolation => "CONSTRAINT"@,
        ErrorCode::TypeMismatch => "MISMATCH"@,
        ErrorCode::ApiMisuse => "MISUSE"@,
        ErrorCode::NoLargeFileSupport => "NOLFS"@,
        ErrorCode::AuthorizationForStatementDenied => "AUTH"@,
        ErrorCode::ParameterOutOfRange => "RANGE"@,
        ErrorCode::NotADatabase => "NOTADB"@,
    }
}

pub fn ffi_code_name(code: ErrorCode) -> (r: &'static str)
    ensures
        r@ == code_name(code),
{
    match code {
        ErrorCode::Unknown => "UNKNOWN",
        ErrorCode::InternalMalfunction => "INTERNAL",
        ErrorCode::PermissionDenied => "PERM",
        ErrorCode::OperationAborted => "ABORT",
        ErrorCode::DatabaseBusy => "BUSY",
        ErrorCode::DatabaseLocked => "LOCKED",
        ErrorCode::OutOfMemory => "NOMEM",
        ErrorCode::ReadOnly => "READONLY",
        ErrorCode::OperationInterrupted => "INTERRUPT",
        ErrorCode::SystemIoFailure => "IOERR",
        ErrorCode::DatabaseCorrupt => "CORRUPT",
        ErrorCode::NotFound => "NOTFOUND",
        ErrorCode::DiskFull => "FULL",
        ErrorCode::CannotOpen => "CANTOPEN",
        ErrorCode::FileLockingProtocolFailed => "PROTOCOL",
        ErrorCode::SchemaChanged => "SCHEMA",
        ErrorCode::TooBig => "TOOBIG",
        ErrorCode::ConstraintViolation => "CONSTRAINT",
        ErrorCode::TypeMismatch => "MISMATCH",
        ErrorCode::ApiMisuse => "MISUSE",
        ErrorCode::NoLargeFileSupport => "NOLFS",
        ErrorCode::AuthorizationForStatementDenied => "AUTH",
        ErrorCode::ParameterOutOfRange => "RANGE",
        ErrorCode::NotADatabase => "NOTADB",
    }
}

/// The code that clients see.
pub open spec fn sqlite_code(e: SqliteError) -> Seq<char> {
    match e.code {
        Some(code) => "SQLITE_"@ + code_name(code),
        None => if e.no_rows {
            "SQLITE_QUERY_RETURNED_NO_ROWS"@
        } else {
            "SQLITE_ERROR"@
        },
    }
}

/// SQLite's own words before the driver's.
pub open spec fn sqlite_message(e: SqliteError) -> Seq<char> {
    match e.detail {
        Some(detail) => detail@,
        None => e.text@,
    }
}

/// Maps a failure to a Hrana-style error code (e.g. "SQLITE_CONSTRAINT"),
/// matching what clients surface.
pub fn hrana_code(e: &SqliteError) -> (r: String)
    ensures
        r@ == sqlite_code(*e),
{
    match e.code {
        Some(code) => {
            let mut r = "SQLITE_".to_owned();
            r.append(ffi_code_name(code));
            r
        },
        None => if e.no_rows {
            "SQLITE_QUERY_RETURNED_NO_ROWS".to_owned()
        } else {
            "SQLITE_ERROR".to_owned()
        },
    }
}

impl SqliteError {
    pub fn describe(&self) -> (r: String)
        ensures
            r@ == sqlite_message(*self),
    {
        match &self.detail {
            Some(detail) => detail.clone(),
            None => self.text.clone(),
        }
    }
}

/// Error produced while executing one Hrana statement. Returned inside the
/// pipeline response as a per-request error result.
#[derive(Debug, PartialEq, Eq)]
pub struct StmtError {
    pub code: String,
    pub message: String,
}

/// A statement's failure, mathematically.
#[verifier::ext_equal]
pub struct Failure {
    pub code: Seq<char>,
    pub message: Seq<char>,
}

impl View for StmtError {
    type V = Failure;

    open spec fn view(&self) -> Failure {
        Failure { code: self.code@, message: self.message@ }
    }
}

impl StmtError {
    pub fn new(code: &str, message: &str) -> (r: Self)
        ensures
            r@ == (Failure { code: code@, message: message@ }),
    {
        StmtError { code: code.to_owned(), message: message.to_owned() }
    }

    /// What a failure of SQLite makes of a statement.
    pub fn from_sqlite(e: &SqliteError) -> (r: Self)
        ensures
            r@ == (Failure { code: sqlite_code(*e), message: sqlite_message(*e) }),
    {
        StmtError { code: hrana_code(e), message: e.describe() }
    }
}

} // verus!
