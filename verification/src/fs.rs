//! The filesystem surface the tools reach, and the errors they report.

use vstd::prelude::*;
use crate::text::{cat, decimal, decimal_string};
use crate::truncate::MAX_RESULT_BYTES;

verus! {

/// What a stat reports of a path.
#[derive(Clone, Copy, Debug, PartialEq, Eq, Structural)]
pub struct FileStat {
    pub is_dir: bool,
    pub is_file: bool,
    pub size: u64,
}

/// One entry of a directory listing.
#[derive(Clone, Debug, PartialEq, Eq)]
pub struct DirEntry {
    pub name: String,
    pub is_dir: bool,
}

/// Errors a filesystem backend reports.
#[derive(Clone, Debug, PartialEq, Eq)]
pub enum ToolFsError {
    NotFound(String),
    Denied(String),
    FileTooLarge { path: String, max_bytes: usize },
    Io(String),
}

/// Errors a tool run can produce; their text is what the model sees.
#[derive(Clone, Debug, PartialEq, Eq)]
pub enum ToolError {
    Fs(ToolFsError),
    InvalidArgs(String),
    Failed(String),
    ResultTooLarge,
}

/// Minimal synchronous filesystem access for tool cores.
///
/// Backends enforce path confinement: a path outside the granted scope is
/// reported as [`ToolFsError::Denied`]. Paths are `/`-separated strings.
pub trait ToolFs {
    /// Whether `r` is an answer this backend may give to a stat of `path`.
    /// Each backend relates paths to answers its own way, every answer
    /// being possible unless it says otherwise; the tools rely only on every
    /// answer they use being one the backend gave to that call.
    closed spec fn stat_answer(&self, path: Seq<char>, r: Result<FileStat, ToolFsError>) -> bool {
        true
    }

    /// Whether `r` (names and kinds) is an answer this backend may give to
    /// listing `path`.
    closed spec fn listing_answer(&self, path: Seq<char>, r: Result<Seq<(Seq<char>, bool)>, ToolFsError>) -> bool {
        true
    }

    /// Whether `r` is an answer this backend may give to a read of `path`
    /// bounded by `max_bytes`.
    closed spec fn bounded_read_answer(&self, path: Seq<char>, max_bytes: nat, r: Result<Seq<u8>, ToolFsError>) -> bool {
        true
    }

    /// Whether `r` is an answer this backend may give to writing `content`
    /// to `path`.
    closed spec fn write_answer(&self, path: Seq<char>, content: Seq<u8>, r: Result<(), ToolFsError>) -> bool {
        true
    }

    /// Whether `r` is an answer this backend may give to creating the
    /// directory `path`.
    closed spec fn mkdir_answer(&self, path: Seq<char>, recursive: bool, r: Result<(), ToolFsError>) -> bool {
        true
    }

    /// Whether `r` is an answer this backend may give to asking whether
    /// `path` exists.
    closed spec fn exists_answer(&self, path: Seq<char>, r: Result<bool, ToolFsError>) -> bool {
        true
    }

    fn read_file(&self, path: &str) -> Result<Vec<u8>, ToolFsError>;

    /// Read one complete file only when it is at most `max_bytes`; an error
    /// never exposes a partial buffer.
    fn read_file_bounded(&self, path: &str, max_bytes: usize) -> (r: Result<Vec<u8>, ToolFsError>)
        ensures
            r matches Ok(bytes) ==> bytes@.len() <= max_bytes,
            self.bounded_read_answer(path@, max_bytes as nat, bytes_answer(r)),
    ;

    fn write_file(&self, path: &str, content: &[u8]) -> (r: Result<(), ToolFsError>)
        ensures
            self.write_answer(path@, content@, r),
    ;

    /// Create a directory. `recursive` = `mkdir -p`.
    fn mkdir(&self, path: &str, recursive: bool) -> (r: Result<(), ToolFsError>)
        ensures
            self.mkdir_answer(path@, recursive, r),
    ;

    fn stat(&self, path: &str) -> (r: Result<FileStat, ToolFsError>)
        ensures
            self.stat_answer(path@, r),
    ;

    fn read_dir(&self, path: &str) -> (r: Result<Vec<DirEntry>, ToolFsError>)
        ensures
            self.listing_answer(path@, listing_answer_of(r)),
    ;

    fn path_exists(&self, path: &str) -> (r: Result<bool, ToolFsError>)
        ensures
            self.exists_answer(path@, r),
    ;
}

/// A read's answer, with the bytes by their view.
pub open spec fn bytes_answer(r: Result<Vec<u8>, ToolFsError>) -> Result<Seq<u8>, ToolFsError> {
    match r {
        Ok(bytes) => Ok(bytes@),
        Err(e) => Err(e),
    }
}

/// The names and kinds of directory entries.
pub open spec fn names_and_kinds(entries: Seq<DirEntry>) -> Seq<(Seq<char>, bool)> {
    entries.map_values(|e: DirEntry| (e.name@, e.is_dir))
}

/// A listing's answer, by names and kinds.
pub open spec fn listing_answer_of(r: Result<Vec<DirEntry>, ToolFsError>) -> Result<Seq<(Seq<char>, bool)>, ToolFsError> {
    match r {
        Ok(entries) => Ok(names_and_kinds(entries@)),
        Err(e) => Err(e),
    }
}

/// How a tool call composes with retries and replay.
#[derive(Clone, Copy, Debug, PartialEq, Eq, Structural)]
pub enum EffectClass {
    /// No observable side effect. Safe to re-run any number of times.
    Pure,
    /// Re-running with identical arguments against the resulting state is
    /// a no-op.
    Idempotent,
}

/// The model-facing contract of one tool. `input_schema` is the JSON Schema
/// of the arguments object, as JSON text.
#[derive(Clone, Debug)]
pub struct ToolContract {
    pub name: &'static str,
    pub description: &'static str,
    pub input_schema: &'static str,
    pub effect_class: EffectClass,
}

/// The text of a filesystem error.
pub open spec fn fs_error_text(e: ToolFsError) -> Seq<char> {
    match e {
        ToolFsError::NotFound(path) => "not found: "@ + path@,
        ToolFsError::Denied(path) => "access denied: "@ + path@,
        ToolFsError::FileTooLarge { path, max_bytes } => "file exceeds "@ + decimal(max_bytes as nat)
            + " byte read limit: "@ + path@,
        ToolFsError::Io(message) => message@,
    }
}

/// The text of a tool error.
pub open spec fn tool_error_text(e: ToolError) -> Seq<char> {
    match e {
        ToolError::Fs(inner) => fs_error_text(inner),
        ToolError::InvalidArgs(message) => "invalid arguments: "@ + message@,
        ToolError::Failed(message) => message@,
        ToolError::ResultTooLarge => "result exceeds "@ + decimal(MAX_RESULT_BYTES as nat)
            + " bytes; narrow the request"@,
    }
}

impl ToolFsError {
    /// The error's text.
    pub fn to_string(&self) -> (r: String)
        ensures
            r@ == fs_error_text(*self),
    {
        match self {
            ToolFsError::NotFound(path) => cat("not found: ", path.as_str()),
            ToolFsError::Denied(path) => cat("access denied: ", path.as_str()),
            ToolFsError::FileTooLarge { path, max_bytes } => {
                let head = cat("file exceeds ", decimal_string(*max_bytes as u128).as_str());
                let head = cat(head.as_str(), " byte read limit: ");
                cat(head.as_str(), path.as_str())
            },
            ToolFsError::Io(message) => message.clone(),
        }
    }
}

impl ToolError {
    /// The error's text.
    pub fn to_string(&self) -> (r: String)
        ensures
            r@ == tool_error_text(*self),
    {
        match self {
            ToolError::Fs(inner) => inner.to_string(),
            ToolError::InvalidArgs(message) => cat("invalid arguments: ", message.as_str()),
            ToolError::Failed(message) => message.clone(),
            ToolError::ResultTooLarge => {
                let head = cat("result exceeds ", decimal_string(MAX_RESULT_BYTES as u128).as_str());
                cat(head.as_str(), " bytes; narrow the request")
            },
        }
    }
}

/// How an operation of the native filesystem backend failed.
#[derive(Clone, Debug, PartialEq, Eq)]
pub enum IoFailure {
    NotFound,
    PermissionDenied,
    /// Any other failure, with the error's text.
    Other(String),
}

/// Whether `e` is the backend error for a failed operation on `path`: the
/// path for a missing or forbidden one, the failure's text otherwise.
pub open spec fn io_error_for(path: Seq<char>, failure: IoFailure, e: ToolFsError) -> bool {
    match failure {
        IoFailure::NotFound => e matches ToolFsError::NotFound(p) && p@ == path,
        IoFailure::PermissionDenied => e matches ToolFsError::Denied(p) && p@ == path,
        IoFailure::Other(message) => e matches ToolFsError::Io(m) && m@ == message@,
    }
}

/// The backend error reported for a failed operation on `path`.
pub fn map_io_error(path: &str, failure: IoFailure) -> (r: ToolFsError)
    ensures
        io_error_for(path@, failure, r),
{
    match failure {
        IoFailure::NotFound => ToolFsError::NotFound(path.to_string()),
        IoFailure::PermissionDenied => ToolFsError::Denied(path.to_string()),
        IoFailure::Other(message) => ToolFsError::Io(message),
    }
}

} // verus!
