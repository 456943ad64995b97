//! The error type of directory listing and tree building.
use vstd::prelude::*;

verus! {

/// The kinds of failure a directory listing can report, plus `Interrupted`,
/// which the builder also uses when a layer would be overwritten unconsumed.
#[derive(Debug, Clone, Copy, PartialEq, Eq, Structural)]
pub enum ErrorType {
    NotFound,
    PermissionDenied,
    AlreadyExists,
    WouldBlock,
    NotADirectory,
    IsADirectory,
    DirectoryNotEmpty,
    ReadOnlyFilesystem,
    InvalidInput,
    InvalidData,
    TimedOut,
    WriteZero,
    StorageFull,
    FileTooLarge,
    ResourceBusy,
    Deadlock,
    ArgumentListTooLong,
    Interrupted,
    Unsupported,
    UnexpectedEof,
    OutOfMemory,
    Other,
}

/// An error of the editor's file handling: a kind and a human-readable message.
#[derive(Debug)]
pub struct EditorIoError {
    pub message: String,
    pub error_type: ErrorType,
}

impl EditorIoError {
    pub fn new(msg: &str, etype: ErrorType) -> (r: EditorIoError)
        ensures
            r.message@ == msg@,
            r.error_type == etype,
    {
        EditorIoError { message: msg.to_string(), error_type: etype }
    }

    /// The kind of failure.
    pub fn kind(&self) -> (r: ErrorType)
        ensures
            r == self.error_type,
    {
        self.error_type
    }
}

} // verus!
