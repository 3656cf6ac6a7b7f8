//! The error taxonomy: every fallible operation of the crate reports one of
//! these kinds, together with a human-readable message.

use vstd::prelude::*;
use vstd::string::StringExecFns;
use crate::util::{dec_chars, decimal_string};

verus! {

/// The flat, non-hierarchical set of error kinds.
#[derive(Clone, Copy, Debug, PartialEq, Eq, Structural)]
pub enum WitErrorType {
    DebugError,
    IOError,
    RepoCreationError,
    InheritedError,
    VersionMismatchError,
    MalformedObjectError,
    UnknownObjectTypeError,
    PathConversionError,
    CLIArgumentError,
    CLIUnknownCommandError,
    CLINoCommandError,
    UTF8ConversionError,
    InvalidModeLengthError,
    RepoNotFoundError,
    AmbiguousReferenceError,
    UnknownReferenceError,
    MissingDataError,
    NotADirectoryError,
    DirectoryNotEmptyError,
}

/// An error kind paired with its message.
#[derive(Debug)]
pub struct WitError {
    pub error: WitErrorType,
    pub message: String,
}

impl WitError {
    pub fn new(error_type: WitErrorType, message: String) -> (r: Self)
        ensures
            r.error == error_type,
            r.message == message,
    {
        WitError { error: error_type, message }
    }

    /// The kind of this error.
    pub fn kind(&self) -> (r: WitErrorType)
        ensures
            r == self.error,
    {
        self.error
    }
}

pub fn debug_err() -> (r: WitError)
    ensures
        r.error == WitErrorType::DebugError,
{
    WitError::new(WitErrorType::DebugError, "Generic debug error.".to_owned())
}

pub fn io_err(message: String) -> (r: WitError)
    ensures
        r.error == WitErrorType::IOError,
        r.message == message,
{
    WitError::new(WitErrorType::IOError, message)
}

pub fn repo_creation_err(message: String) -> (r: WitError)
    ensures
        r.error == WitErrorType::RepoCreationError,
        r.message == message,
{
    WitError::new(WitErrorType::RepoCreationError, message)
}

pub fn version_mismatch_err(message: String) -> (r: WitError)
    ensures
        r.error == WitErrorType::VersionMismatchError,
        r.message == message,
{
    WitError::new(WitErrorType::VersionMismatchError, message)
}

pub fn malformed_object_err(message: String) -> (r: WitError)
    ensures
        r.error == WitErrorType::MalformedObjectError,
        r.message == message,
{
    WitError::new(WitErrorType::MalformedObjectError, message)
}

pub fn path_conversion_err() -> (r: WitError)
    ensures
        r.error == WitErrorType::PathConversionError,
{
    WitError::new(
        WitErrorType::PathConversionError,
        "Could not convert path to string".to_owned(),
    )
}

pub fn cli_argument_err(arg: &str) -> (r: WitError)
    ensures
        r.error == WitErrorType::CLIArgumentError,
        r.message@ == "Required argument '"@ + arg@ + "' was not provided."@,
{
    let mut m = "Required argument '".to_owned();
    m.append(arg);
    m.append("' was not provided.");
    WitError::new(WitErrorType::CLIArgumentError, m)
}

pub fn cli_unknown_command_err(command: &str) -> (r: WitError)
    ensures
        r.error == WitErrorType::CLIUnknownCommandError,
        r.message@ == "Unknown command '"@ + command@ + "'"@,
{
    let mut m = "Unknown command '".to_owned();
    m.append(command);
    m.append("'");
    WitError::new(WitErrorType::CLIUnknownCommandError, m)
}

pub fn cli_no_command_err() -> (r: WitError)
    ensures
        r.error == WitErrorType::CLINoCommandError,
{
    WitError::new(WitErrorType::CLINoCommandError, "No command provided.".to_owned())
}

pub fn unknown_object_err(message: String) -> (r: WitError)
    ensures
        r.error == WitErrorType::UnknownObjectTypeError,
        r.message == message,
{
    WitError::new(WitErrorType::UnknownObjectTypeError, message)
}

pub fn utf8_err(message: String) -> (r: WitError)
    ensures
        r.error == WitErrorType::UTF8ConversionError,
        r.message == message,
{
    WitError::new(WitErrorType::UTF8ConversionError, message)
}

pub fn mode_err(length: usize) -> (r: WitError)
    ensures
        r.error == WitErrorType::InvalidModeLengthError,
        r.message@ == "Invalid mode length: "@ + dec_chars(length as nat),
{
    let mut m = "Invalid mode length: ".to_owned();
    let d = decimal_string(length);
    m.append(d.as_str());
    WitError::new(WitErrorType::InvalidModeLengthError, m)
}

pub fn repo_not_found_err(message: String) -> (r: WitError)
    ensures
        r.error == WitErrorType::RepoNotFoundError,
        r.message == message,
{
    WitError::new(WitErrorType::RepoNotFoundError, message)
}

pub fn ambiguous_reference_err(message: String) -> (r: WitError)
    ensures
        r.error == WitErrorType::AmbiguousReferenceError,
        r.message == message,
{
    WitError::new(WitErrorType::AmbiguousReferenceError, message)
}

pub fn unknown_reference_err(message: String) -> (r: WitError)
    ensures
        r.error == WitErrorType::UnknownReferenceError,
        r.message == message,
{
    WitError::new(WitErrorType::UnknownReferenceError, message)
}

pub fn missing_data_err(message: String) -> (r: WitError)
    ensures
        r.error == WitErrorType::MissingDataError,
        r.message == message,
{
    WitError::new(WitErrorType::MissingDataError, message)
}

pub fn not_a_directory_err(path: &str) -> (r: WitError)
    ensures
        r.error == WitErrorType::NotADirectoryError,
        r.message@ == path@,
{
    WitError::new(WitErrorType::NotADirectoryError, path.to_owned())
}

pub fn dir_not_empty_err(path: &str) -> (r: WitError)
    ensures
        r.error == WitErrorType::DirectoryNotEmptyError,
        r.message@ == path@,
{
    WitError::new(WitErrorType::DirectoryNotEmptyError, path.to_owned())
}

} // verus!
