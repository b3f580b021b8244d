//! Errors of the library.
//!
//! An error is a kind, which decisions are taken on, and a message for people.
use vstd::prelude::*;

verus! {

/// What went wrong, as far as the library tells cases apart.
#[derive(Debug, Clone, Copy, PartialEq, Eq, Structural)]
pub enum ErrorKind {
    NotFound,
    PermissionDenied,
    AlreadyExists,
    WouldBlock,
    InvalidInput,
    InvalidData,
    UnexpectedEof,
    Interrupted,
    Unsupported,
    Other,
    /// A kind that nothing here decides on, under a number that its source gave it.
    Foreign(u32),
}

/// A kind and a message.
#[derive(Debug)]
pub struct Error {
    pub kind: ErrorKind,
    pub message: String,
}

/// The mathematical value of an [`Error`].
#[verifier::ext_equal]
pub struct ErrorModel {
    pub kind: ErrorKind,
    pub message: Seq<char>,
}

impl View for Error {
    type V = ErrorModel;

    open spec fn view(&self) -> ErrorModel {
        ErrorModel { kind: self.kind, message: self.message@ }
    }
}

/// The error of a kind with a message.
pub open spec fn error_model(kind: ErrorKind, message: Seq<char>) -> ErrorModel {
    ErrorModel { kind, message }
}

/// The error that [`invalid`] makes.
pub open spec fn invalid_model(message: Seq<char>) -> ErrorModel {
    ErrorModel { kind: ErrorKind::InvalidData, message }
}

/// The kinds that mean corrupt data.
pub open spec fn damage_kind(kind: ErrorKind) -> bool {
    kind == ErrorKind::InvalidData || kind == ErrorKind::InvalidInput || kind
        == ErrorKind::UnexpectedEof
}

impl Error {
    pub fn new(kind: ErrorKind, message: String) -> (error: Error)
        ensures
            error@ == error_model(kind, message@),
            error.kind == kind && error.message == message,
    {
        Error { kind, message }
    }

    /// A second error of the same kind with the same message.
    pub fn duplicate(&self) -> (error: Error)
        ensures
            error@ == self@,
            error.kind == self.kind && error.message@ == self.message@,
    {
        Error { kind: self.kind, message: self.message.clone() }
    }
}

/// An error about data that is not what it should be.
pub fn invalid(message: String) -> (error: Error)
    ensures
        error@ == invalid_model(message@),
        error.kind is InvalidData && error.message == message,
{
    Error { kind: ErrorKind::InvalidData, message }
}

/// Whether an error means corrupt data rather than a problem of the environment. Deflate reports
/// corrupt streams as `InvalidInput`.
pub fn is_damage(err: &Error) -> (damage: bool)
    ensures
        damage == damage_kind(err@.kind),
        damage <==> err.kind is InvalidData || err.kind is InvalidInput || err.kind
            is UnexpectedEof,
{
    matches!(
        err.kind,
        ErrorKind::InvalidData | ErrorKind::InvalidInput | ErrorKind::UnexpectedEof
    )
}

/// Puts `path` in front of the message of `err`.
pub fn named(path: &str, err: Error) -> (error: Error)
    ensures
        error@ == error_model(err@.kind, path@ + ": "@ + err@.message),
        error.kind == err.kind && error.message@ == path@ + ": "@ + err.message@,
{
    let mut message = path.to_owned();
    message.append(": ");
    message.append(err.message.as_str());
    Error { kind: err.kind, message }
}

/// Keeps the first error that comes.
pub fn record(result: Result<(), Error>, error: &mut Option<Error>)
    ensures
        match (result, *old(error)) {
            (Err(err), None) => *final(error) == Some(err),
            _ => *final(error) == *old(error),
        },
{
    if let Err(err) = result {
        if error.is_none() {
            *error = Some(err);
        }
    }
}

/// Damage is what says that data is corrupt, and nothing else: not that it is missing, not that it
/// may not be read, and not that this build cannot read it.
pub proof fn damage_is_corrupt_data(kind: ErrorKind)
    ensures
        damage_kind(kind) <==> kind is InvalidData || kind is InvalidInput || kind is UnexpectedEof,
{
}

/// An error, by value, is its kind and its message.
pub proof fn errors_by_value(error: Error, message: Seq<char>)
    ensures
        error@.kind == error.kind && error@.message == error.message@,
        error_model(error.kind, message).kind == error.kind && error_model(
            error.kind,
            message,
        ).message == message,
        invalid_model(message).kind is InvalidData && invalid_model(message).message == message,
{
}

} // verus!
