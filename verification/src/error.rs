//! What goes wrong, and how it is named.
use vstd::prelude::*;

verus! {

/// The broad class of an error.
#[derive(Clone, Copy, Debug, PartialEq, Eq, Structural)]
pub enum ErrorKind {
    /// An argument, a configuration file or a request is malformed.
    InvalidInput,
    /// The bytes of a stream are not what the protocol asks for.
    InvalidData,
    /// The client may not do this.
    PermissionDenied,
    /// The remote side refused the connection.
    ConnectionRefused,
    /// Nothing came within the time allowed.
    TimedOut,
    /// The operation is not supported.
    Unsupported,
    /// The address cannot be bound.
    AddrNotAvailable,
    /// There is no such name.
    NotFound,
    /// Anything else.
    Other,
}

/// An error: its class and what to tell a person.
#[derive(Debug)]
pub struct Error {
    pub kind: ErrorKind,
    pub message: String,
}

/// The mathematical view of an [`Error`].
pub struct Failure {
    pub kind: ErrorKind,
    pub message: Seq<char>,
}

impl View for Error {
    type V = Failure;

    open spec fn view(&self) -> Failure {
        Failure { kind: self.kind, message: self.message@ }
    }
}

/// The failure of class `kind` with the text `message`.
pub open spec fn failure(kind: ErrorKind, message: Seq<char>) -> Failure {
    Failure { kind, message }
}

/// The failure for malformed input.
pub open spec fn bad_input(message: Seq<char>) -> Failure {
    failure(ErrorKind::InvalidInput, message)
}

/// An error of class `kind` with the text `message`.
pub fn error(kind: ErrorKind, message: &str) -> (e: Error)
    ensures
        e@ == failure(kind, message@),
{
    Error { kind, message: message.to_string() }
}

/// The error for malformed input.
pub fn invalid_input(message: &str) -> (e: Error)
    ensures
        e@ == bad_input(message@),
{
    error(ErrorKind::InvalidInput, message)
}

/// A failure has the class and the text that it was made of.
pub proof fn law_failure_keeps_its_parts(kind: ErrorKind, message: Seq<char>)
    ensures
        failure(kind, message).kind == kind,
        failure(kind, message).message == message,
        bad_input(message).kind == ErrorKind::InvalidInput,
        bad_input(message).message == message,
{
}

} // verus!
