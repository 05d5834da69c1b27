//! Failures: a category and the message that is shown to the operator.

use vstd::prelude::*;
use vstd::string::StringExecFns;
use crate::decimal::IntError;

verus! {

/// The category of a failure.
#[derive(Clone, Copy, Debug, PartialEq, Eq, Structural)]
pub enum ErrorKind {
    /// Malformed text, or the wrong number of arguments.
    Parse,
    /// A hotel, room or booking that does not exist.
    NotFound,
    /// An id that is taken, or a room that is occupied.
    Conflict,
    /// A booking that belongs to another customer.
    Authorization,
    /// A command word or target that the language does not have.
    UnknownCommand,
}

/// A failure of a command or of an operation of the model.
#[derive(Debug)]
pub struct CommandError {
    pub kind: ErrorKind,
    pub message: String,
}

/// What a `CommandError` is: its category and the characters of its message.
pub struct ErrorView {
    pub kind: ErrorKind,
    pub message: Seq<char>,
}

impl View for CommandError {
    type V = ErrorView;

    open spec fn view(&self) -> ErrorView {
        ErrorView { kind: self.kind, message: self.message@ }
    }
}

/// The failure of the category `Parse` with the message.
pub open spec fn parse_failure(message: Seq<char>) -> ErrorView {
    ErrorView { kind: ErrorKind::Parse, message }
}

/// The failure of the category `NotFound` with the message.
pub open spec fn not_found(message: Seq<char>) -> ErrorView {
    ErrorView { kind: ErrorKind::NotFound, message }
}

/// The failure of the category `Conflict` with the message.
pub open spec fn conflict(message: Seq<char>) -> ErrorView {
    ErrorView { kind: ErrorKind::Conflict, message }
}

/// The failure of the category `Authorization` with the message.
pub open spec fn not_authorized(message: Seq<char>) -> ErrorView {
    ErrorView { kind: ErrorKind::Authorization, message }
}

/// The failure of the category `UnknownCommand` with the message.
pub open spec fn unknown_command(message: Seq<char>) -> ErrorView {
    ErrorView { kind: ErrorKind::UnknownCommand, message }
}

/// The message for text that is not a number.
pub open spec fn int_error_message(e: IntError) -> Seq<char> {
    match e {
        IntError::Empty => "cannot parse integer from empty string"@,
        IntError::InvalidDigit => "invalid digit found in string"@,
        IntError::TooLarge => "number too large to fit in target type"@,
    }
}

impl CommandError {
    /// A failure with a message.
    pub fn new(kind: ErrorKind, message: String) -> (r: Self)
        ensures
            r@ == (ErrorView { kind, message: message@ }),
    {
        CommandError { kind, message }
    }

    /// A failure with a fixed message.
    pub fn fixed(kind: ErrorKind, message: &str) -> (r: Self)
        ensures
            r@ == (ErrorView { kind, message: message@ }),
    {
        CommandError { kind, message: String::from_str(message) }
    }

    /// The failure to read a number.
    pub fn from_int_error(e: IntError) -> (r: Self)
        ensures
            r@ == parse_failure(int_error_message(e)),
    {
        match e {
            IntError::Empty => Self::fixed(
                ErrorKind::Parse,
                "cannot parse integer from empty string",
            ),
            IntError::InvalidDigit => Self::fixed(ErrorKind::Parse, "invalid digit found in string"),
            IntError::TooLarge => Self::fixed(
                ErrorKind::Parse,
                "number too large to fit in target type",
            ),
        }
    }

    /// The category of the failure.
    pub fn kind(&self) -> (r: ErrorKind)
        ensures
            r == self@.kind,
    {
        self.kind
    }

    /// The message of the failure.
    pub fn message(&self) -> (r: &str)
        ensures
            r@ == self@.message,
    {
        self.message.as_str()
    }
}

} // verus!
