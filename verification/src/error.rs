//! The error that every fallible operation of the library returns.
use vstd::prelude::*;

use crate::text::join3;

verus! {

/// What went wrong.
#[derive(Clone, Copy, Debug, PartialEq, Eq, Structural)]
pub enum ErrorKind {
    /// The input is not valid.
    DataInvalid,
    /// An operation failed that should have succeeded.
    Unexpected,
}

impl ErrorKind {
    /// The name of the kind.
    pub open spec fn name(self) -> Seq<char> {
        match self {
            ErrorKind::DataInvalid => "DataInvalid"@,
            ErrorKind::Unexpected => "Unexpected"@,
        }
    }
}

/// An error: its kind and a message.
#[derive(Debug)]
pub struct Error {
    kind: ErrorKind,
    message: String,
}

/// A result whose error is the library's.
pub type Result<T> = std::result::Result<T, Error>;

impl Error {
    /// The kind of the error.
    pub closed spec fn spec_kind(&self) -> ErrorKind {
        self.kind
    }

    /// The text of the error.
    pub closed spec fn spec_message(&self) -> Seq<char> {
        self.message@
    }

    /// The error is of the given kind and has the given message.
    pub open spec fn says(&self, kind: ErrorKind, message: Seq<char>) -> bool {
        self.spec_kind() == kind && self.spec_message() == message
    }

    /// The error reports a failed call: its message is `prefix` and then what the callee said.
    pub open spec fn reports(&self, prefix: Seq<char>) -> bool {
        &&& self.spec_kind() == ErrorKind::Unexpected
        &&& exists|detail: Seq<char>| self.spec_message() == #[trigger] (prefix + detail)
    }

    /// An error of the given kind with the given message.
    pub fn new(kind: ErrorKind, message: String) -> (error: Self)
        ensures
            error.says(kind, message@),
    {
        Error { kind, message }
    }

    /// The kind of the error.
    pub fn kind(&self) -> (kind: ErrorKind)
        ensures
            kind == self.spec_kind(),
    {
        self.kind
    }

    /// The message of the error.
    pub fn message(&self) -> (message: &str)
        ensures
            message@ == self.spec_message(),
    {
        self.message.as_str()
    }

    /// The kind and the message in one line: `Kind => message`.
    pub fn to_string(&self) -> (text: String)
        ensures
            text@ == self.spec_kind().name() + " => "@ + self.spec_message(),
    {
        let name = match self.kind {
            ErrorKind::DataInvalid => "DataInvalid",
            ErrorKind::Unexpected => "Unexpected",
        };
        join3(name, " => ", self.message.as_str())
    }
}

}
