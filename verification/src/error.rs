//! Errors and the exit codes they end a run with.

use vstd::prelude::*;

verus! {

/// How a run ended, for a caller that does not read the message.
#[derive(Clone, Copy, Debug, PartialEq, Eq, Structural)]
pub enum ExitCode {
    /// Any error that has no code of its own.
    Error,
    /// A write that the schema does not allow.
    Schema,
    /// A condition on a write that was not met.
    Precondition,
}

impl ExitCode {
    /// The number of the exit code.
    pub open spec fn number(self) -> u8 {
        match self {
            ExitCode::Error => 1,
            ExitCode::Schema => 2,
            ExitCode::Precondition => 3,
        }
    }

    /// The number of the exit code.
    pub fn as_u8(self) -> (r: u8)
        ensures
            r == self.number(),
    {
        match self {
            ExitCode::Error => 1,
            ExitCode::Schema => 2,
            ExitCode::Precondition => 3,
        }
    }
}

/// An error with an exit code of its own.
#[derive(Debug)]
pub struct CodedError {
    pub code: ExitCode,
    pub message: String,
}

/// Any error: a message, or one with an exit code of its own.
#[derive(Debug)]
pub enum DynError {
    Message(String),
    Coded(CodedError),
}

/// Whether an error has a message and ends the run with a code.
pub open spec fn fails_with(e: DynError, code: ExitCode, message: Seq<char>) -> bool {
    match e {
        DynError::Coded(c) => c.code == code && c.message@ == message,
        DynError::Message(m) => code == ExitCode::Error && m@ == message,
    }
}

impl CodedError {
    /// A write that breaks the declared schema.
    pub fn schema(message: &str) -> (r: DynError)
        ensures
            r matches DynError::Coded(e) && e.code == ExitCode::Schema && e.message@ == message@,
    {
        DynError::Coded(CodedError { code: ExitCode::Schema, message: String::from_str(message) })
    }

    /// A write whose condition was not met.
    pub fn precondition(message: &str) -> (r: DynError)
        ensures
            r matches DynError::Coded(e) && e.code == ExitCode::Precondition && e.message@
                == message@,
    {
        DynError::Coded(
            CodedError { code: ExitCode::Precondition, message: String::from_str(message) },
        )
    }

    /// The exit code of the error.
    pub fn code(&self) -> (r: ExitCode)
        ensures
            r == self.code,
    {
        self.code
    }
}

impl DynError {
    /// The error with its own code, if it is one.
    pub fn coded(&self) -> (r: Option<&CodedError>)
        ensures
            match r {
                Some(e) => *self == DynError::Coded(*e),
                None => self is Message,
            },
    {
        match self {
            DynError::Coded(e) => Some(e),
            DynError::Message(_) => None,
        }
    }

    /// What a run that fails with this error exits with.
    pub fn exit_code(&self) -> (r: ExitCode)
        ensures
            r == match *self {
                DynError::Coded(e) => e.code,
                DynError::Message(_) => ExitCode::Error,
            },
    {
        match self.coded() {
            Some(e) => e.code(),
            None => ExitCode::Error,
        }
    }

    /// The text of the error.
    pub fn text(&self) -> (r: &String)
        ensures
            *r == match *self {
                DynError::Coded(e) => e.message,
                DynError::Message(m) => m,
            },
    {
        match self {
            DynError::Coded(e) => &e.message,
            DynError::Message(m) => m,
        }
    }
}

/// The codes that a run ends with are different, and none is that of success.
pub proof fn codes_are_distinct(a: ExitCode, b: ExitCode)
    ensures
        a.number() != 0,
        a != b ==> a.number() != b.number(),
        ExitCode::Error.number() == 1,
        ExitCode::Schema.number() == 2,
        ExitCode::Precondition.number() == 3,
{
}

} // verus!
