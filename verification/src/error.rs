//! The ways a run can fail.

use vstd::prelude::*;

verus! {

#[verifier::external_type_specification]
#[verifier::external_body]
pub struct ExIoError(std::io::Error);

/// Why a run stopped. Every failure is final: nothing is retried, and what
/// was written before it stays written.
#[derive(Debug)]
pub enum UnnestError {
    /// The input ended inside a value.
    UnexpectedEndOfInput,
    /// The input breaks the grammar, or the target depth cannot be counted.
    InvalidSyntax,
    /// The reader or the sink failed; the failure is handed on as it came.
    Io(std::io::Error),
}

impl UnnestError {
    /// A short description, for messages.
    pub fn describe(&self) -> (text: &'static str)
        ensures
            text@ == (match self {
                UnnestError::UnexpectedEndOfInput => "unexpected end of input"@,
                UnnestError::InvalidSyntax => "invalid syntax"@,
                UnnestError::Io(_) => "input or output failed"@,
            }),
    {
        match self {
            UnnestError::UnexpectedEndOfInput => "unexpected end of input",
            UnnestError::InvalidSyntax => "invalid syntax",
            UnnestError::Io(_) => "input or output failed",
        }
    }
}

} // verus!
