//! The errors a parse can end in, and their texts.

use crate::text::{decimal_of, push_digits};
use vstd::prelude::*;

verus! {

/// What a parse can fail with.
#[derive(Debug, Clone, PartialEq, Eq)]
pub enum SymError {
    /// The text is not well formed at the given line and column (both from 1).
    ParseError { line: usize, col: usize, message: String },
    /// A reference `$name` to a variable that nothing defines.
    UndefinedVariable(String),
    /// A second definition of a variable that is not marked as an override.
    DuplicateVariable(String),
    /// A second occurrence of a key that is not marked as an override.
    DuplicateKey(String),
    /// `:key+` where the value present or the one given is not an array.
    AppendToNonArray(String),
    /// The text could not be read.
    IoError(String),
}

/// The mathematical content of a [`SymError`].
pub ghost enum Failure {
    ParseError { line: nat, col: nat, message: Seq<char> },
    UndefinedVariable(Seq<char>),
    DuplicateVariable(Seq<char>),
    DuplicateKey(Seq<char>),
    AppendToNonArray(Seq<char>),
    IoError(Seq<char>),
}

impl View for SymError {
    type V = Failure;

    open spec fn view(&self) -> Failure {
        match self {
            SymError::ParseError { line, col, message } => Failure::ParseError {
                line: *line as nat,
                col: *col as nat,
                message: message@,
            },
            SymError::UndefinedVariable(name) => Failure::UndefinedVariable(name@),
            SymError::DuplicateVariable(name) => Failure::DuplicateVariable(name@),
            SymError::DuplicateKey(name) => Failure::DuplicateKey(name@),
            SymError::AppendToNonArray(name) => Failure::AppendToNonArray(name@),
            SymError::IoError(message) => Failure::IoError(message@),
        }
    }
}

/// The text shown for a failure.
pub open spec fn describe(failure: Failure) -> Seq<char> {
    match failure {
        Failure::ParseError { line, col, message } => "Parse error at line "@ + decimal_of(
            line as int,
        ) + ", column "@ + decimal_of(col as int) + ": "@ + message,
        Failure::UndefinedVariable(name) => "Undefined variable: $"@ + name,
        Failure::DuplicateVariable(name) => "Duplicate variable without override: $"@ + name
            + " (use ${0}! to override)"@,
        Failure::DuplicateKey(name) => "Duplicate key without override: :"@ + name + " (use :"@
            + name + "! to override)"@,
        Failure::AppendToNonArray(name) => "Cannot append to non-array: :"@ + name,
        Failure::IoError(message) => "IO error: "@ + message,
    }
}

impl SymError {
    /// The text shown for this error.
    pub fn to_string(&self) -> (text: String)
        ensures
            text@ == describe(self@),
    {
        match self {
            SymError::ParseError { line, col, message } => {
                let mut text = String::from_str("Parse error at line ");
                push_digits(&mut text, *line as u64);
                text.append(", column ");
                push_digits(&mut text, *col as u64);
                text.append(": ");
                text.append(message.as_str());
                text
            },
            SymError::UndefinedVariable(name) => {
                let mut text = String::from_str("Undefined variable: $");
                text.append(name.as_str());
                text
            },
            SymError::DuplicateVariable(name) => {
                let mut text = String::from_str("Duplicate variable without override: $");
                text.append(name.as_str());
                text.append(" (use ${0}! to override)");
                text
            },
            SymError::DuplicateKey(name) => {
                let mut text = String::from_str("Duplicate key without override: :");
                text.append(name.as_str());
                text.append(" (use :");
                text.append(name.as_str());
                text.append("! to override)");
                text
            },
            SymError::AppendToNonArray(name) => {
                let mut text = String::from_str("Cannot append to non-array: :");
                text.append(name.as_str());
                text
            },
            SymError::IoError(message) => {
                let mut text = String::from_str("IO error: ");
                text.append(message.as_str());
                text
            },
        }
    }
}

} // verus!
