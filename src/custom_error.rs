//! Errors of statement parsing and evaluation.
use vstd::prelude::*;

verus! {

#[derive(Debug, Clone, PartialEq)]
pub enum CustomError {
    /// A table could not be read.
    InvalidTable { message: String },
    /// A column of the statement is wrong.
    InvalidColumn { message: String },
    /// The statement's syntax is wrong.
    InvalidSyntax { message: String },
    /// Anything else.
    GenericError { message: String },
}

impl CustomError {
    pub fn error_invalid_syntax(message: &str) -> (r: Result<(), CustomError>)
        ensures
            r matches Err(CustomError::InvalidSyntax { message: m }) && m@ == message@,
    {
        Err(CustomError::InvalidSyntax { message: message.to_owned() })
    }

    pub fn error_invalid_table(message: &str) -> (r: Result<(), CustomError>)
        ensures
            r matches Err(CustomError::InvalidTable { message: m }) && m@ == message@,
    {
        Err(CustomError::InvalidTable { message: message.to_owned() })
    }

    pub fn error_invalid_column(message: &str) -> (r: Result<(), CustomError>)
        ensures
            r matches Err(CustomError::InvalidColumn { message: m }) && m@ == message@,
    {
        Err(CustomError::InvalidColumn { message: message.to_owned() })
    }

    pub fn error_generic(message: &str) -> (r: Result<(), CustomError>)
        ensures
            r matches Err(CustomError::GenericError { message: m }) && m@ == message@,
    {
        Err(CustomError::GenericError { message: message.to_owned() })
    }

    /// The error as text, its kind first.
    pub fn message(&self) -> (r: String)
        ensures
            r@ == (match self {
                CustomError::InvalidTable { message } => "INVALID_TABLE: "@ + message@,
                CustomError::InvalidColumn { message } => "INVALID_COLUMN: "@ + message@,
                CustomError::InvalidSyntax { message } => "INVALID_SYNTAX: "@ + message@,
                CustomError::GenericError { message } => "ERROR: "@ + message@,
            }),
    {
        let (kind, message) = match self {
            CustomError::InvalidTable { message } => ("INVALID_TABLE: ", message),
            CustomError::InvalidColumn { message } => ("INVALID_COLUMN: ", message),
            CustomError::InvalidSyntax { message } => ("INVALID_SYNTAX: ", message),
            CustomError::GenericError { message } => ("ERROR: ", message),
        };
        let mut out = kind.to_owned();
        crate::text::push_text(&mut out, message.as_str());
        out
    }
}

} // verus!
