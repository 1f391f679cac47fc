//! Error types of the library.

use vstd::prelude::*;

verus! {

/// Top-level error type.
#[derive(Debug, Clone, PartialEq)]
pub enum FoundationError {
    /// An overflow occurred during an arithmetic operation.
    Overflow(String),
    /// A value was outside the acceptable range.
    OutOfRange(String),
    /// A validation check failed.
    ValidationFailed(String),
    /// A serialization or deserialization error occurred.
    SerializationError(String),
    /// A hashing error occurred.
    HashError(String),
    /// A context-related error occurred.
    ContextError(String),
    /// A transport-related error occurred.
    TransportError(String),
    /// An ID-related error occurred.
    IdError(String),
    /// A generic internal error.
    InternalError(String),
}

/// Alias for results carrying a `FoundationError`.
pub type FoundationResult<T> = Result<T, FoundationError>;

impl FoundationError {
    /// The message carried by the error.
    pub open spec fn message(self) -> Seq<char> {
        match self {
            FoundationError::Overflow(m) => m@,
            FoundationError::OutOfRange(m) => m@,
            FoundationError::ValidationFailed(m) => m@,
            FoundationError::SerializationError(m) => m@,
            FoundationError::HashError(m) => m@,
            FoundationError::ContextError(m) => m@,
            FoundationError::TransportError(m) => m@,
            FoundationError::IdError(m) => m@,
            FoundationError::InternalError(m) => m@,
        }
    }

    /// The name of the error's variant, as displayed.
    pub open spec fn kind_name(self) -> Seq<char> {
        match self {
            FoundationError::Overflow(_) => "Overflow"@,
            FoundationError::OutOfRange(_) => "OutOfRange"@,
            FoundationError::ValidationFailed(_) => "ValidationFailed"@,
            FoundationError::SerializationError(_) => "SerializationError"@,
            FoundationError::HashError(_) => "HashError"@,
            FoundationError::ContextError(_) => "ContextError"@,
            FoundationError::TransportError(_) => "TransportError"@,
            FoundationError::IdError(_) => "IdError"@,
            FoundationError::InternalError(_) => "InternalError"@,
        }
    }

    /// The human-readable rendering: `"<Kind>: <message>"`.
    pub open spec fn display(self) -> Seq<char> {
        self.kind_name() + ": "@ + self.message()
    }

    /// Renders the error as `"<Kind>: <message>"`.
    pub fn display_string(&self) -> (s: String)
        ensures
            s@ == self.display(),
    {
        let (kind, msg): (&str, &String) = match self {
            FoundationError::Overflow(m) => ("Overflow", m),
            FoundationError::OutOfRange(m) => ("OutOfRange", m),
            FoundationError::ValidationFailed(m) => ("ValidationFailed", m),
            FoundationError::SerializationError(m) => ("SerializationError", m),
            FoundationError::HashError(m) => ("HashError", m),
            FoundationError::ContextError(m) => ("ContextError", m),
            FoundationError::TransportError(m) => ("TransportError", m),
            FoundationError::IdError(m) => ("IdError", m),
            FoundationError::InternalError(m) => ("InternalError", m),
        };
        let mut s = String::from_str(kind);
        s.append(": ");
        s.append(msg.as_str());
        s
    }
}

/// `r` is an overflow error carrying message `m`.
pub open spec fn is_overflow<T>(r: FoundationResult<T>, m: Seq<char>) -> bool {
    r matches Err(FoundationError::Overflow(s)) && s@ == m
}

/// `r` is an out-of-range error carrying message `m`.
pub open spec fn is_out_of_range<T>(r: FoundationResult<T>, m: Seq<char>) -> bool {
    r matches Err(FoundationError::OutOfRange(s)) && s@ == m
}

/// `r` is a validation error carrying message `m`.
pub open spec fn is_validation_failed<T>(r: FoundationResult<T>, m: Seq<char>) -> bool {
    r matches Err(FoundationError::ValidationFailed(s)) && s@ == m
}

} // verus!
