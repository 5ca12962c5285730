use vstd::prelude::*;

verus! {

/// Errors reported by the framework.
#[derive(Debug)]
pub enum RmcError {
    Message(String),
    InvalidArgument(String),
    InvalidState(String),
    DuplicateResult(String),
}

pub type Result<T> = core::result::Result<T, RmcError>;

/// The text shown for an error: a kind prefix followed by its payload.
pub open spec fn error_text(err: RmcError) -> Seq<char> {
    match err {
        RmcError::Message(m) => m@,
        RmcError::InvalidArgument(m) => "invalid argument: "@ + m@,
        RmcError::InvalidState(m) => "invalid state: "@ + m@,
        RmcError::DuplicateResult(m) => "duplicate result path: "@ + m@,
    }
}

impl RmcError {
    /// Render the error as a human-readable message.
    pub fn text(&self) -> (r: String)
        ensures
            r@ == error_text(*self),
    {
        match self {
            RmcError::Message(m) => m.clone(),
            RmcError::InvalidArgument(m) => String::from_str("invalid argument: ").concat(m.as_str()),
            RmcError::InvalidState(m) => String::from_str("invalid state: ").concat(m.as_str()),
            RmcError::DuplicateResult(m) => String::from_str("duplicate result path: ").concat(m.as_str()),
        }
    }
}

} // verus!
