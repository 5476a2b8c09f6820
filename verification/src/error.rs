//! The error type of the library.
use vstd::prelude::*;

verus! {

/// Unified error type for FerrumDB.
#[derive(Debug, PartialEq, Eq)]
pub enum FerrumError {
    /// An I/O operation failed; the message describes the failure.
    Io(String),
    /// Encoding or decoding a record failed; the message describes the failure.
    Bincode(String),
    Corruption(String),
    InvalidCommand(String),
    InvalidConfig(String),
    MissingArgument(&'static str),
}

/// The text that describes an error to a user.
pub open spec fn spec_error_message(e: FerrumError) -> Seq<char> {
    match e {
        FerrumError::Io(m) => "IO error: "@ + m@,
        FerrumError::Bincode(m) => "Bincode error: "@ + m@,
        FerrumError::Corruption(m) => "Data corruption: "@ + m@,
        FerrumError::InvalidCommand(m) => "Unknown command: "@ + m@,
        FerrumError::InvalidConfig(m) => "Invalid config: "@ + m@,
        FerrumError::MissingArgument(a) => "Missing argument: "@ + a@,
    }
}

impl FerrumError {
    /// The text that describes this error to a user.
    pub fn message(&self) -> (m: String)
        ensures
            m@ == spec_error_message(*self),
    {
        let (prefix, detail): (&str, &str) = match self {
            FerrumError::Io(m) => ("IO error: ", m.as_str()),
            FerrumError::Bincode(m) => ("Bincode error: ", m.as_str()),
            FerrumError::Corruption(m) => ("Data corruption: ", m.as_str()),
            FerrumError::InvalidCommand(m) => ("Unknown command: ", m.as_str()),
            FerrumError::InvalidConfig(m) => ("Invalid config: ", m.as_str()),
            FerrumError::MissingArgument(a) => ("Missing argument: ", *a),
        };
        let mut out = String::from_str(prefix);
        out.append(detail);
        out
    }
}

} // verus!
