use vstd::prelude::*;

verus! {

/// Every failure of the pipeline. Each stage's failure is a hard stop for the
/// whole invocation; only best-effort workspace cleanup swallows its errors.
#[derive(Debug, Clone)]
pub enum CargoPlayError {
    /// A file or process operation failed; holds the reported message.
    IOError(String),
    /// A dependency fragment or a source unit could not be parsed.
    ParseError(String),
    /// A source unit's location has no relative path against the entry
    /// unit's base directory; holds the offending path.
    DiffPathError(String),
    /// The configured edition is outside the accepted set.
    InvalidEdition(String),
    /// The export destination already exists as a directory.
    PathExistError(String),
    /// Helper error kind only exists for development purpose.
    _Message(String),
}

impl CargoPlayError {
    /// Wraps the message of a failed parse or serialization.
    pub fn from_serde(value: String) -> (r: Self)
        ensures
            r == CargoPlayError::ParseError(value),
    {
        CargoPlayError::ParseError(value)
    }

    pub fn _message(value: String) -> (r: Self)
        ensures
            r == CargoPlayError::_Message(value),
    {
        CargoPlayError::_Message(value)
    }
}

} // verus!
