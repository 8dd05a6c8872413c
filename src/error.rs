use vstd::prelude::*;

verus! {

/// The two ways that building a value can fail.
#[derive(Debug, Clone, PartialEq, Eq)]
pub enum FsError {
    /// The input is well-typed but breaks the value's own grammar or range.
    InvalidValue(String),
    /// The input names a `"type"` tag outside the supported set.
    InvalidType(String),
}

impl FsError {
    /// The message, prefixed with the kind of error.
    pub fn to_text(&self) -> (r: String)
        ensures
            r@ == match self {
                FsError::InvalidValue(m) => "InvalidValue: "@ + m@,
                FsError::InvalidType(m) => "InvalidType: "@ + m@,
            },
    {
        match self {
            FsError::InvalidValue(m) => String::from_str("InvalidValue: ").concat(m.as_str()),
            FsError::InvalidType(m) => String::from_str("InvalidType: ").concat(m.as_str()),
        }
    }

    /// An `InvalidValue` error carrying `message`.
    pub fn invalid_value(message: &str) -> (r: FsError)
        ensures
            r is InvalidValue,
            r->InvalidValue_0@ == message@,
    {
        FsError::InvalidValue(String::from_str(message))
    }
}

} // verus!
