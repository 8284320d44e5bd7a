use vstd::prelude::*;
use vstd::string::StringExecFns;

verus! {

/// A lookup, removal or state change named an identifier that is not registered.
#[derive(Debug)]
pub struct NotFoundError;

/// An insertion named an identifier that is already registered.
#[derive(Debug)]
pub struct DuplicatedKeyError;

/// A node was requested with a weight that is not positive.
#[derive(Debug)]
pub struct InvalidParameterError;

impl NotFoundError {
    /// The text shown for this error.
    pub fn message(&self) -> (text: String)
        ensures
            text@ == "Not found"@,
    {
        String::from_str("Not found")
    }
}

impl DuplicatedKeyError {
    /// The text shown for this error.
    pub fn message(&self) -> (text: String)
        ensures
            text@ == "Duplicated key"@,
    {
        String::from_str("Duplicated key")
    }
}

impl InvalidParameterError {
    /// The text shown for this error.
    pub fn message(&self) -> (text: String)
        ensures
            text@ == "Invalid parameter"@,
    {
        String::from_str("Invalid parameter")
    }
}

} // verus!
