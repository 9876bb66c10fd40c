//! The errors that the library hands to its callers.

use vstd::prelude::*;
use vstd::string::StringExecFns;

verus! {

/// Why a byte string was refused as UTF-8 text.
#[verifier::external_type_specification]
#[verifier::external_body]
pub struct ExFromUtf8Error(std::string::FromUtf8Error);

/// An error that is known by its message alone.
#[derive(Debug)]
pub struct GenericError {
    message: String,
}

impl GenericError {
    /// The message of the error.
    pub closed spec fn message(self) -> Seq<char> {
        self.message@
    }

    /// An error with the message `message`.
    pub fn new(message: &str) -> (e: GenericError)
        ensures
            e.message() == message@,
    {
        GenericError { message: String::from_str(message) }
    }

    /// The message, as it was given.
    pub fn description(&self) -> (s: &str)
        ensures
            s@ == self.message(),
    {
        self.message.as_str()
    }

    /// The message behind the words `Store error: `.
    pub fn to_string(&self) -> (s: String)
        ensures
            s@ == "Store error: "@ + self.message(),
    {
        String::from_str("Store error: ").concat(self.message.as_str())
    }
}

/// What can go wrong in the library and around it.
#[derive(Debug)]
pub enum RedError {
    /// An error of the library's own, with its message.
    Generic(GenericError),
    /// Bytes that should have been UTF-8 text and were not.
    FromUtf8(std::string::FromUtf8Error),
}

impl RedError {
    /// A generic error with the message `message`.
    pub fn generic(message: &str) -> (e: RedError)
        ensures
            e matches RedError::Generic(g) && g.message() == message@,
    {
        RedError::Generic(GenericError::new(message))
    }
}

} // verus!
