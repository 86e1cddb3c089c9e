//! Errors of the envelope and of the appliance's listings.

use vstd::prelude::*;

verus! {

#[verifier::external_type_specification]
#[verifier::external_body]
pub struct ExDecodeError(base64::DecodeError);

/// What can go wrong between receiving a response body and holding its
/// contents.
#[derive(Debug)]
pub enum Error {
    /// The body is not valid base64.
    Base64Error(base64::DecodeError),
    /// The decoded bytes are too short to hold an IV, or the ciphertext does
    /// not decrypt to correctly padded plaintext.
    DecryptionError,
    /// The plaintext is not a JSON document of the expected shape.
    JsonError,
    /// A directory entry that should name a number does not.
    MalformedEntry(String),
}

impl Error {
    /// Whether the error ends a synchronisation cycle. A listing that names
    /// something other than a number breaks the device's contract and stops
    /// the cycle; any other error costs only the item it came from.
    pub fn ends_cycle(&self) -> (r: bool)
        ensures
            r == (self is MalformedEntry),
    {
        match self {
            Error::MalformedEntry(_) => true,
            _ => false,
        }
    }

    /// A short description of the error's kind.
    pub fn describe(&self) -> (r: String)
        ensures
            self is Base64Error ==> r@ == "base64 decoding error"@,
            self is DecryptionError ==> r@ == "decryption error"@,
            self is JsonError ==> r@ == "JSON deserialization error"@,
            self is MalformedEntry ==> r@ == "malformed directory entry"@,
    {
        match self {
            Error::Base64Error(_) => String::from_str("base64 decoding error"),
            Error::DecryptionError => String::from_str("decryption error"),
            Error::JsonError => String::from_str("JSON deserialization error"),
            Error::MalformedEntry(_) => String::from_str("malformed directory entry"),
        }
    }
}

} // verus!
