//! The library's error type.
use vstd::prelude::*;

verus! {

/// `std::io::Error`, carried through from the file reading around the library.
#[verifier::external_type_specification]
#[verifier::external_body]
pub struct ExIoError(std::io::Error);

/// `serde_json::Error`, carried through from JSON decoding.
#[verifier::external_type_specification]
#[verifier::external_body]
pub struct ExSerdeJsonError(serde_json::Error);

/// `base64::DecodeError`, returned by the Base64 decoder.
#[verifier::external_type_specification]
#[verifier::external_body]
pub struct ExBase64DecodeError(base64::DecodeError);

/// Everything that can go wrong while reading a Joplin directory.
#[derive(Debug)]
pub enum JoplinError {
    Io(std::io::Error),
    SerdeJson(serde_json::Error),
    Base64(base64::DecodeError),
    Decode(String),
    Encryption(String),
    Password(String),
    Usage,
}

/// The decoding error that carries `msg`.
pub fn decode_error(msg: String) -> (res: JoplinError)
    ensures
        res matches JoplinError::Decode(m) && m@ == msg@,
{
    JoplinError::Decode(msg)
}

impl From<std::io::Error> for JoplinError {
    fn from(value: std::io::Error) -> (res: Self) {
        JoplinError::Io(value)
    }
}

impl vstd::std_specs::convert::FromSpecImpl<std::io::Error> for JoplinError {
    open spec fn obeys_from_spec() -> bool {
        true
    }

    open spec fn from_spec(v: std::io::Error) -> Self {
        JoplinError::Io(v)
    }
}

impl From<serde_json::Error> for JoplinError {
    fn from(value: serde_json::Error) -> (res: Self) {
        JoplinError::SerdeJson(value)
    }
}

impl vstd::std_specs::convert::FromSpecImpl<serde_json::Error> for JoplinError {
    open spec fn obeys_from_spec() -> bool {
        true
    }

    open spec fn from_spec(v: serde_json::Error) -> Self {
        JoplinError::SerdeJson(v)
    }
}

impl From<base64::DecodeError> for JoplinError {
    fn from(value: base64::DecodeError) -> (res: Self) {
        JoplinError::Base64(value)
    }
}

impl vstd::std_specs::convert::FromSpecImpl<base64::DecodeError> for JoplinError {
    open spec fn obeys_from_spec() -> bool {
        true
    }

    open spec fn from_spec(v: base64::DecodeError) -> Self {
        JoplinError::Base64(v)
    }
}

} // verus!
