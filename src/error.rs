use vstd::prelude::*;

verus! {

/// Declares `std::io::Error`, carried unchanged by `Error::IO`.
#[verifier::external_type_specification]
#[verifier::external_body]
pub struct ExIoError(std::io::Error);

/// Declares `std::str::Utf8Error`, carried unchanged by `InputError::Utf8`.
#[verifier::external_type_specification]
#[verifier::external_body]
pub struct ExUtf8Error(std::str::Utf8Error);

/// Why bytes that end at a record boundary could not be decoded.
#[derive(Debug, Clone, Copy, PartialEq, Eq, Structural)]
pub enum DeserializationError {
    KeySizeTooBig,
    ValueSizeTooBig,
    DataTooShort,
}

/// A caller broke a precondition of an operation.
#[derive(Debug)]
pub enum InputError {
    Utf8(std::str::Utf8Error),
    KeySize(usize),
    ValueSize(usize),
}

#[derive(Debug)]
pub enum Error {
    Input(InputError),
    IO(std::io::Error),
    /// Indicates that the data on disk was corrupted.
    Data(DeserializationError),
}

/// Error code for keys that could not be found.
pub const ERR_NOT_FOUND: i32 = 1;

/// Error code for I/O errors.
pub const ERR_IO: i32 = 10;

/// Error code for invalid UTF-8 (an input error).
pub const ERR_UTF8: i32 = 30;

/// Error code for an invalid key size (an input error).
pub const ERR_KEY_SIZE: i32 = 31;

/// Error code for an invalid value size (an input error).
pub const ERR_VALUE_SIZE: i32 = 32;

/// Error code for data errors: the data on disk is corrupted.
pub const ERR_DATA: i32 = 50;

/// The stable numeric code under which an error is reported to a host.
pub open spec fn code_of(e: &Error) -> i32 {
    match e {
        Error::IO(_) => ERR_IO,
        Error::Input(InputError::Utf8(_)) => ERR_UTF8,
        Error::Input(InputError::KeySize(_)) => ERR_KEY_SIZE,
        Error::Input(InputError::ValueSize(_)) => ERR_VALUE_SIZE,
        Error::Data(_) => ERR_DATA,
    }
}

/// Maps an error to its stable numeric code.
pub fn to_errno(e: &Error) -> (r: i32)
    ensures
        r == code_of(e),
{
    match e {
        Error::IO(_) => ERR_IO,
        Error::Input(InputError::Utf8(_)) => ERR_UTF8,
        Error::Input(InputError::KeySize(_)) => ERR_KEY_SIZE,
        Error::Input(InputError::ValueSize(_)) => ERR_VALUE_SIZE,
        Error::Data(_) => ERR_DATA,
    }
}

} // verus!
