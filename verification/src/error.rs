//! The failures that a decoder reports.

use vstd::prelude::*;
use vstd::std_specs::convert::FromSpecImpl;

verus! {

/// Lets an operating-system level failure be carried inside [`ParserError::Io`].
/// Nothing is known of what such a value holds.
#[verifier::external_type_specification]
#[verifier::external_body]
pub struct ExIoError(std::io::Error);

/// Lets the failure of `String::from_utf8` be received. Nothing is known of
/// what such a value holds.
#[verifier::external_type_specification]
#[verifier::external_body]
pub struct ExFromUtf8Error(std::string::FromUtf8Error);

/// Lets the failure of `String::from_utf16` be received. Nothing is known of
/// what such a value holds.
#[verifier::external_type_specification]
#[verifier::external_body]
pub struct ExFromUtf16Error(std::string::FromUtf16Error);

/// Lets the failure of a read through `byteorder` be received. Nothing is
/// known of what such a value holds.
#[verifier::external_type_specification]
#[verifier::external_body]
pub struct ExByteorderError(byteorder::Error);

/// What went wrong while events were produced.
#[derive(Debug)]
pub enum ParserError {
    /// The source is not a well-formed property list.
    InvalidData,
    /// The source ended where more bytes were needed.
    UnexpectedEof,
    /// The source holds an object that the decoder does not handle.
    UnsupportedType,
    /// Moving in the source, or reading from it, failed.
    Io(std::io::Error),
}

/// What a decoder gives: a value, or the reason why there is none.
pub type ParserResult<T> = Result<T, ParserError>;

/// A failure without the payload that the operating system attached to it.
#[derive(Clone, Copy, Debug, PartialEq, Eq, Structural)]
pub enum ErrorClass {
    InvalidData,
    UnexpectedEof,
    UnsupportedType,
    Io,
}

impl ParserError {
    /// The class that this failure belongs to.
    pub open spec fn class_of(&self) -> ErrorClass {
        match *self {
            ParserError::InvalidData => ErrorClass::InvalidData,
            ParserError::UnexpectedEof => ErrorClass::UnexpectedEof,
            ParserError::UnsupportedType => ErrorClass::UnsupportedType,
            ParserError::Io(_) => ErrorClass::Io,
        }
    }

    /// The class that this failure belongs to.
    #[verifier::when_used_as_spec(class_of)]
    pub fn class(&self) -> (c: ErrorClass)
        ensures
            c == self.class_of(),
    {
        match self {
            ParserError::InvalidData => ErrorClass::InvalidData,
            ParserError::UnexpectedEof => ErrorClass::UnexpectedEof,
            ParserError::UnsupportedType => ErrorClass::UnsupportedType,
            ParserError::Io(_) => ErrorClass::Io,
        }
    }
}

impl From<std::io::Error> for ParserError {
    fn from(io_error: std::io::Error) -> (r: ParserError) {
        ParserError::Io(io_error)
    }
}

impl FromSpecImpl<std::io::Error> for ParserError {
    open spec fn obeys_from_spec() -> bool {
        true
    }

    open spec fn from_spec(io_error: std::io::Error) -> ParserError {
        ParserError::Io(io_error)
    }
}

impl From<std::string::FromUtf16Error> for ParserError {
    fn from(error: std::string::FromUtf16Error) -> (r: ParserError) {
        ParserError::InvalidData
    }
}

impl FromSpecImpl<std::string::FromUtf16Error> for ParserError {
    open spec fn obeys_from_spec() -> bool {
        true
    }

    open spec fn from_spec(error: std::string::FromUtf16Error) -> ParserError {
        ParserError::InvalidData
    }
}

impl From<std::string::FromUtf8Error> for ParserError {
    fn from(error: std::string::FromUtf8Error) -> (r: ParserError) {
        ParserError::InvalidData
    }
}

impl FromSpecImpl<std::string::FromUtf8Error> for ParserError {
    open spec fn obeys_from_spec() -> bool {
        true
    }

    open spec fn from_spec(error: std::string::FromUtf8Error) -> ParserError {
        ParserError::InvalidData
    }
}

/// Tells the two variants of `byteorder::Error` apart: its `UnexpectedEOF`
/// becomes [`ParserError::UnexpectedEof`], and its `Io` becomes
/// [`ParserError::Io`] with the same payload. Which of the two comes out is
/// not known here, only that it is one of them.
#[verifier::external_body]
fn from_byteorder_error(err: byteorder::Error) -> (r: ParserError)
    ensures
        r is UnexpectedEof || r is Io,
{
    match err {
        byteorder::Error::UnexpectedEOF => ParserError::UnexpectedEof,
        byteorder::Error::Io(err) => ParserError::Io(err),
    }
}

impl From<byteorder::Error> for ParserError {
    fn from(err: byteorder::Error) -> (r: ParserError)
        ensures
            r is UnexpectedEof || r is Io,
    {
        from_byteorder_error(err)
    }
}

impl FromSpecImpl<byteorder::Error> for ParserError {
    /// What comes out depends on what the failure holds, so that `from` is
    /// described by its own contract and by no function of its argument.
    open spec fn obeys_from_spec() -> bool {
        false
    }

    open spec fn from_spec(err: byteorder::Error) -> ParserError {
        ParserError::UnexpectedEof
    }
}

/// Calls `std::io::Error::new` with the kind `InvalidInput`: the failure that a
/// seekable source reports when asked to move before its first byte.
/// Nothing is claimed of the value returned.
#[verifier::external_body]
pub(crate) fn invalid_seek() -> std::io::Error {
    std::io::Error::new(std::io::ErrorKind::InvalidInput, "invalid seek to a negative position")
}

} // verus!
