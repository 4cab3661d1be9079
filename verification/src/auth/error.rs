//! What establishing or using an identity failed with.
use vstd::prelude::*;

use crate::errors::IoError;
use crate::text::push_text;

verus! {

/// What establishing or using an identity failed with.
#[derive(Debug)]
pub enum Error {
    /// A key or signature did not have the shape its algorithm gives it.
    Malformed,
    /// A signature did not verify.
    BadSignature,
    /// The peer proved an identity other than the one that was expected.
    UnexpectedIdentity,
    /// The handshake did not follow the protocol.
    Handshake,
    /// A record did not decrypt.
    BadRecord,
    /// The stream underneath failed.
    Io(IoError),
}

/// How a failure is written out; a stream failure is written with what the stream said.
pub open spec fn auth_error_text(error: Error) -> Seq<char> {
    match error {
        Error::Malformed => "a key or signature was malformed"@,
        Error::BadSignature => "a signature did not verify"@,
        Error::UnexpectedIdentity => "the peer proved an identity that was not expected"@,
        Error::Handshake => "the handshake did not follow the protocol"@,
        Error::BadRecord => "a record did not decrypt"@,
        Error::Io(source) => "the underlying stream failed: "@ + source@.1,
    }
}

impl Error {
    /// The failure written out as a sentence.
    pub fn to_string(&self) -> (text: String)
        ensures
            text@ == auth_error_text(*self),
    {
        let mut text = String::new();
        match self {
            Error::Malformed => push_text(&mut text, "a key or signature was malformed"),
            Error::BadSignature => push_text(&mut text, "a signature did not verify"),
            Error::UnexpectedIdentity => push_text(
                &mut text,
                "the peer proved an identity that was not expected",
            ),
            Error::Handshake => push_text(&mut text, "the handshake did not follow the protocol"),
            Error::BadRecord => push_text(&mut text, "a record did not decrypt"),
            Error::Io(source) => {
                push_text(&mut text, "the underlying stream failed: ");
                push_text(&mut text, source.message().as_str());
            },
        }
        text
    }

    /// Whether the failure carries a cause of its own: only a stream failure does.
    pub fn has_source(&self) -> (has: bool)
        ensures
            has == (*self is Io),
    {
        match self {
            Error::Io(_) => true,
            _ => false,
        }
    }
}

impl From<std::io::Error> for Error {
    fn from(source: std::io::Error) -> (error: Error)
        ensures
            error is Io,
    {
        Error::Io(IoError::from(source))
    }
}

impl vstd::std_specs::convert::FromSpecImpl<std::io::Error> for Error {
    /// What the stream said is read from an opaque failure, so no value is promised here.
    open spec fn obeys_from_spec() -> bool {
        false
    }

    open spec fn from_spec(source: std::io::Error) -> Error {
        arbitrary()
    }
}

} // verus!
