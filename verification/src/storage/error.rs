//! What a storage operation failed with.
use vstd::prelude::*;

use super::key::{key_text, Key};
use crate::text::push_text;

verus! {

/// What a storage operation failed with.
///
/// Every backend is free to name its own failure, but this is what they all mean, so a caller
/// that only wants to tell one kind of failure from another has one thing to read.
#[derive(Debug)]
pub enum Error {
    /// Nothing is stored under the key.
    NotFound(Key),
    /// What is stored under the key does not hash to it.
    Corrupt(Key),
    /// What is stored does not read as the format it says it is in: a frame that will not
    /// parse, an encoding that will not decode, a chunk list that will not read.
    Malformed,
    /// The storage itself failed.
    Io(std::io::Error),
}

/// How a failure that names no I/O failure is written out.
pub open spec fn error_text(error: Error) -> Seq<char> {
    match error {
        Error::NotFound(key) => "no object is stored under "@ + key_text(key),
        Error::Corrupt(key) => "what is stored under "@ + key_text(key) + " does not hash to it"@,
        Error::Malformed => "what is stored does not read as its format"@,
        Error::Io(_) => "the storage failed: "@,
    }
}

/// What an I/O failure says when it is written out.
///
/// `ToString::to_string` on an opaque I/O failure: nothing is claimed of the text.
#[verifier::external_body]
fn io_message(failure: &std::io::Error) -> String {
    failure.to_string()
}

impl Error {
    /// The failure written out as a sentence.
    ///
    /// An I/O failure is written as what the storage failed with, after a fixed start; the
    /// others are written in full by the contract.
    pub fn to_string(&self) -> (text: String)
        ensures
            !(*self is Io) ==> text@ == error_text(*self),
            *self is Io ==> error_text(*self).is_prefix_of(text@),
    {
        let mut text = String::new();
        match self {
            Error::NotFound(key) => {
                push_text(&mut text, "no object is stored under ");
                push_text(&mut text, key.to_string().as_str());
            },
            Error::Corrupt(key) => {
                push_text(&mut text, "what is stored under ");
                push_text(&mut text, key.to_string().as_str());
                push_text(&mut text, " does not hash to it");
            },
            Error::Malformed => {
                push_text(&mut text, "what is stored does not read as its format");
            },
            Error::Io(source) => {
                push_text(&mut text, "the storage failed: ");
                let ghost start = text@;
                push_text(&mut text, io_message(source).as_str());
                assert(start.is_prefix_of(text@));
            },
        }
        text
    }
}

impl From<std::io::Error> for Error {
    fn from(source: std::io::Error) -> (error: Error)
        ensures
            error is Io,
    {
        Error::Io(source)
    }
}

impl vstd::std_specs::convert::FromSpecImpl<std::io::Error> for Error {
    open spec fn obeys_from_spec() -> bool {
        true
    }

    open spec fn from_spec(source: std::io::Error) -> Error {
        Error::Io(source)
    }
}

} // verus!
