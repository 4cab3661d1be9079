//! What an action failed with.
use vstd::prelude::*;

use crate::auth::error::{auth_error_text, Error as AuthError};
use crate::decimal::{decimal_chars, decimal_text};
use crate::errors::{addr_error_text, AddrError, BincodeError, IoError, JsonError};
use crate::text::push_text;

verus! {

/// What an action failed with.
#[derive(Debug)]
pub enum ActionError {
    /// The action context has no channel to exchange over.
    NoChannel,
    /// The side that owns a value held none to send.
    MissingValue,
    /// A value was too long to frame.
    ValueTooLarge,
    /// The channel failed.
    Io(IoError),
    /// A value could not cross the channel: it would not encode or decode.
    Codec(BincodeError),
    /// No action answers to the id the peer asked for.
    UnknownAction(u32),
    /// What the action produced would not encode as JSON.
    Json(JsonError),
    /// A target would not read as an address.
    Addr(AddrError),
    /// The session could not be established.
    Auth(AuthError),
    /// A key that had to be held is held by neither side.
    MissingObject,
    /// A store failed, as it said.
    Store(String),
}

/// How a failure is written out.
pub open spec fn action_error_text(error: ActionError) -> Seq<char> {
    match error {
        ActionError::NoChannel => "the action context has no channel"@,
        ActionError::MissingValue => "the owning side held no value to send"@,
        ActionError::ValueTooLarge => "a value was too long to frame"@,
        ActionError::Io(source) => "the channel failed: "@ + source@.1,
        ActionError::Codec(source) => "a value could not cross the channel: "@ + source@,
        ActionError::UnknownAction(id) => "no action answers to id "@ + decimal_chars(id as nat),
        ActionError::Json(source) => "what the action produced would not encode: "@ + source@.0,
        ActionError::Addr(source) => addr_error_text(source@),
        ActionError::Auth(source) => "the session could not be established: "@ + auth_error_text(source),
        ActionError::MissingObject => "a key that had to be held is held by neither side"@,
        ActionError::Store(said) => "the store failed: "@ + said@,
    }
}

impl ActionError {
    /// The failure written out as a sentence.
    pub fn to_string(&self) -> (text: String)
        ensures
            text@ == action_error_text(*self),
    {
        let mut text = String::new();
        match self {
            ActionError::NoChannel => push_text(&mut text, "the action context has no channel"),
            ActionError::MissingValue => push_text(&mut text, "the owning side held no value to send"),
            ActionError::ValueTooLarge => push_text(&mut text, "a value was too long to frame"),
            ActionError::Io(source) => {
                push_text(&mut text, "the channel failed: ");
                push_text(&mut text, source.message().as_str());
            },
            ActionError::Codec(source) => {
                push_text(&mut text, "a value could not cross the channel: ");
                push_text(&mut text, source.message().as_str());
            },
            ActionError::UnknownAction(id) => {
                push_text(&mut text, "no action answers to id ");
                push_text(&mut text, decimal_text(*id as u64).as_str());
            },
            ActionError::Json(source) => {
                push_text(&mut text, "what the action produced would not encode: ");
                push_text(&mut text, source.message().as_str());
            },
            ActionError::Addr(source) => {
                push_text(&mut text, source.to_string().as_str());
            },
            ActionError::Auth(source) => {
                push_text(&mut text, "the session could not be established: ");
                push_text(&mut text, source.to_string().as_str());
            },
            ActionError::MissingObject => push_text(
                &mut text,
                "a key that had to be held is held by neither side",
            ),
            ActionError::Store(said) => {
                push_text(&mut text, "the store failed: ");
                push_text(&mut text, said.as_str());
            },
        }
        text
    }

    /// Whether the failure carries a cause of its own.
    pub fn has_source(&self) -> (has: bool)
        ensures
            has == (*self is Io || *self is Codec || *self is Json || *self is Addr || *self is Auth),
    {
        match self {
            ActionError::Io(_) | ActionError::Codec(_) | ActionError::Json(_) | ActionError::Addr(_)
            | ActionError::Auth(_) => true,
            _ => false,
        }
    }
}

impl From<std::io::Error> for ActionError {
    fn from(source: std::io::Error) -> (error: ActionError)
        ensures
            error is Io,
    {
        ActionError::Io(IoError::from(source))
    }
}

impl vstd::std_specs::convert::FromSpecImpl<std::io::Error> for ActionError {
    /// What the channel said is read from an opaque failure, so no value is promised here.
    open spec fn obeys_from_spec() -> bool {
        false
    }

    open spec fn from_spec(source: std::io::Error) -> ActionError {
        arbitrary()
    }
}

impl From<bincode2::Error> for ActionError {
    fn from(source: bincode2::Error) -> (error: ActionError)
        ensures
            error is Codec,
    {
        ActionError::Codec(BincodeError::from(source))
    }
}

impl vstd::std_specs::convert::FromSpecImpl<bincode2::Error> for ActionError {
    /// What the codec said is read from an opaque failure, so no value is promised here.
    open spec fn obeys_from_spec() -> bool {
        false
    }

    open spec fn from_spec(source: bincode2::Error) -> ActionError {
        arbitrary()
    }
}

impl From<AuthError> for ActionError {
    fn from(source: AuthError) -> (error: ActionError)
        ensures
            error == ActionError::Auth(source),
    {
        ActionError::Auth(source)
    }
}

impl vstd::std_specs::convert::FromSpecImpl<AuthError> for ActionError {
    open spec fn obeys_from_spec() -> bool {
        true
    }

    open spec fn from_spec(source: AuthError) -> ActionError {
        ActionError::Auth(source)
    }
}

} // verus!
