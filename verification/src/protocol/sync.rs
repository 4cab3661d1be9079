//! How a value crosses from the side that holds it to the side that does not.
//!
//! A value is owned by one side: that side sends it and the other receives it, so both call the
//! same exchange for the same value at the same time and which way it goes is the value's to say.
//! What crosses is one frame: the encoding's length in four bytes, most significant first, and then
//! the encoding. A frame is bounded, so a peer cannot have four gigabytes allocated by claiming them.
use vstd::prelude::*;

use crate::auth::channel::{be32, be32_value};
use crate::protocol::data::ActionSide;
use crate::protocol::error::ActionError;

verus! {

/// The longest value one frame carries.
pub const MAX_FRAME: usize = 16777216;

/// The frame `encoding` crosses in: its length, and then itself.
///
/// An encoding longer than [`MAX_FRAME`] is `ActionError::ValueTooLarge`, and nothing is framed.
pub fn value_frame(encoding: &[u8]) -> (frame: Result<Vec<u8>, ActionError>)
    ensures
        frame is Ok <==> encoding@.len() <= MAX_FRAME,
        frame matches Ok(bytes) ==> bytes@ == be32(encoding@.len() as u32) + encoding@,
        frame matches Err(error) ==> error is ValueTooLarge,
{
    if encoding.len() > MAX_FRAME {
        return Err(ActionError::ValueTooLarge);
    }
    let value = encoding.len() as u32;
    let mut bytes: Vec<u8> = Vec::new();
    bytes.push((value / 16777216) as u8);
    bytes.push(((value / 65536) % 256) as u8);
    bytes.push(((value / 256) % 256) as u8);
    bytes.push((value % 256) as u8);
    let mut i: usize = 0;
    while i < encoding.len()
        invariant
            i <= encoding@.len(),
            bytes@ == be32(value) + encoding@.take(i as int),
        decreases encoding.len() - i,
    {
        bytes.push(encoding[i]);
        i = i + 1;
        assert(bytes@ =~= be32(value) + encoding@.take(i as int));
    }
    assert(encoding@.take(i as int) =~= encoding@);
    Ok(bytes)
}

/// How long the value behind the frame header `header` is.
///
/// A header that claims more than [`MAX_FRAME`] is `ActionError::ValueTooLarge`: it is refused
/// before anything is read for it.
pub fn value_length(header: &[u8; 4]) -> (length: Result<usize, ActionError>)
    ensures
        length is Ok <==> be32_value(header@) <= MAX_FRAME,
        length matches Ok(n) ==> n == be32_value(header@),
        length matches Err(error) ==> error is ValueTooLarge,
{
    let length = (header[0] as usize) * 16777216 + (header[1] as usize) * 65536 + (header[2] as usize)
        * 256 + (header[3] as usize);
    if length > MAX_FRAME {
        return Err(ActionError::ValueTooLarge);
    }
    Ok(length)
}

/// What this side does with a value in an exchange.
#[derive(Debug, Clone, Copy, PartialEq, Eq, Structural)]
pub enum Role {
    /// This side owns the value, and sends it.
    Send,
    /// The other side owns the value, and this side receives it.
    Receive,
}

/// What the side `here` does with a value that `owner` owns, where `held` says whether this side
/// holds one.
///
/// The owner sends and the other side receives. An owner that holds nothing has nothing to send,
/// which is `ActionError::MissingValue`; the side receiving holds nothing, and is not asked to.
pub fn exchange_role(owner: ActionSide, here: ActionSide, held: bool) -> (role: Result<
    Role,
    ActionError,
>)
    ensures
        owner == here && held ==> role == Ok::<Role, ActionError>(Role::Send),
        owner == here && !held ==> (role matches Err(error) && error is MissingValue),
        owner != here ==> role == Ok::<Role, ActionError>(Role::Receive),
{
    if owner == here {
        if held {
            Ok(Role::Send)
        } else {
            Err(ActionError::MissingValue)
        }
    } else {
        Ok(Role::Receive)
    }
}

} // verus!
