//! The preamble a Workspace and a Vault exchange before an action runs.
//!
//! The Workspace speaks first: it names the action it wants run, the account it acts as, and which
//! Vault under the daemon it means. The Vault answers with two bytes that echo the action's id, and
//! only then do both sides start the action. The request is framed the way a synced value is, a
//! four-byte length and then its encoding; the confirmation is exactly the two bytes it is.
use vstd::prelude::*;

use crate::auth::channel::{be32, be32_value};
use crate::protocol::error::ActionError;

verus! {

/// The largest request a Vault will read: a request is an id and a few names.
pub const MAX_REQUEST: usize = 4096;

/// What a Workspace asks a Vault for.
#[derive(Debug, Clone)]
pub struct Request {
    /// The id of the action to run.
    pub id: u32,
    /// The account the Workspace acts as.
    pub account: String,
    /// The Vault under the daemon's own that is being reached for; empty for the one it serves.
    pub sub: String,
}

/// The two bytes that confirm the action id `id`: its low two, most significant first.
pub open spec fn confirmation_of(id: u32) -> Seq<u8> {
    seq![((id / 256) % 256) as u8, (id % 256) as u8]
}

/// The two bytes that confirm an action id: its low two, in big-endian order.
pub fn confirmation(id: u32) -> (bytes: [u8; 2])
    ensures
        bytes@ == confirmation_of(id),
{
    let bytes = [((id / 256) % 256) as u8, (id % 256) as u8];
    assert(bytes@ =~= confirmation_of(id));
    bytes
}

/// Whether `bytes` confirm the action id `id`.
pub fn confirms(id: u32, bytes: &[u8; 2]) -> (confirmed: bool)
    ensures
        confirmed == (bytes@ == confirmation_of(id)),
{
    let expected = confirmation(id);
    let confirmed = bytes[0] == expected[0] && bytes[1] == expected[1];
    proof {
        if confirmed {
            assert(bytes@ =~= confirmation_of(id));
        } else {
            assert(bytes@[0] != expected@[0] || bytes@[1] != expected@[1]);
        }
    }
    confirmed
}

/// The frame a request's encoding crosses in: its length in four bytes, most significant first,
/// and then the encoding.
///
/// An encoding whose length does not fit those four bytes is `ActionError::ValueTooLarge`.
pub fn request_frame(encoding: &[u8]) -> (frame: Result<Vec<u8>, ActionError>)
    ensures
        frame is Ok <==> encoding@.len() <= u32::MAX,
        frame matches Ok(bytes) ==> bytes@ == be32(encoding@.len() as u32) + encoding@,
        frame matches Err(error) ==> error is ValueTooLarge,
{
    if encoding.len() > 4294967295usize {
        return Err(ActionError::ValueTooLarge);
    }
    let value = encoding.len() as u32;
    let mut bytes: Vec<u8> = Vec::new();
    bytes.push((value / 16777216) as u8);
    bytes.push(((value / 65536) % 256) as u8);
    bytes.push(((value / 256) % 256) as u8);
    bytes.push((value % 256) as u8);
    let mut i: usize = 0;
    while i < encoding.len()
        invariant
            i <= encoding@.len(),
            bytes@ == be32(value) + encoding@.take(i as int),
        decreases encoding.len() - i,
    {
        bytes.push(encoding[i]);
        i = i + 1;
        assert(bytes@ =~= be32(value) + encoding@.take(i as int));
    }
    assert(encoding@.take(i as int) =~= encoding@);
    Ok(bytes)
}

/// How long the request behind `header` is.
///
/// One longer than [`MAX_REQUEST`] is not a request, and is `ActionError::ValueTooLarge`: it is
/// refused before anything is read for it.
pub fn request_length(header: &[u8; 4]) -> (length: Result<usize, ActionError>)
    ensures
        length is Ok <==> be32_value(header@) <= MAX_REQUEST,
        length matches Ok(n) ==> n == be32_value(header@),
        length matches Err(error) ==> error is ValueTooLarge,
{
    let length = (header[0] as usize) * 16777216 + (header[1] as usize) * 65536 + (header[2] as usize)
        * 256 + (header[3] as usize);
    if length > MAX_REQUEST {
        return Err(ActionError::ValueTooLarge);
    }
    Ok(length)
}

} // verus!
