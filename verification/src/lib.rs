//! Content-addressed storage, the wire formats two ends speak, and the identities they prove.
use vstd::prelude::*;

pub mod bytes;
pub mod storage;
pub mod text;
pub mod errors;
pub mod decimal;
pub mod protocol;
pub mod auth;
pub mod repeat;
pub mod daemon;

pub use storage::key::{Key, BLAKE3_HASH_LEN};

verus! {

} // verus!
