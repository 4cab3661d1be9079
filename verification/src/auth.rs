//! Identities and the channel two of them speak over: what a key is and what it proves, where
//! keys are found, and the handshake and records of a secure session.
pub mod error;
pub mod key;
pub mod identity;
pub mod channel;
pub mod exchange;
pub mod session;
