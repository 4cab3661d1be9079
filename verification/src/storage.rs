//! Content-addressed storage: what a store keeps, and the formats it keeps it in.
pub mod key;
pub mod codec;
pub mod error;
pub mod frame;
pub mod manifest;
pub mod pack;
pub mod chunk;
pub mod zip;
pub mod algorithm;
pub mod presence;
pub mod config;
pub mod store;
pub mod transfer;
pub mod lock;
pub mod keyset;
pub mod repack;
