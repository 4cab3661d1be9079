//! What the two sides of an action say to each other: which side holds what, and how a value
//! crosses.
pub mod data;
pub mod encode;
pub mod error;
pub mod address;
pub mod sync;
