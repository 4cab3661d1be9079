//! The daemon a Vault runs: what a Workspace and a Vault say before an action, who is admitted,
//! and how two stores are brought to hold the same keys.
pub mod wire;
pub mod carry;
pub mod session;
pub mod actions;
