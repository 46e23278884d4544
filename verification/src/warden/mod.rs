//! Warden: the encrypted secret vault for agents.
pub mod crypto;
pub mod master_key;
pub mod vault;
