//! The agent VM manager: manifests, VM configuration and lifecycle.

pub mod krun;
pub mod manifest;
pub mod vm;
