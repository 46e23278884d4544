//! Egress: the default-deny network controller's address blocklist and
//! nftables ruleset generation.
pub mod ip;
pub mod blocklist;
pub mod firewall;
pub mod registry;
