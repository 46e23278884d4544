//! NullBox core: service ordering, supervision, agent manifests, VM
//! bookkeeping, egress rules and the secret vault, with their contracts.

pub mod text;
pub mod order;
pub mod hex_text;
pub mod nulld;

pub mod cage;
pub mod egress;
pub mod ctxgraph;
pub mod warden;
