//! ctxgraph: the shared agent memory. Entries are content-addressed.
pub mod entry;
