//! The init process: service ordering, configuration, mounts, signals and
//! supervision.

pub mod service;
pub mod signal;
pub mod supervisor;
pub mod config;
pub mod mount;
