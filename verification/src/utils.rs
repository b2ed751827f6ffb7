//! Utility structures of the build pipeline.

pub mod sig_store;
