//! Persistent-state core of a federated mint: a byte-ordered key-value store,
//! a typed key namespace over it, and the nonce-registry, signature-share
//! collection, outcome, audit and backup logic layered on top.

pub mod bytes;
pub mod keys;
pub mod store;
pub mod engine;
