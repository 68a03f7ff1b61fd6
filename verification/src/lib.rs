//! A content-addressed record store: its rules, wire forms and decisions, verified.
//!
//! Content is carved into pieces named by BLAKE3, records are programs over those pieces, a
//! write-ahead log carries what is not yet committed, and a chain of manifests decides which
//! immutable parts are current. This crate holds the rules of that store as functions on plain
//! values. Files, locks and encoded parts belong to the host that calls it.

pub mod bytes;
pub mod container;
pub mod fold;
pub mod hash;
pub mod memtable;
pub mod part;
pub mod read_limits;
pub mod store;
pub mod sys;
pub mod text;
pub mod types;
pub mod varint;
pub mod vfs;
