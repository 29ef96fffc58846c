//! A B+Tree index layered on an append-only, offset-addressed record
//! log: sorted pages with bounded fan-out, copy-on-write updates that
//! only ever append new page versions, tombstone-based deletion, and
//! a fixed self-describing binary form for every page.

pub mod codec;
pub mod files;
pub mod keys;
pub mod log;
pub mod mailbox;
pub mod node;
pub mod tree;
