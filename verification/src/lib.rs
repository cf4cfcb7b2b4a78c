//! Decoder for a binary pack index: header and version validation, the
//! cumulative fanout table, three parallel per-entry tables (digest,
//! checksum, packed offset) and two-tier offset resolution; together with a
//! small line-oriented configuration reader.

pub mod endian;
pub mod git_config;
pub mod index;
pub mod laws;
