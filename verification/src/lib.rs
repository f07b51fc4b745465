//! Hashline: hash-anchored, line-level file editing.
//!
//! Lines are addressed by a 1-based line number plus a two-character
//! short hash of their content. The modules below hold the text model, the
//! anchors, the mutations and the merge used to recover from stale anchors.

pub mod text;
pub mod ascii;
pub mod merge;
pub mod hash;
pub mod normalize;
pub mod error;
pub mod document;
pub mod mutation;
pub mod anchor;
pub mod noop_guard;
pub mod cli;
pub mod context;
pub mod orchestration;
pub mod config;
pub mod output;
pub mod messages;
pub mod apply;
pub mod block_scan;
pub mod builtin_resolver;
pub mod find_block;
pub mod index;
pub mod common;
pub mod mismatch;
pub mod diff_apply;
pub mod fast;
pub mod hash_cache;
pub mod indent;
pub mod edit;
pub mod block;
pub mod patch;
pub mod annotate;
pub mod grep;
