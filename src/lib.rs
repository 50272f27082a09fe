//! Canonical representation of assembled sequence records: every record is
//! replaced by the smallest of its equivalent spellings (reverse complement
//! and, for cyclic records, every rotation), the records are sorted by their
//! canonical bytes, and links between records are renumbered to match.
pub mod order;
pub mod dna;
pub mod canon;
pub mod split;
pub mod header;
pub mod record;
pub mod sort;
pub mod links;
pub mod text;
pub mod pipeline;
pub mod load;
pub mod laws;
pub mod config;
pub mod reread;

pub use pipeline::{canonicalize_buffer, CanonError, Canonicalized};
