//! A versioned journal store: one text document kept as dated, tagged blocks,
//! with positional edits, per-day reads, a hierarchical tag registry and
//! tag-based block search.

pub mod api;
pub mod block;
pub mod date;
pub mod importer;
pub mod legacy;
pub mod registry;
pub mod rope;
pub mod snapshot;
pub mod summary;
pub mod tag_filter;
pub mod tag_palette;
pub mod text;
pub mod timeline;
pub mod tree;
