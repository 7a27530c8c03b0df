//! A variable-length binary/string column store in the "binary view" layout:
//! each element is described by a fixed-width view that either holds a small
//! value inline or points into an append-only buffer arena, plus a paged
//! writer that streams frozen columns to a byte sink with per-page metadata
//! and a fixed footer.

pub mod view;
pub mod bitmap;
pub mod builder;
pub mod error;
pub mod write;
