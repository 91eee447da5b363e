//! Reconstruction of span trees from newline-delimited structured log records,
//! together with a per-target level filter for viewing them.
pub mod gist;
pub mod level_filter;
pub mod nesting;
pub mod proto;
pub mod state;
mod text;
