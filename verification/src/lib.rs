//! Word-frequency counting over CJK text.
//!
//! The library tokenizes text through an external segmenter, keeps the
//! tokens that contain at least one CJK Unified Ideograph and are not on
//! an exclusion list, tallies them into frequency maps, merges per-worker
//! maps into a global one, and ranks the result deterministically by
//! descending count and ascending lexicographic token order.

pub mod exclusion;
pub mod filter;
pub mod freq;
pub mod partition;
pub mod pipeline;
pub mod rank;
pub mod render;
pub mod segment;
pub mod text;
pub mod worker;
