//! Depth-bounded, round-by-round crawling of a directory tree, and the
//! per-root search history that is kept between runs.
//!
//! The filesystem itself is read by the caller: the library decides what to
//! read next, merges what was read, and encodes and decodes the history.
pub mod cache;
pub mod crawl;
pub mod history;
pub mod paths;
