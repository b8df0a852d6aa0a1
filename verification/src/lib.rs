//! Keeps a cache of thumbnails in step with a tree of source images.
//!
//! The library decides; its driver reads directories, probes the cache,
//! runs the codec and waits for notifications, and reports back what it
//! found.

pub mod codec;
pub mod config;
pub mod geometry;
pub mod listing;
pub mod model;
pub mod outcome;
pub mod path;
pub mod progress;
pub mod reconcile;
pub mod watch;
