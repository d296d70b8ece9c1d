//! A personal reading-progress store that can be mirrored to a WebDAV remote.
//!
//! This crate holds the synchronization engine and the persistence logic
//! beneath it: manifest-based change detection, upload/download diffing,
//! conflict-free merging of reading-progress data, and the path handling
//! that keeps a library portable across machines. All file and network
//! I/O is left to the embedding application; the functions here compute
//! over plain values and state what they return.

pub mod app_state;
pub mod backup;
pub mod config;
pub mod diff;
pub mod display;
pub mod library;
pub mod manifest;
pub mod merge;
pub mod metadata;
pub mod model;
pub mod novel;
pub mod paths;
pub mod state;
pub mod strutil;
pub mod sync;
pub mod sync_config;
