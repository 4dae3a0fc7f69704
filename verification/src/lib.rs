//! A library for finding and removing disposable build and cache artifacts
//! (dependency directories, compiled caches, editor temp files) in large
//! directory trees.
//!
//! The library is organised around an in-memory model of the scanned tree:
//! callers walk the real filesystem, hand the library plain entry records,
//! and receive back match lists, deletion accounting and a size-aggregated
//! directory tree for interactive browsing.  All decision logic — pattern
//! matching, subtree pruning, age filtering, batch accounting, size
//! aggregation and browser state transitions — lives here and is verified;
//! filesystem and terminal work stays with the caller.

pub mod config;
pub mod deleter;
pub mod scanner;
pub mod stats;
pub mod browser;
pub mod patterns;
pub mod text;
pub mod tree;
