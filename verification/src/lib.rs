//! Locates visually duplicate images by rotation-invariant perceptual
//! hashing and similarity clustering, backed by a persistent hash
//! cache.
//!
//! The crate is organised around four pieces. [`cache`] holds the
//! normalized file/hash store and the cached duplicate groups,
//! guarded by a staleness fingerprint over the whole working set.
//! [`encoding`] gives encoded perceptual hashes a decoded bit form
//! and a Hamming distance. [`hasher`] canonicalises a hash over the
//! four 90-degree rotations and drives the batch pipeline that reuses
//! cached hashes — parallel pure compute, strictly sequential store
//! commits. [`cluster`] partitions (path, hash) pairs into similarity
//! groups with the anchor-greedy single-pass rule, deliberately not a
//! transitive closure. [`scanner`], [`config`] and [`server`] hold
//! the pure decision logic of the surrounding tooling; traversal,
//! I/O and the HTTP layer stay outside.

pub mod cache;
pub mod cluster;
pub mod config;
pub mod encoding;
pub mod errors;
pub mod hasher;
pub mod order;
pub mod scanner;
pub mod server;
