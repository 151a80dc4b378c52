//! A changelog derivation engine for repositories that follow the
//! Conventional Commits convention and tag releases with semantic versions.
//!
//! The library discovers and orders version tags, pairs them into comparison
//! ranges, resolves the repository identity through a prioritized extractor
//! chain, classifies commits per range, and assembles the final document
//! structure. All of that logic is verified; reading the repository itself
//! (tags, commits, remotes, manifests) is left to the caller, which hands the
//! raw data in as plain values.

pub use crate::errors::Error;

pub mod changelog;
pub mod commits;
pub mod errors;
pub mod extractors;
pub mod github;
pub mod tags;
pub mod text;
pub mod version;
