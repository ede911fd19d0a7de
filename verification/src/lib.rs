//! Reproducible source-archive assembly.
//!
//! The crate models a directory tree as a flat list of entries, decides
//! which entries land in a staging tree under include/exclude/additional
//! path rules and hidden/VCS ignore policies, and serializes the staged
//! entries in a stable order into a compressed tar stream.

pub mod archive;
pub mod cli;
pub mod common;
pub mod compress;
pub mod laws;
pub mod matcher;
pub mod paths;
pub mod roast;
pub mod stage;
