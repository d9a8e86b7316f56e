//! Identify files in a working subtree that duplicate other files under a
//! root directory, and plan the placement of the unique ones into an output
//! directory.
//!
//! The crate is a verified core: it works on plain byte-string paths and
//! fingerprints that the surrounding program hands it, and it decides —
//! deterministically — which files are duplicates, which working file of each
//! content group is materialized, under what output name, and what the sorted
//! duplicate report says.

pub mod bytes;
pub mod digest;
pub mod hex;
pub mod paths;
pub mod placer;
pub mod records;
pub mod walker;
