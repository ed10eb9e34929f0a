//! Keeps a local, offline package mirror in sync with the dependency closure
//! a project needs. The library parses build metadata (a structured dependency
//! graph or a textual tree rendering), extracts declared version requirements
//! from a manifest, parses the mirror's inventory listing, classifies the
//! requirements the mirror cannot satisfy by risk, and merges accepted
//! artifacts back into the listing deterministically.

pub mod bytes;
pub mod classify;
pub mod filename;
pub mod graph;
pub mod inventory;
pub mod manifest;
pub mod report;
pub mod semver_ext;
pub mod tree;
pub mod version;
