//! Dependency-resolution and lockfile-materialization core of a package
//! manager for a source-package ecosystem.
//!
//! Given a manifest of declared dependencies the core discovers every
//! required package transitively, deduplicates across transitive
//! occurrences, resolves version conflicts, produces a deterministic
//! lockfile, and plans the fetch of every locked package into a local
//! content-addressed cache directory.  Network and filesystem work is
//! done by the surrounding application; everything the core decides or
//! computes is verified here.

pub mod error;
pub mod fetcher;
pub mod github;
pub mod lockfile;
pub mod manifest;
pub mod model;
pub mod pkgmap;
pub mod resolver;
pub mod text;
pub mod walker;
