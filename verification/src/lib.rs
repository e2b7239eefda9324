//! Compares two snapshots of a `Cargo.lock` file and reports, per package,
//! how its resolved version changed between them.
//!
//! The pipeline has three stages. A resolver turns a loosely-typed "fileish"
//! locator into a concrete retrieval strategy, a local file, `git show`, or
//! `hg cat`, and plans the invocations for its caller to perform
//! ([`load`]). The differ reduces the two parsed lock files to a minimal,
//! alphabetically ordered set of per-package change records ([`diff`]).
//! Renderers write the records as a Markdown table, optionally enriched with
//! registry and compare links from the package manager's metadata, or as a
//! JSON document ([`render`], [`metadata`]).

pub mod strutil;
pub mod urlencode;
pub mod lockfile;
pub mod load;
pub mod metadata;
pub mod render;
pub mod diff;
