//! Decomposition of API interface definitions into per-resource and
//! per-operation fragments.
//!
//! The crate canonicalizes raw route strings, splits a parsed definition
//! document into path- and verb-level fragments, merges fragments whose
//! routes share a resource root, and renders each fragment back into a
//! self-contained text document.

pub mod ext;
pub mod paths;
pub mod types;
pub mod splitter;
pub mod merger;
pub mod processor;
pub mod laws;
