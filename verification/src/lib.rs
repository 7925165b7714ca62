//! A format-preserving editing engine for resource-table documents: a
//! constrained XML dialect holding an ordered list of key-value entries.
//! Mutations copy every byte of the source verbatim except the targeted
//! region, keeping indentation, line endings, comments, and an optional
//! byte-order marker intact.
#![verifier::loop_isolation(false)]
pub mod api;
pub mod edit;
pub mod escape;
pub mod grouping;
pub mod infer;
pub mod insert;
pub mod laws;
pub mod model;
pub mod render;
pub mod scan;
pub mod settings;
pub mod util;
