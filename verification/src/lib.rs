//! Tracking of font assets in a version-controlled directory: reconciling raw
//! per-file status flags into disjoint change sets, and resolving a
//! human-facing description (name, designer, reference URL) for each asset.

pub mod config;
pub mod description;
pub mod json;
pub mod reconcile;
pub mod report;
pub mod text;
