//! What holds of the passes as a whole.
pub mod boundary;
pub mod contents;
pub mod contributions;
pub mod externals;
pub mod identities;
pub mod links;
pub mod models;
pub mod names;
pub mod outcomes;
pub mod padding;
pub mod ranges;
pub mod readiness;
pub mod size_files;
pub mod sizes;
pub mod sizes_once;
pub mod spelled;
pub mod tiling;
pub mod whole;
pub mod zero_parts;
