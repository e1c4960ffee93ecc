//! Reconciles a directory tree against a set of expected file paths: files
//! outside the set are dangling, and directories left empty once everything
//! beneath them is resolved are pruned, deepest first.

pub mod keep_set;
pub mod model;
pub mod order;
pub mod path;
pub mod reaper;
