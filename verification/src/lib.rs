//! Annotated directory trees for a terminal heatmap of a codebase: per-file
//! line counts and change rates, bucketed into intensities, with the
//! expand/collapse view that a renderer walks.

pub mod data;
pub mod numbers;
pub mod text;
pub mod analyzer;
pub mod ui;
