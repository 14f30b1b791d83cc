pub mod lines;
pub mod metrics;
pub mod order;
pub mod rows;
pub mod toggle;
pub mod tree;

pub use metrics::{Metrics, Rate};
pub use tree::{FileNode, NodeView};
