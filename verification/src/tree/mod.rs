//! The directory tree with aggregated sizes, built from the table's entries.

pub mod builder;
pub mod listing;
pub mod node;
pub mod order;
pub mod size_text;
pub mod sort;

pub use builder::TreeBuilder;
pub use node::TreeNode;
pub use size_text::format_size;
