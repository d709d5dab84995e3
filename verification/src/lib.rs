//! rustree: a disk space analyser built on the NTFS master file table.

pub mod app_state;
pub mod bytes;
pub mod mft;
pub mod text;
pub mod tree;
pub mod treemap;

pub use mft::{FileEntry, MftError, MftReader};
pub use tree::{TreeBuilder, TreeNode};
