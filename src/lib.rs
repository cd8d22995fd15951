//! Builds a list of (relative path, content) pairs from a small ASCII tree
//! diagram, such as
//!
//! ```text
//! |_dir-a
//! | |_dir-b
//! |   |_file-one
//! |     "hello"
//! |_dir-c
//!   |_file-two
//! ```
//!
//! The diagram is parsed into a forest of named nodes, and the forest is
//! flattened into one entry per leaf, in the order of the diagram.

pub mod diagram;
pub mod error;
pub mod flatten;
pub mod laws;
pub mod text;
pub mod tree;

pub use diagram::parse;
pub use error::{ParseError, SetupFsError};
pub use flatten::{flatten, parse_fs_tree, PathEntry};
pub use tree::{Forest, Node};
