//! A path-addressed hierarchical container, shaped like a filesystem.
//!
//! A [`node::Node`] is either a directory (a name and an ordered list of
//! owned children) or a file (a name and a payload value).  A
//! [`tree::FSTreeMap`] owns a root directory named `root` and offers
//! path-based lookup and mutation, plus fold-style aggregation over the
//! file leaves.  Paths are `/`-delimited strings whose segments are matched
//! literally, with no normalization.

pub mod paths;
pub mod node;
pub mod mutate;
pub mod tree;
pub mod folds;
pub mod laws;

pub use node::Node;
pub use node::PathError;
pub use tree::FSTreeMap;

