//! Restructures an AML document, a tree of named resources keyed by paths that
//! start with `/`, into a header of plain metadata and a flat list of resource
//! descriptors that each carry their composed `url`.

mod value;
mod flatten;
pub mod laws;

pub use value::Value;
pub use flatten::{AmlError, append_resource_tree, collect_child_resources, split_resources};
