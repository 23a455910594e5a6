//! The B+Tree index.
pub mod bare_laws;
pub mod change;
pub mod delete;
pub mod delete_laws;
pub mod error;
pub mod find_laws;
pub mod fork_laws;
pub mod insert;
pub mod insert_laws;
pub mod internal;
pub mod key;
pub mod laws;
pub mod lookup;
pub mod lookup_laws;
pub mod merge_laws;
pub mod node;
pub mod order_laws;
pub mod pages;
pub mod parts;
pub mod publish;
pub mod publish_laws;
pub mod refusal_laws;
pub mod rewrite;
pub mod rows;
pub mod shape;
pub mod tree;

pub use delete::Removal;
pub use error::IndexError;
pub use key::{IndexEntry, IndexSpec};
pub use pages::{BTree, BTreeHandle, TreePage};
