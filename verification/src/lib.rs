//! A hierarchical resource tree for notes and code snippets.
//!
//! Content items are organized in a user-editable forest of tree nodes.
//! Tree structure and item metadata live in a relational store; large note
//! bodies live as standalone files keyed by the note id. The store and the
//! file side are kept consistent by a compensated creation protocol, and a
//! materializer turns the flat node table into a nested, ordered,
//! cycle-tolerant presentation tree.

pub mod clock;
pub mod config;
pub mod error;
pub mod files;
pub mod ids;
pub mod materialize;
pub mod notes;
pub mod order;
pub mod snippets;
pub mod store;
pub mod tree;

pub use config::AppPaths;
pub use error::StoreError;
pub use files::FileStore;
pub use materialize::TreeResponseNode;
pub use notes::NoteDetail;
pub use snippets::SnippetDetail;
pub use store::{Database, TreeNode};
