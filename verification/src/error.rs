//! The closed error taxonomy of the store.
//!
//! Every operation reports failure as one of these kinds, so callers can
//! branch on the kind instead of matching message text. `message` renders
//! the human-readable text that the presentation layer surfaces.

use vstd::prelude::*;
use vstd::string::StringExecFns;

verus! {

/// Which kind of referenced entity was missing.
#[derive(Clone, Copy, Debug, PartialEq, Eq, Structural)]
pub enum MissingKind {
    /// The tree node addressed by the operation does not exist.
    Node,
    /// A supplied parent id does not resolve to an existing node.
    Parent,
    /// The note row does not exist.
    Note,
    /// The note body file is absent or unreadable.
    NoteFile,
    /// The snippet row does not exist.
    Snippet,
}

/// Why a node deletion was blocked. The children check runs before the
/// bindings check, so the reason is a fixed tie-break in diagnostics.
#[derive(Clone, Copy, Debug, PartialEq, Eq, Structural)]
pub enum NonEmptyReason {
    /// At least one node still names this node as its parent.
    HasChildren,
    /// At least one binding still references this node.
    HasBoundResources,
}

/// The closed error-kind enumeration of the store.
#[derive(Clone, Copy, Debug, PartialEq, Eq, Structural)]
pub enum StoreError {
    /// A referenced node, parent, note or snippet is absent.
    NotFound(MissingKind),
    /// A node was asked to become its own parent.
    InvalidReference,
    /// A node with children or bindings was asked to be deleted.
    NonEmptyNode(NonEmptyReason),
    /// The relational engine rejected a statement (e.g. a key conflict).
    StorageFailure,
    /// A file could not be written or read.
    FilesystemFailure,
}

impl StoreError {
    /// The flat text a caller shows for this error.
    pub fn message(&self) -> (r: String)
        ensures
            r@.len() > 0,
    {
        let s: &str = match self {
            StoreError::NotFound(MissingKind::Node) => "node not found",
            StoreError::NotFound(MissingKind::Parent) => "parent node not found",
            StoreError::NotFound(MissingKind::Note) => "note not found",
            StoreError::NotFound(MissingKind::NoteFile) => "note file not found",
            StoreError::NotFound(MissingKind::Snippet) => "snippet not found",
            StoreError::InvalidReference => "parent cannot be the node itself",
            StoreError::NonEmptyNode(NonEmptyReason::HasChildren) => {
                "node has child nodes, delete them first"
            },
            StoreError::NonEmptyNode(NonEmptyReason::HasBoundResources) => {
                "node has resources mounted, remove them first"
            },
            StoreError::StorageFailure => "storage failure",
            StoreError::FilesystemFailure => "filesystem failure",
        };
        proof {
            reveal_strlit("node not found");
            reveal_strlit("parent node not found");
            reveal_strlit("note not found");
            reveal_strlit("note file not found");
            reveal_strlit("snippet not found");
            reveal_strlit("parent cannot be the node itself");
            reveal_strlit("node has child nodes, delete them first");
            reveal_strlit("node has resources mounted, remove them first");
            reveal_strlit("storage failure");
            reveal_strlit("filesystem failure");
        }
        String::from_str(s)
    }
}

} // verus!
