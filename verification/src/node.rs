//! Node records, the free-list link words, and the node handle.

use vstd::prelude::*;
use crate::child_map::ChildMap;

verus! {

/// The key function: total, pure and deterministic. A value is its own key,
/// so that two values denote the same child of a parent exactly when they
/// are equal.
pub open spec fn spec_key_of(v: u64) -> u64 {
    v
}

/// Derives the comparison key of a value. Keys are never stored beside the
/// value on the record itself; they are rederived on demand.
pub fn key_of(v: u64) -> (k: u64)
    ensures
        k == spec_key_of(v),
{
    v
}

/// The per-node link word of the intrusive free list.
#[derive(Clone, Copy, PartialEq, Eq, Structural)]
pub enum NextFree {
    /// The node is not on the free list.
    Unlinked,
    /// The node is the last item of the free list.
    End,
    /// Forward link: the next listed node's arena index.
    Next(usize),
}

/// The head word of the tree's free list.
#[derive(Clone, Copy, PartialEq, Eq, Structural)]
pub enum FreeHead {
    /// Tree teardown has begun or completed; no further pushes are accepted.
    Gone,
    /// The free list is empty.
    Empty,
    /// The arena index of the first listed node.
    First(usize),
}

/// The record backing one node. Records live in the tree's arena; a record's
/// index is its stable identity and is never reused.
pub struct NodeRecord {
    /// The value this child was created for. Never mutated after insertion.
    pub value: u64,
    /// Arena index of the parent; `None` exactly on the root. The back-link
    /// is consumed during reclamation, never dropped through.
    pub parent: Option<usize>,
    /// The children of this node. Children remove themselves from this map
    /// when they are reclaimed.
    pub children: ChildMap,
    /// The reference counter: external handles, plus one while the node is
    /// on the free list, plus one per child (children back-reference their
    /// parent).
    pub refcount: usize,
    /// The free-list link word of this node.
    pub next_free: NextFree,
}

/// One arena slot: a record, or the hole a reclaimed record leaves behind.
pub enum Slot {
    Vacant,
    Present(NodeRecord),
}

/// A handle to a node: a token naming one arena slot of a [`crate::tree::Tree`].
///
/// The ownership ledger lives in the tree's reference counts, not in the
/// token itself: acquiring a handle (through `ensure_child` or
/// `clone_handle`) increments the node's count, and `drop_handle` releases
/// it again. The token is `Copy` so it can be passed around freely;
/// the contracts of the tree's operations say how many releases are owed.
#[derive(Clone, Copy, Debug, PartialEq, Eq, Structural)]
pub struct Node {
    /// The arena index of the node this handle refers to.
    pub id: usize,
}

} // verus!
