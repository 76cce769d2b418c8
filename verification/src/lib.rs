//! A reference-counted tree of values whose nodes are created on demand by
//! key lookup under a parent, and whose destruction is deferred through a
//! tree-global free list.
//!
//! The intended workload is profile-tree accounting (call stacks,
//! allocation-site chains): many short-lived references to nodes that stand
//! for paths from the root, where naive reference counting would thrash
//! because transient stacks of the same shape are re-created over and over.
//! Dropping the last handle to a node therefore does not destroy it: the
//! node is parked on an intrusive free list anchored at the tree, from which
//! a later lookup for the same key may revive it. The [`tree::Tree::gc`]
//! operation drains the list and cascades destruction up towards the root,
//! iteratively, so arbitrarily deep chains use constant stack.
//!
//! The whole lifecycle protocol is held by value and verified: node records
//! live in an arena owned by the [`tree::Tree`], a [`node::Node`] is a
//! handle naming one arena slot, and every reference — external handles,
//! free-list membership, the back-reference each child keeps on its parent —
//! is accounted for in the per-node counter. The well-formedness predicate
//! `Tree::wf` ties the counters, the child maps and the free-list links
//! together; every operation preserves it, and the laws in [`props`] follow
//! from it alone. Values are `u64` and are their own keys; the adaptive
//! child map in [`child_map`] keeps the common zero- and one-child nodes
//! flat and spills wider nodes into a hash map.

pub mod child_map;
pub mod logger;
pub mod node;
pub mod props;
pub mod tree;
