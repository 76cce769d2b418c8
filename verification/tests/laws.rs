//! Spot checks of the tree's laws and bookkeeping on concrete values.

use freetree::node::key_of;
use freetree::tree::Tree;

#[test]
fn key_is_the_value_itself() {
    assert_eq!(key_of(0), 0);
    assert_eq!(key_of(5), 5);
    assert_eq!(key_of(u64::MAX), u64::MAX);
}

#[test]
fn gc_is_idempotent() {
    let mut t: Tree = Tree::new(0);
    let root = t.root();
    for i in 0..3u64 {
        let c = root.ensure_child(&mut t, i);
        c.drop_handle(&mut t);
    }
    t.gc();
    let destroyed = t.destroyed_count();
    let free = t.free_count();
    let created = t.created_count();
    t.gc();
    assert_eq!(t.destroyed_count(), destroyed);
    assert_eq!(t.free_count(), free);
    assert_eq!(t.created_count(), created);
    assert_eq!(free, 0);
    assert_eq!(destroyed, 3);
}

#[test]
fn maybe_gc_below_threshold_is_a_noop() {
    let mut t: Tree = Tree::new(0);
    let root = t.root();
    for i in 0..2u64 {
        let c = root.ensure_child(&mut t, i);
        c.drop_handle(&mut t);
    }
    assert_eq!(t.free_count(), 2);
    t.maybe_gc();
    assert_eq!(t.free_count(), 2);
    assert_eq!(t.destroyed_count(), 0);
}

#[test]
fn uniqueness_per_key_under_one_parent() {
    let mut t: Tree = Tree::new(0);
    let root = t.root();
    let a = root.ensure_child(&mut t, 1);
    let b = root.ensure_child(&mut t, 2);
    let c = root.ensure_child(&mut t, 3);
    assert_eq!(t.child_count(root), 3);
    // Re-deriving by key finds the very same nodes, now through the
    // hash-map state of the child map.
    assert_eq!(root.ensure_child(&mut t, 1), a);
    assert_eq!(root.ensure_child(&mut t, 2), b);
    assert_eq!(root.ensure_child(&mut t, 3), c);
    assert_eq!(t.child_count(root), 3);
    assert_eq!(t.created_count(), 4);
}

#[test]
fn refcount_accounting() {
    let mut t: Tree = Tree::new(0);
    let root = t.root();
    // The tree's own handle on the root.
    assert_eq!(t.refcount_of(root), 1);
    let a = root.ensure_child(&mut t, 1);
    // The child back-references its parent.
    assert_eq!(t.refcount_of(root), 2);
    assert_eq!(t.refcount_of(a), 1);
    let b = a.clone_handle(&mut t);
    assert_eq!(t.refcount_of(a), 2);
    b.drop_handle(&mut t);
    assert_eq!(t.refcount_of(a), 1);
    a.drop_handle(&mut t);
    // Parked: the free list's own reference keeps the count at one.
    assert_eq!(t.refcount_of(a), 1);
    assert_eq!(t.free_count(), 1);
}

#[test]
fn values_are_kept() {
    let mut t: Tree = Tree::new(17);
    let root = t.root();
    assert_eq!(t.value_of(root), 17);
    let c = root.ensure_child(&mut t, 42);
    assert_eq!(t.value_of(c), 42);
    // A hit discards the offered value and returns the existing child.
    let d = root.ensure_child(&mut t, 42);
    assert_eq!(d, c);
    assert_eq!(t.value_of(d), 42);
}

#[test]
fn wide_node_reclaims_through_the_map() {
    let mut t: Tree = Tree::new(0);
    let root = t.root();
    let mut kids = Vec::new();
    for i in 0..5u64 {
        kids.push(root.ensure_child(&mut t, i));
    }
    for c in kids {
        c.drop_handle(&mut t);
    }
    t.gc();
    assert_eq!(t.destroyed_count(), 5);
    assert_eq!(t.child_count(root), 0);
}

#[test]
fn revive_stress() {
    let mut t: Tree = Tree::new(0);
    let root = t.root();
    for _ in 0..1_000 {
        let c = root.ensure_child(&mut t, 9);
        let d = c.clone_handle(&mut t);
        d.drop_handle(&mut t);
        c.drop_handle(&mut t);
        assert!(t.contains(c));
        assert_eq!(t.free_count(), 1);
    }
    assert_eq!(t.created_count(), 2);
    assert_eq!(t.destroyed_count(), 0);
    t.gc();
    assert_eq!(t.destroyed_count(), 1);
}

#[test]
fn deeper_levels_dedup_too() {
    let mut t: Tree = Tree::new(0);
    let root = t.root();
    let a = root.ensure_child(&mut t, 1);
    let x = a.ensure_child(&mut t, 1);
    let y = a.ensure_child(&mut t, 1);
    assert_eq!(x, y);
    assert_ne!(x, a);
    assert_eq!(t.child_count(a), 1);
    assert_eq!(t.child_count(root), 1);
    assert_eq!(t.created_count(), 3);
}
