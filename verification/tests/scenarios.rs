//! End-to-end scenarios: integer values, where a value is its own key.

use freetree::tree::Tree;

#[test]
fn s1_basic_dedup() {
    let mut t: Tree = Tree::new(0);
    let root = t.root();
    let a = root.ensure_child(&mut t, 1);
    let b = root.ensure_child(&mut t, 1);
    assert_eq!(a, b);
    assert_eq!(t.child_count(root), 1);
    assert_eq!(t.created_count(), 2);
    b.drop_handle(&mut t);
    a.drop_handle(&mut t);
}

#[test]
fn s2_revive() {
    let mut t: Tree = Tree::new(0);
    let root = t.root();
    let c1 = root.ensure_child(&mut t, 1);
    assert_eq!(t.created_count(), 2);
    c1.drop_handle(&mut t);
    assert_eq!(t.free_count(), 1);
    let c2 = root.ensure_child(&mut t, 1);
    // No fresh allocation on a revive: the creation count stands.
    assert_eq!(t.created_count(), 2);
    assert_eq!(c2, c1);
    // The revived node never left the list, so dropping it again does not
    // park it twice.
    c2.drop_handle(&mut t);
    assert_eq!(t.free_count(), 1);
    t.gc();
    assert_eq!(t.free_count(), 0);
    assert_eq!(t.destroyed_count(), 1);
}

#[test]
fn s3_gc_drain() {
    let mut t: Tree = Tree::new(0);
    let root = t.root();
    let mut threshold_crossed = false;
    for i in 1..=500u64 {
        let c = root.ensure_child(&mut t, i);
        c.drop_handle(&mut t);
        if t.free_count() > 300 {
            threshold_crossed = true;
        }
        t.maybe_gc();
    }
    assert!(threshold_crossed);
    t.gc();
    assert_eq!(t.destroyed_count(), 500);
    assert_eq!(t.free_count(), 0);
    assert_eq!(t.created_count(), 501);
}

#[test]
fn s4_deep_chain() {
    let mut t: Tree = Tree::new(0);
    let root = t.root();
    let mut cur = root;
    for i in 0..10_000u64 {
        let next = cur.ensure_child(&mut t, i);
        if cur != root {
            cur.drop_handle(&mut t);
        }
        cur = next;
    }
    cur.drop_handle(&mut t);
    t.drop_tree();
    assert_eq!(t.created_count(), 10_001);
    assert_eq!(t.destroyed_count(), 10_001);
}

#[test]
fn stack_safety_very_deep_chain() {
    let mut t: Tree = Tree::new(0);
    let root = t.root();
    let mut cur = root;
    for i in 0..100_000u64 {
        let next = cur.ensure_child(&mut t, i);
        if cur != root {
            cur.drop_handle(&mut t);
        }
        cur = next;
    }
    cur.drop_handle(&mut t);
    t.drop_tree();
    assert_eq!(t.created_count(), 100_001);
    assert_eq!(t.destroyed_count(), 100_001);
}

#[test]
fn s5_repeated_dedup() {
    let mut t: Tree = Tree::new(0);
    let root = t.root();
    let mut last: Option<usize> = None;
    for _ in 0..10_000 {
        let c = root.ensure_child(&mut t, 7);
        if let Some(id) = last {
            assert_eq!(c.id, id);
        }
        last = Some(c.id);
        c.drop_handle(&mut t);
    }
    // The child for key 7 was allocated exactly once and revived thereafter.
    assert_eq!(t.created_count(), 2);
}

#[test]
fn s6_teardown_with_outstanding_handles() {
    let mut t: Tree = Tree::new(0);
    let root = t.root();
    let mut held = Vec::new();
    for i in 0..10u64 {
        let c = root.ensure_child(&mut t, i);
        if i % 2 == 0 {
            c.drop_handle(&mut t);
        } else {
            held.push(c);
        }
    }
    // Tear the tree down while five handles are still out: the free list is
    // drained and retired, the held nodes stay.
    t.drop_tree();
    // Late drops find the list gone and reclaim on the spot.
    for c in held {
        c.drop_handle(&mut t);
    }
    assert_eq!(t.created_count(), 11);
    assert_eq!(t.destroyed_count(), 11);
}
