//! The laws the tree keeps, stated on their own.
//!
//! Each law is proved from the public well-formedness predicate alone, so it
//! holds at every quiescent point of every tree the operations can build.

use vstd::prelude::*;
use crate::logger::Log;
use crate::node::spec_key_of;
use crate::tree::Tree;

verus! {

/// Uniqueness: for every node and every key, at most one child of that node
/// carries the key.
pub proof fn lemma_child_uniqueness<L: Log>(t: Tree<L>, n: usize, c1: usize, c2: usize)
    requires
        t.wf(),
        t.is_present(c1),
        t.is_present(c2),
        t.rec(c1).parent == Some(n),
        t.rec(c2).parent == Some(n),
        spec_key_of(t.rec(c1).value) == spec_key_of(t.rec(c2).value),
    ensures
        c1 == c2,
{
    assert(t.node_ok(t.fl(), c1));
    assert(t.node_ok(t.fl(), c2));
    assert(t.kids(n)[spec_key_of(t.rec(c1).value)] == c1);
    assert(t.kids(n)[spec_key_of(t.rec(c2).value)] == c2);
}

/// Handle discipline: every live node's counter is exactly its external
/// handles, plus one if it sits on the free list, plus one per child; the
/// handle count never runs negative, and a node with a live external handle
/// is never at count zero.
pub proof fn lemma_handle_discipline<L: Log>(t: Tree<L>, n: usize)
    requires
        t.wf(),
        t.is_present(n),
    ensures
        t.rec(n).refcount == t.ext(n) + (if t.fl().contains(n) {
            1int
        } else {
            0int
        }) + t.kid_count(n),
        t.ext(n) >= 0,
        t.ext(n) >= 1 ==> t.rec(n).refcount >= 1,
{
    assert(t.node_ok(t.fl(), n));
}

/// With the free list empty (right after a collection), a childless non-root
/// node survives only because an external handle pins it.
pub proof fn lemma_childless_survivor_has_handle<L: Log>(t: Tree<L>, n: usize)
    requires
        t.wf(),
        t.fl().len() == 0,
        t.is_present(n),
        n != 0,
        t.kid_count(n) == 0,
    ensures
        t.ext(n) >= 1,
{
    assert(t.node_ok(t.fl(), n));
    assert(!t.fl().contains(n));
}

} // verus!
