//! The tree: arena of node records, free-list head, GC driver.

use vstd::prelude::*;
use crate::child_map::ChildMap;
use crate::logger::{Log, NoopLogger};
use crate::node::{spec_key_of, key_of, FreeHead, NextFree, Node, NodeRecord, Slot};

verus! {

/// The number of listed nodes over which `maybe_gc` fires a collection.
/// The value is a heuristic inherited from prior art, not a guarantee.
pub const GC_COUNT_THRESHOLD: usize = 300;

/// The number of records in a slot sequence that are still backing a node.
pub open spec fn live_count(s: Seq<Slot>) -> nat
    decreases s.len(),
{
    if s.len() == 0 {
        0
    } else {
        live_count(s.drop_last()) + (if s.last() is Present {
            1nat
        } else {
            0nat
        })
    }
}

/// Replacing one slot changes the live count by the difference of the two.
pub proof fn lemma_live_count_update(s: Seq<Slot>, i: int, v: Slot)
    requires
        0 <= i < s.len(),
    ensures
        live_count(s.update(i, v)) == live_count(s) + (if v is Present {
            1int
        } else {
            0int
        }) - (if s[i] is Present {
            1int
        } else {
            0int
        }),
    decreases s.len(),
{
    let t = s.update(i, v);
    if i == s.len() - 1 {
        assert(t.drop_last() =~= s.drop_last());
    } else {
        assert(t.drop_last() =~= s.drop_last().update(i, v));
        lemma_live_count_update(s.drop_last(), i, v);
    }
}

/// Two slot sequences with record-for-record equal presence have the same
/// live count.
pub proof fn lemma_live_count_same_presence(s1: Seq<Slot>, s2: Seq<Slot>)
    requires
        s1.len() == s2.len(),
        forall|i: int| 0 <= i < s1.len() ==> (s1[i] is Present <==> s2[i] is Present),
    ensures
        live_count(s1) == live_count(s2),
    decreases s1.len(),
{
    if s1.len() > 0 {
        lemma_live_count_same_presence(s1.drop_last(), s2.drop_last());
    }
}

/// The set of non-root indices below `n`.
pub open spec fn pos_ids_below(n: nat) -> Set<usize> {
    Set::new(|x: usize| 0 < x && (x as nat) < n)
}

/// There are at most `n - 1` non-root indices below `n`.
pub proof fn lemma_pos_ids_below_len(n: nat)
    requires
        1 <= n <= usize::MAX,
    ensures
        pos_ids_below(n).finite(),
        pos_ids_below(n).len() <= n - 1,
    decreases n,
{
    broadcast use vstd::set::group_set_axioms;

    if n == 1 {
        assert(pos_ids_below(1) =~= Set::<usize>::empty());
    } else {
        lemma_pos_ids_below_len((n - 1) as nat);
        assert(pos_ids_below(n) =~= pos_ids_below((n - 1) as nat).insert((n - 1) as usize));
    }
}

/// A finite one-key domain holds nothing besides that key: removing the key
/// empties the map.
pub proof fn lemma_singleton_dom(m: Map<u64, usize>, k: u64)
    requires
        m.dom().finite(),
        m.dom().len() == 1,
        m.dom().contains(k),
    ensures
        m.remove(k) == Map::<u64, usize>::empty(),
{
    broadcast use vstd::set::group_set_axioms;

    assert(m.dom().remove(k).len() == 0);
    m.dom().remove(k).lemma_len0_is_empty();
    assert(m.remove(k) =~= Map::<u64, usize>::empty()) by {
        assert(m.remove(k).dom() =~= m.dom().remove(k));
    }
}

/// A slot sequence holding no record has live count zero.
pub proof fn lemma_live_count_none(s: Seq<Slot>)
    requires
        forall|i: int| 0 <= i < s.len() ==> !(s[i] is Present),
    ensures
        live_count(s) == 0,
    decreases s.len(),
{
    if s.len() > 0 {
        lemma_live_count_none(s.drop_last());
    }
}

/// A slot sequence with live count zero holds no record at all.
pub proof fn lemma_live_count_zero(s: Seq<Slot>, i: int)
    requires
        live_count(s) == 0,
        0 <= i < s.len(),
    ensures
        !(s[i] is Present),
    decreases s.len(),
{
    if i < s.len() - 1 {
        lemma_live_count_zero(s.drop_last(), i);
    }
}

/// A tree of values.
///
/// Children of nodes aren't immediately destroyed when their refcount reaches
/// zero; instead they are put on a free list owned by the tree itself, which
/// is only emptied when the tree is torn down or [`Tree::gc`] is called.
///
/// All state is held by value: records live in `nodes`, identified by index,
/// and the free list is threaded through the records' `next_free` words. The
/// `free_list` ghost sequence names the listed indices in list order, head
/// first.
pub struct Tree<L: Log = NoopLogger> {
    /// The arena. Indices are stable node identities and are never reused.
    pub nodes: Vec<Slot>,
    /// The head word of the free list.
    pub free_head: FreeHead,
    /// The number of nodes currently linked in the free list.
    pub free_count: usize,
    /// How many records have ever been allocated (`log_new` events).
    pub created: usize,
    /// How many records have been destroyed (`log_drop` events).
    pub destroyed: usize,
    /// The listed indices in list order, head first.
    pub free_list: Ghost<Seq<usize>>,
    pub marker: core::marker::PhantomData<L>,
}

impl<L: Log> Tree<L> {
    pub open spec fn fl(self) -> Seq<usize> {
        self.free_list@
    }

    /// Whether `id` backs a node.
    pub open spec fn is_present(self, id: usize) -> bool {
        id < self.nodes@.len() && self.nodes@[id as int] is Present
    }

    /// The record backing `id`.
    pub open spec fn rec(self, id: usize) -> NodeRecord {
        self.nodes@[id as int]->Present_0
    }

    /// The children of `id`, as a map from key to child index.
    pub open spec fn kids(self, id: usize) -> Map<u64, usize> {
        self.rec(id).children@
    }

    /// How many children `id` has.
    pub open spec fn kid_count(self, id: usize) -> nat {
        self.kids(id).dom().len()
    }

    /// The number of external handles on `id`, relative to the listed set
    /// `fl`: the refcount minus the list's own reference minus one reference
    /// per child.
    pub open spec fn ext_in(self, fl: Seq<usize>, id: usize) -> int {
        self.rec(id).refcount - (if fl.contains(id) {
            1int
        } else {
            0int
        }) - self.kid_count(id)
    }

    /// The number of external handles on `id`.
    pub open spec fn ext(self, id: usize) -> int {
        self.ext_in(self.fl(), id)
    }

    /// Everything that holds of one live record, relative to the listed set
    /// `fl`.
    pub open spec fn node_ok(self, fl: Seq<usize>, id: usize) -> bool {
        let r = self.rec(id);
        &&& r.children.inv()
        &&& r.children@.dom().finite()
        &&& (r.parent is None <==> id == 0)
        &&& match r.parent {
            Option::Some(p) => {
                &&& self.is_present(p)
                &&& p < id
                &&& self.kids(p).contains_key(spec_key_of(r.value))
                &&& self.kids(p)[spec_key_of(r.value)] == id
            },
            Option::None => true,
        }
        &&& forall|k: u64| #[trigger] r.children@.contains_key(k) ==> {
            let c = r.children@[k];
            &&& self.is_present(c)
            &&& c != 0
            &&& id < c
            &&& self.rec(c).parent == Some(id)
            &&& spec_key_of(self.rec(c).value) == k
        }
        &&& (fl.contains(id) <==> !(r.next_free is Unlinked))
        &&& r.refcount >= 1
        &&& self.ext_in(fl, id) >= 0
    }

    /// A record a reclamation cascade is about to destroy: its counter has
    /// reached zero, it is childless and unlisted, but it still hangs in its
    /// parent's child map.
    pub open spec fn doomed_ok(self, fl: Seq<usize>, id: usize) -> bool {
        let r = self.rec(id);
        &&& r.children.inv()
        &&& r.children@ == Map::<u64, usize>::empty()
        &&& (r.parent is None <==> id == 0)
        &&& match r.parent {
            Option::Some(p) => {
                &&& self.is_present(p)
                &&& p < id
                &&& self.kids(p).contains_key(spec_key_of(r.value))
                &&& self.kids(p)[spec_key_of(r.value)] == id
            },
            Option::None => true,
        }
        &&& r.refcount == 0
        &&& r.next_free is Unlinked
        &&& !fl.contains(id)
    }

    /// The links of `fl` thread the listed records together, head first.
    pub open spec fn list_ok(self, fl: Seq<usize>) -> bool {
        &&& fl.no_duplicates()
        &&& forall|i: int| 0 <= i < fl.len() ==> {
            &&& self.is_present(#[trigger] fl[i])
            &&& fl[i] != 0
            &&& self.rec(fl[i]).next_free == (if i + 1 < fl.len() {
                NextFree::Next(fl[i + 1])
            } else {
                NextFree::End
            })
        }
    }

    /// Allocation and destruction accounting: every slot was an allocation,
    /// and what is neither live nor was never allocated has been destroyed.
    pub open spec fn counts_ok(self) -> bool {
        &&& self.created == self.nodes@.len()
        &&& self.destroyed + live_count(self.nodes@) == self.created
    }

    /// All records satisfy `node_ok`, except one doomed record mid-cascade.
    pub open spec fn nodes_ok_except(self, fl: Seq<usize>, ex: Option<usize>) -> bool {
        forall|id: usize|
            #[trigger] self.is_present(id) ==> if ex == Some(id) {
                self.doomed_ok(fl, id)
            } else {
                self.node_ok(fl, id)
            }
    }

    /// The invariant of the record store relative to a listed set, as it
    /// holds between operations and during a drain (when the listed set is a
    /// captured chain rather than the live list).
    pub open spec fn inv_core(self, fl: Seq<usize>) -> bool {
        &&& self.nodes_ok_except(fl, None)
        &&& self.list_ok(fl)
        &&& self.counts_ok()
    }

    /// The head word agrees with the ghost list.
    pub open spec fn head_ok(self) -> bool {
        match self.free_head {
            FreeHead::Gone => self.fl().len() == 0,
            FreeHead::Empty => self.fl().len() == 0,
            FreeHead::First(h) => self.fl().len() > 0 && self.fl()[0] == h,
        }
    }

    /// The tree's invariant at quiescent points.
    pub open spec fn wf(self) -> bool {
        &&& self.inv_core(self.fl())
        &&& self.head_ok()
        &&& self.free_count == self.fl().len()
    }

    /// Whether teardown has begun: the free list is gone and no further
    /// pushes are accepted.
    pub open spec fn torn_down(self) -> bool {
        self.free_head is Gone
    }

    /// Creates a new tree from a root value.
    ///
    /// Note that the root value is never going to be accessed by either the
    /// crate or the caller.
    pub fn with_logger(root_value: u64) -> (t: Tree<L>)
        ensures
            t.wf(),
            !t.torn_down(),
            t.nodes@.len() == 1,
            t.is_present(0),
            t.rec(0).value == root_value,
            t.rec(0).parent is None,
            t.kids(0) == Map::<u64, usize>::empty(),
            t.ext(0) == 1,
            t.created == 1,
            t.destroyed == 0,
            t.free_count == 0,
            t.fl() == Seq::<usize>::empty(),
    {
        let mut nodes: Vec<Slot> = Vec::new();
        nodes.push(
            Slot::Present(
                NodeRecord {
                    value: root_value,
                    parent: None,
                    children: ChildMap::new(),
                    refcount: 1,
                    next_free: NextFree::Unlinked,
                },
            ),
        );
        let t = Tree {
            nodes,
            free_head: FreeHead::Empty,
            free_count: 0,
            created: 1,
            destroyed: 0,
            free_list: Ghost(Seq::empty()),
            marker: core::marker::PhantomData,
        };
        L::log_new(0);
        proof {
            assert(live_count(Seq::<Slot>::empty()) == 0);
            assert(t.nodes@.drop_last() =~= Seq::<Slot>::empty());
            assert(t.nodes@.last() is Present);
            assert(live_count(t.nodes@) == 1);
            assert(t.kids(0) =~= Map::<u64, usize>::empty());
            assert(t.kids(0).dom() =~= Set::<u64>::empty());
        }
        t
    }

    /// What one operation may leave untouched: every slot but `id`'s, and
    /// all tree-level words.
    pub open spec fn untouched_except(self, post: Tree<L>, id: usize) -> bool {
        &&& post.nodes@.len() == self.nodes@.len()
        &&& forall|j: int| 0 <= j < self.nodes@.len() && j != id ==> post.nodes@[j] == self.nodes@[j]
        &&& post.free_head == self.free_head
        &&& post.free_count == self.free_count
        &&& post.created == self.created
        &&& post.destroyed == self.destroyed
        &&& post.free_list == self.free_list
    }

    /// A well-linked list is strictly shorter than the arena, its members
    /// being distinct non-root indices.
    pub proof fn lemma_list_len_bound(self, fl: Seq<usize>)
        requires
            self.list_ok(fl),
            self.nodes@.len() >= 1,
        ensures
            fl.len() < self.nodes@.len(),
    {
        broadcast use vstd::set::group_set_axioms;
        broadcast use vstd::std_specs::vec::axiom_spec_len;

        let n = self.nodes@.len();
        fl.unique_seq_to_set();
        assert forall|x: usize| fl.to_set().contains(x) implies pos_ids_below(n).contains(x) by {
            let i = choose|i: int| 0 <= i < fl.len() && fl[i] == x;
            assert(self.is_present(fl[i]));
        }
        assert(fl.to_set().subset_of(pos_ids_below(n)));
        assert(n <= usize::MAX) by {
            assert(self.nodes@.len() == vstd::std_specs::vec::spec_vec_len(&self.nodes));
        }
        lemma_pos_ids_below_len(n);
        vstd::set_lib::lemma_len_subset(fl.to_set(), pos_ids_below(n));
    }

    /// Re-establishes the invariant after an operation that changed only
    /// reference counters, without delisting, relinking or reshaping anything.
    pub proof fn lemma_wf_shape(self, post: Tree<L>)
        requires
            self.wf(),
            post.nodes@.len() == self.nodes@.len(),
            forall|j: usize| post.is_present(j) <==> self.is_present(j),
            forall|j: usize| #[trigger] self.is_present(j) ==> {
                &&& post.rec(j).value == self.rec(j).value
                &&& post.rec(j).parent == self.rec(j).parent
                &&& post.rec(j).children == self.rec(j).children
                &&& post.rec(j).next_free == self.rec(j).next_free
                &&& post.rec(j).refcount >= 1
                &&& post.ext_in(post.fl(), j) >= 0
            },
            post.free_list == self.free_list,
            post.free_head == self.free_head,
            post.free_count == self.free_count,
            post.created == self.created,
            post.destroyed == self.destroyed,
        ensures
            post.wf(),
    {
        assert forall|i: int| 0 <= i < post.nodes@.len() implies (post.nodes@[i] is Present
            <==> self.nodes@[i] is Present) by {
            assert(post.is_present(i as usize) <==> self.is_present(i as usize));
        }
        lemma_live_count_same_presence(self.nodes@, post.nodes@);
        assert forall|id: usize| #[trigger] post.is_present(id) implies post.node_ok(
            post.fl(),
            id,
        ) by {
            assert(self.is_present(id));
            assert(self.node_ok(self.fl(), id));
            assert(post.kids(id) == self.kids(id));
        }
        assert forall|i: int| 0 <= i < post.fl().len() implies {
            &&& post.is_present(post.fl()[i])
            &&& post.fl()[i] != 0
            &&& post.rec(post.fl()[i]).next_free == (if i + 1 < post.fl().len() {
                NextFree::Next(post.fl()[i + 1])
            } else {
                NextFree::End
            })
        } by {
            assert(self.is_present(self.fl()[i]));
        }
        assert(post.list_ok(post.fl()));
        assert(post.wf());
    }

    /// Grants read access to the record backing `id`.
    fn rec_ref(&self, id: usize) -> (r: &NodeRecord)
        requires
            self.is_present(id),
        ensures
            *r == self.rec(id),
    {
        match &self.nodes[id] {
            Slot::Present(r) => r,
            Slot::Vacant => {
                // The caller owns a live record here, per `requires`.
                proof {
                    assert(false);
                }
                vstd::pervasive::unreached()
            }
        }
    }

    /// Grants mutable access to the record backing `id`.
    fn rec_mut(&mut self, id: usize) -> (r: &mut NodeRecord)
        requires
            old(self).is_present(id),
        ensures
            *r == old(self).rec(id),
            final(self).nodes@ == old(self).nodes@.update(
                id as int,
                Slot::Present(*final(r)),
            ),
            final(self).free_head == old(self).free_head,
            final(self).free_count == old(self).free_count,
            final(self).created == old(self).created,
            final(self).destroyed == old(self).destroyed,
            final(self).free_list == old(self).free_list,
    {
        let slot = &mut self.nodes[id];
        match slot {
            Slot::Present(r) => r,
            Slot::Vacant => {
                // The caller owns a live record here, per `requires`.
                proof {
                    assert(false);
                }
                vstd::pervasive::unreached()
            }
        }
    }

    /// The state in the middle of a drop: the counter of `id` has reached
    /// zero and the node is about to be parked or reclaimed; everything else
    /// is as between operations.
    pub open spec fn mid_drop(self, id: usize) -> bool {
        &&& self.is_present(id)
        &&& self.nodes_ok_except(self.fl(), Some(id))
        &&& self.list_ok(self.fl())
        &&& self.counts_ok()
        &&& self.head_ok()
        &&& self.free_count == self.fl().len()
    }

    /// Parks a dead node on the tree's free list: the list takes its own
    /// reference and the node becomes the new head. Returns false if the
    /// free list is gone (the tree is being torn down), in which case
    /// nothing changes and the caller owns the reclamation.
    fn push_on_free_list(&mut self, id: usize) -> (pushed: bool)
        requires
            old(self).mid_drop(id),
            id != 0,
        ensures
            pushed == !old(self).torn_down(),
            !pushed ==> *final(self) == *old(self),
            pushed ==> {
                &&& final(self).wf()
                &&& final(self).fl() == seq![id] + old(self).fl()
                &&& final(self).free_head == FreeHead::First(id)
                &&& final(self).free_count == old(self).free_count + 1
                &&& final(self).created == old(self).created
                &&& final(self).destroyed == old(self).destroyed
                &&& final(self).nodes@.len() == old(self).nodes@.len()
                &&& (forall|j: int|
                    0 <= j < old(self).nodes@.len() && j != id ==> final(self).nodes@[j]
                        == old(self).nodes@[j])
                &&& final(self).is_present(id)
                &&& final(self).rec(id).refcount == 1
                &&& final(self).rec(id).value == old(self).rec(id).value
                &&& final(self).rec(id).parent == old(self).rec(id).parent
                &&& final(self).rec(id).children == old(self).rec(id).children
                &&& final(self).ext(id) == 0
            },
    {
        let ghost pre = *self;
        let link: NextFree = match self.free_head {
            FreeHead::Gone => {
                // Tree was torn down and the free list is no more.
                return false;
            }
            FreeHead::Empty => NextFree::End,
            FreeHead::First(h) => NextFree::Next(h),
        };
        proof {
            pre.lemma_list_len_bound(pre.fl());
        }
        {
            let r = self.rec_mut(id);
            // One reference now accounts for the node's presence in the list.
            r.refcount = 1;
            r.next_free = link;
        }
        self.free_count = self.free_count + 1;
        self.free_head = FreeHead::First(id);
        self.free_list = Ghost(seq![id] + self.free_list@);
        proof {
            let post = *self;
            let fl0 = pre.fl();
            let fl1 = post.fl();
            assert(fl1 == seq![id] + fl0);
            assert(fl1.len() == fl0.len() + 1);
            assert(fl1[0] == id);
            assert(forall|i: int| 1 <= i < fl1.len() ==> fl1[i] == fl0[i - 1]);
            assert(!fl0.contains(id));
            assert forall|j: usize| j != id implies (fl1.contains(j) <==> fl0.contains(j)) by {
                if fl1.contains(j) {
                    let i = choose|i: int| 0 <= i < fl1.len() && fl1[i] == j;
                    assert(i >= 1);
                    assert(fl0[i - 1] == j);
                }
                if fl0.contains(j) {
                    let i = choose|i: int| 0 <= i < fl0.len() && fl0[i] == j;
                    assert(fl1[i + 1] == j);
                }
            }
            assert(fl1.no_duplicates()) by {
                assert forall|i: int, j: int| 0 <= i < j < fl1.len() implies fl1[i] != fl1[j] by {
                    if i >= 1 {
                        assert(fl0[i - 1] != fl0[j - 1]);
                    } else {
                        assert(fl0.contains(fl0[j - 1]));
                    }
                }
            }
            assert(post.is_present(id) && post.rec(id).refcount == 1);
            assert(post.kids(id) == pre.kids(id));
            assert(pre.rec(id).children@ == Map::<u64, usize>::empty());
            assert(pre.kid_count(id) == 0) by {
                broadcast use vstd::set::group_set_axioms;

                assert(pre.kids(id).dom() =~= Set::<u64>::empty());
            }
            assert(post.ext(id) == 0);
            assert(post.list_ok(fl1)) by {
                assert forall|i: int| 0 <= i < fl1.len() implies {
                    &&& post.is_present(fl1[i])
                    &&& fl1[i] != 0
                    &&& post.rec(fl1[i]).next_free == (if i + 1 < fl1.len() {
                        NextFree::Next(fl1[i + 1])
                    } else {
                        NextFree::End
                    })
                } by {
                    if i == 0 {
                        assert(post.rec(id).next_free == link);
                    } else {
                        assert(pre.is_present(fl0[i - 1]));
                        assert(fl0[i - 1] != id);
                        assert(post.rec(fl1[i]).next_free == pre.rec(fl0[i - 1]).next_free);
                    }
                }
            }
            assert forall|j: usize| #[trigger] post.is_present(j) implies post.node_ok(fl1, j) by {
                assert(pre.is_present(j));
                if j == id {
                    assert(post.kids(id) == pre.kids(id));
                } else {
                    assert(pre.node_ok(fl0, j));
                    assert(post.rec(j) == pre.rec(j));
                    assert(post.kids(j) == pre.kids(j));
                    assert(fl1.contains(j) <==> fl0.contains(j));
                    assert(post.ext_in(fl1, j) == pre.ext_in(fl0, j));
                }
            }
            assert(post.counts_ok()) by {
                lemma_live_count_update(
                    pre.nodes@,
                    id as int,
                    Slot::Present(post.rec(id)),
                );
            }
            assert(post.wf());
        }
        true
    }

    /// What survives a reclamation cascade keeps its identity, links and
    /// external handles; only handle-free, unlisted records disappear.
    pub open spec fn cascade_post(self, post: Tree<L>, chain: Seq<usize>) -> bool {
        &&& post.nodes_ok_except(chain, None)
        &&& post.list_ok(chain)
        &&& post.counts_ok()
        &&& post.nodes@.len() == self.nodes@.len()
        &&& post.free_head == self.free_head
        &&& post.free_count == self.free_count
        &&& post.free_list == self.free_list
        &&& post.created == self.created
        &&& (forall|j: usize| #[trigger] post.is_present(j) ==> self.is_present(j))
        &&& (forall|j: usize| #[trigger] post.is_present(j) ==> {
            &&& post.rec(j).value == self.rec(j).value
            &&& post.rec(j).parent == self.rec(j).parent
            &&& post.rec(j).next_free == self.rec(j).next_free
            &&& post.ext_in(chain, j) == self.ext_in(chain, j)
        })
        &&& (forall|j: usize|
            self.is_present(j) && !(#[trigger] post.is_present(j)) ==> self.ext_in(chain, j) == 0
                && !chain.contains(j))
    }

    /// Destroys a dead node and cascades up: the record is unlinked from its
    /// parent, destroyed, and the parent's counter released; a parent whose
    /// counter thereby reaches zero is destroyed in turn. The walk is a loop,
    /// never recursion, so arbitrarily deep chains use constant stack.
    ///
    /// `chain` is whatever intrusive list is threaded through the records at
    /// this moment (the free list, or a drained capture of it); the cascade
    /// leaves it alone.
    #[verifier::rlimit(100)]
    fn drop_without_free_list(&mut self, id: usize, Ghost(chain): Ghost<Seq<usize>>)
        requires
            old(self).is_present(id),
            old(self).nodes_ok_except(chain, Some(id)),
            old(self).list_ok(chain),
            old(self).counts_ok(),
        ensures
            old(self).cascade_post(*final(self), chain),
            !final(self).is_present(id),
    {
        let ghost pre = *old(self);
        let mut cur = id;
        loop
            invariant
                pre == *old(self),
                self.is_present(cur),
                self.nodes_ok_except(chain, Some(cur)),
                self.list_ok(chain),
                self.counts_ok(),
                self.nodes@.len() == pre.nodes@.len(),
                self.free_head == pre.free_head,
                self.free_count == pre.free_count,
                self.free_list == pre.free_list,
                self.created == pre.created,
                pre.ext_in(chain, cur) == 0,
                cur == id || !self.is_present(id),
                forall|j: usize| #[trigger] self.is_present(j) ==> pre.is_present(j),
                forall|j: usize|
                    #[trigger] self.is_present(j) && j != cur ==> {
                        &&& self.rec(j).value == pre.rec(j).value
                        &&& self.rec(j).parent == pre.rec(j).parent
                        &&& self.rec(j).next_free == pre.rec(j).next_free
                        &&& self.ext_in(chain, j) == pre.ext_in(chain, j)
                    },
                forall|j: usize|
                    pre.is_present(j) && !(#[trigger] self.is_present(j)) ==> pre.ext_in(chain, j)
                        == 0 && !chain.contains(j),
            decreases cur,
        {
            let ghost s0 = *self;
            let parent_opt: Option<usize>;
            let k: u64;
            {
                let r = self.rec_ref(cur);
                parent_opt = r.parent;
                k = key_of(r.value);
            }
            match parent_opt {
                Option::Some(p) => {
                    // Another thread may have resurrected this node while we
                    // were trying to drop it; under the parent's write lock
                    // that is the last word, so leave it alone. (With the
                    // whole tree held exclusively here, the counter is still
                    // zero.)
                    if self.rec_ref(cur).refcount != 0 {
                        return;
                    }
                    // Unlink from the parent's children.
                    let _removed = {
                        let pr = self.rec_mut(p);
                        pr.children.remove(k)
                    };
                    proof {
                        assert(s0.kids(p).contains_key(k) && s0.kids(p)[k] == cur);
                        assert(self.kids(p) == s0.kids(p).remove(k));
                        broadcast use vstd::set::group_set_axioms;

                        assert(self.kids(p).dom() =~= s0.kids(p).dom().remove(k));
                        assert(self.kid_count(p) == s0.kid_count(p) - 1);
                    }
                }
                Option::None => {
                }
            }
            let ghost s1 = *self;
            // Detach the record and destroy it. The back-link was read into
            // `parent_opt` and is consumed there, never dropped through.
            L::log_drop(cur);
            {
                let slot = &mut self.nodes[cur];
                *slot = Slot::Vacant;
            }
            proof {
                assert(self.nodes@ == s1.nodes@.update(cur as int, Slot::Vacant));
                lemma_live_count_update(s1.nodes@, cur as int, Slot::Vacant);
                assert(live_count(self.nodes@) == live_count(s1.nodes@) - 1);
                lemma_live_count_same_presence(s0.nodes@, s1.nodes@);
                if live_count(s0.nodes@) == 0 {
                    lemma_live_count_zero(s0.nodes@, cur as int);
                }
                assert(self.destroyed < self.created);
            }
            self.destroyed = self.destroyed + 1;
            let ghost s2 = *self;
            proof {
                // Nothing references the destroyed record: it had no children,
                // and only its parent's map held it, which was just unlinked.
                assert forall|j: usize| #[trigger] self.is_present(j) implies {
                    &&& s0.is_present(j)
                    &&& j != cur
                } by {}
            }
            match parent_opt {
                Option::Some(p) => {
                    let rc = self.rec_ref(p).refcount;
                    {
                        let pr = self.rec_mut(p);
                        pr.refcount = rc - 1;
                    }
                    let ghost s3 = *self;
                    proof {
                        assert(s0.node_ok(chain, p));
                        assert(s0.ext_in(chain, p) >= 0);
                        assert(s3.kids(p) == s0.kids(p).remove(k));
                        assert(s3.kid_count(p) == s0.kid_count(p) - 1);
                        assert(s3.ext_in(chain, p) == s0.ext_in(chain, p));
                        assert forall|j: usize|
                            #[trigger] s3.is_present(j) && j != p implies s3.node_ok(chain, j) by {
                            assert(s2.is_present(j));
                            assert(s0.is_present(j) && j != cur);
                            assert(s0.node_ok(chain, j));
                            assert(s3.rec(j) == s0.rec(j));
                            assert(s3.kids(j) == s0.kids(j));
                            assert forall|k2: u64| #[trigger]
                                s3.kids(j).contains_key(k2) implies s3.kids(j)[k2] != cur by {
                                if s3.kids(j)[k2] == cur {
                                    assert(s0.rec(cur).parent == Some(j));
                                }
                            }
                        }
                        assert forall|i: int| 0 <= i < chain.len() implies {
                            &&& s3.is_present(chain[i])
                            &&& chain[i] != 0
                            &&& s3.rec(chain[i]).next_free == (if i + 1 < chain.len() {
                                NextFree::Next(chain[i + 1])
                            } else {
                                NextFree::End
                            })
                        } by {
                            assert(s0.is_present(chain[i]));
                            assert(chain[i] != cur) by {
                                assert(!chain.contains(cur));
                            }
                        }
                        assert(s3.list_ok(chain));
                        lemma_live_count_same_presence(s2.nodes@, s3.nodes@);
                        assert(s3.counts_ok());
                        assert(s0.is_present(p));
                        assert forall|j: usize| #[trigger] s3.is_present(j) implies {
                            &&& pre.is_present(j)
                            &&& (j != p && j != cur ==> s3.rec(j) == s0.rec(j))
                        } by {
                            assert(s2.is_present(j));
                            assert(s0.is_present(j) && j != cur);
                        }
                        assert forall|j: usize|
                            #[trigger] s3.is_present(j) && j != p implies {
                                &&& s3.rec(j).value == pre.rec(j).value
                                &&& s3.rec(j).parent == pre.rec(j).parent
                                &&& s3.rec(j).next_free == pre.rec(j).next_free
                                &&& s3.ext_in(chain, j) == pre.ext_in(chain, j)
                            } by {
                            assert(s0.is_present(j) && j != cur);
                            assert(s3.rec(j) == s0.rec(j));
                            assert(s3.kids(j) == s0.kids(j));
                            assert(chain.contains(j) == chain.contains(j));
                        }
                        assert(s3.ext_in(chain, p) == pre.ext_in(chain, p)) by {
                            if p != cur {
                                assert(s0.ext_in(chain, p) == pre.ext_in(chain, p));
                            }
                        }
                        assert(s3.rec(p).value == pre.rec(p).value);
                        assert(s3.rec(p).parent == pre.rec(p).parent);
                        assert(s3.rec(p).next_free == pre.rec(p).next_free);
                        assert forall|j: usize|
                            pre.is_present(j) && !(#[trigger] s3.is_present(j)) implies
                            pre.ext_in(chain, j) == 0 && !chain.contains(j) by {
                            if s0.is_present(j) {
                                assert(j == cur);
                            }
                        }
                    }
                    proof {
                        assert(!s3.is_present(cur));
                        assert(!s3.is_present(id)) by {
                            if cur != id {
                                assert(!s2.is_present(id));
                            }
                        }
                    }
                    if rc == 1 {
                        proof {
                            // The parent's counter reached zero: it had this
                            // one child, no handles and no list membership.
                            assert(s0.rec(p).refcount == 1);
                            assert(s0.kid_count(p) >= 1) by {
                                broadcast use vstd::set::group_set_axioms;

                                assert(s0.kids(p).dom().contains(k));
                                if s0.kids(p).dom().len() == 0 {
                                    s0.kids(p).dom().lemma_len0_is_empty();
                                }
                            }
                            assert(!chain.contains(p) && s0.ext_in(chain, p) == 0
                                && s0.kid_count(p) == 1);
                            lemma_singleton_dom(s0.kids(p), k);
                            assert(s3.rec(p).children@ == Map::<u64, usize>::empty());
                            assert(s3.doomed_ok(chain, p)) by {
                                assert(s0.node_ok(chain, p));
                                match s0.rec(p).parent {
                                    Option::Some(q) => {
                                        assert(s0.kids(q).contains_key(
                                            spec_key_of(s0.rec(p).value),
                                        ));
                                        assert(s0.kids(q)[spec_key_of(s0.rec(p).value)] == p);
                                        assert(q != cur) by {
                                            if q == cur {
                                                assert(s0.kids(cur).contains_key(
                                                    spec_key_of(s0.rec(p).value),
                                                ));
                                            }
                                        }
                                        assert(s3.is_present(q));
                                        assert(s3.kids(q) == s0.kids(q));
                                    }
                                    Option::None => {
                                    }
                                }
                            }
                            assert(s3.nodes_ok_except(chain, Some(p)));
                            assert(pre.ext_in(chain, p) == 0) by {
                                if p != id {
                                    assert(s0.ext_in(chain, p) == pre.ext_in(chain, p));
                                }
                            }
                        }
                        cur = p;
                    } else {
                        proof {
                            assert(s3.rec(p).refcount >= 1);
                            assert(s3.node_ok(chain, p));
                            assert(s3.nodes_ok_except(chain, None));
                        }
                        return;
                    }
                }
                Option::None => {
                    proof {
                        assert forall|j: usize| #[trigger] s2.is_present(j) implies s2.node_ok(
                            chain,
                            j,
                        ) by {
                            assert(s0.is_present(j) && j != cur);
                            assert(s0.node_ok(chain, j));
                            assert(s2.rec(j) == s0.rec(j));
                            assert(s2.kids(j) == s0.kids(j));
                            assert forall|k2: u64| #[trigger]
                                s2.kids(j).contains_key(k2) implies s2.kids(j)[k2] != cur by {
                                if s2.kids(j)[k2] == cur {
                                    assert(s0.rec(cur).parent == Some(j));
                                }
                            }
                        }
                        assert forall|i: int| 0 <= i < chain.len() implies {
                            &&& s2.is_present(chain[i])
                            &&& chain[i] != 0
                            &&& s2.rec(chain[i]).next_free == (if i + 1 < chain.len() {
                                NextFree::Next(chain[i + 1])
                            } else {
                                NextFree::End
                            })
                        } by {
                            assert(s0.is_present(chain[i]));
                            assert(chain[i] != cur) by {
                                assert(!chain.contains(cur));
                            }
                        }
                        assert(s2.list_ok(chain));
                        assert(s2.nodes_ok_except(chain, None));
                        assert(s2.counts_ok());
                        assert forall|j: usize| #[trigger] s2.is_present(j) implies {
                            &&& pre.is_present(j)
                            &&& s2.rec(j).value == pre.rec(j).value
                            &&& s2.rec(j).parent == pre.rec(j).parent
                            &&& s2.rec(j).next_free == pre.rec(j).next_free
                            &&& s2.ext_in(chain, j) == pre.ext_in(chain, j)
                        } by {
                            assert(s0.is_present(j) && j != cur);
                            assert(s2.rec(j) == s0.rec(j));
                            assert(s2.kids(j) == s0.kids(j));
                        }
                        assert forall|j: usize|
                            pre.is_present(j) && !(#[trigger] s2.is_present(j)) implies
                            pre.ext_in(chain, j) == 0 && !chain.contains(j) by {
                            if s0.is_present(j) {
                                assert(j == cur);
                            }
                        }
                    }
                    return;
                }
            }
        }
    }

    /// One delisting step of a drain: the head of the captured chain has had
    /// its link word cleared and the list's reference released; the rest of
    /// the chain is still a well-linked list and every other record is
    /// untouched.
    proof fn lemma_delist_step(s0: Tree<L>, s1: Tree<L>, chain: Seq<usize>, h: usize)
        requires
            s0.nodes_ok_except(chain, None),
            s0.list_ok(chain),
            s0.counts_ok(),
            chain.len() > 0,
            chain[0] == h,
            s1.nodes@.len() == s0.nodes@.len(),
            forall|j: int| 0 <= j < s0.nodes@.len() && j != h ==> s1.nodes@[j] == s0.nodes@[j],
            s1.is_present(h),
            s1.rec(h).value == s0.rec(h).value,
            s1.rec(h).parent == s0.rec(h).parent,
            s1.rec(h).children == s0.rec(h).children,
            s1.rec(h).next_free is Unlinked,
            s1.rec(h).refcount == s0.rec(h).refcount - 1,
            s1.created == s0.created,
            s1.destroyed == s0.destroyed,
        ensures
            chain.drop_first().len() == chain.len() - 1,
            !chain.drop_first().contains(h),
            forall|j: usize|
                j != h ==> (chain.drop_first().contains(j) <==> chain.contains(j)),
            chain.drop_first().no_duplicates(),
            forall|j: usize|
                #[trigger] s1.is_present(j) && j != h ==> s1.node_ok(chain.drop_first(), j),
            s1.list_ok(chain.drop_first()),
            s1.counts_ok(),
            s1.ext_in(chain.drop_first(), h) == s0.ext_in(chain, h),
            s1.kids(h) == s0.kids(h),
            forall|j: usize|
                #[trigger] s1.is_present(j) ==> s0.is_present(j) && (j != h ==> s1.rec(j)
                    == s0.rec(j) && s1.ext_in(chain.drop_first(), j) == s0.ext_in(chain, j)),
    {
        let chain1 = chain.drop_first();
        assert(forall|i: int| 0 <= i < chain1.len() ==> chain1[i] == chain[i + 1]);
        assert(s0.is_present(h) && chain.contains(h));
        assert(!chain1.contains(h)) by {
            if chain1.contains(h) {
                let i = choose|i: int| 0 <= i < chain1.len() && chain1[i] == h;
                assert(chain[i + 1] == h && chain[0] == h);
            }
        }
        assert forall|j: usize| j != h implies (chain1.contains(j) <==> chain.contains(j)) by {
            if chain1.contains(j) {
                let i = choose|i: int| 0 <= i < chain1.len() && chain1[i] == j;
                assert(chain[i + 1] == j);
            }
            if chain.contains(j) {
                let i = choose|i: int| 0 <= i < chain.len() && chain[i] == j;
                assert(i >= 1);
                assert(chain1[i - 1] == j);
            }
        }
        assert(chain1.no_duplicates()) by {
            assert forall|i: int, i2: int|
                0 <= i < i2 < chain1.len() implies chain1[i] != chain1[i2] by {
                assert(chain[i + 1] != chain[i2 + 1]);
            }
        }
        assert(s0.node_ok(chain, h));
        assert(s1.kids(h) == s0.kids(h));
        assert(s1.ext_in(chain1, h) == s0.ext_in(chain, h));
        assert forall|j: usize| #[trigger] s1.is_present(j) && j != h implies s1.node_ok(
            chain1,
            j,
        ) by {
            assert(s0.is_present(j));
            assert(s0.node_ok(chain, j));
            assert(s1.rec(j) == s0.rec(j));
            assert(s1.kids(j) == s0.kids(j));
            assert(chain1.contains(j) <==> chain.contains(j));
        }
        assert forall|i: int| 0 <= i < chain1.len() implies {
            &&& s1.is_present(chain1[i])
            &&& chain1[i] != 0
            &&& s1.rec(chain1[i]).next_free == (if i + 1 < chain1.len() {
                NextFree::Next(chain1[i + 1])
            } else {
                NextFree::End
            })
        } by {
            assert(chain1[i] == chain[i + 1]);
            assert(s0.is_present(chain[i + 1]));
            assert(chain1[i] != h);
            assert(s1.rec(chain1[i]) == s0.rec(chain1[i]));
        }
        assert(s1.list_ok(chain1));
        lemma_live_count_same_presence(s0.nodes@, s1.nodes@);
        assert(s1.counts_ok());
        assert forall|j: usize| #[trigger] s1.is_present(j) implies s0.is_present(j) && (j != h
            ==> s1.rec(j) == s0.rec(j) && s1.ext_in(chain1, j) == s0.ext_in(chain, j)) by {
            if j != h {
                assert(s1.rec(j) == s0.rec(j));
                assert(s1.kids(j) == s0.kids(j));
            }
        }
    }

    /// What a drain of the free list leaves behind: an empty list, every
    /// external handle intact, and every captured node that no handle (on it
    /// or below it) pinned reclaimed.
    pub open spec fn gc_post(self, pre: Tree<L>, gone: bool) -> bool {
        &&& self.wf()
        &&& self.fl() == Seq::<usize>::empty()
        &&& self.free_head == (if gone {
            FreeHead::Gone
        } else {
            FreeHead::Empty
        })
        &&& self.free_count == 0
        &&& self.created == pre.created
        &&& self.nodes@.len() == pre.nodes@.len()
        &&& (forall|j: usize| #[trigger] self.is_present(j) ==> {
            &&& pre.is_present(j)
            &&& self.rec(j).value == pre.rec(j).value
            &&& self.rec(j).parent == pre.rec(j).parent
            &&& self.ext(j) == pre.ext(j)
        })
        &&& (forall|j: usize| pre.is_present(j) && pre.ext(j) >= 1 ==> #[trigger] self.is_present(
            j,
        ))
        &&& (forall|j: usize|
            pre.is_present(j) && !(#[trigger] self.is_present(j)) ==> pre.ext(j) == 0)
        &&& (pre.fl().len() == 0 ==> self.nodes@ == pre.nodes@ && self.destroyed == pre.destroyed)
    }

    /// Swaps the free list's head for a fresh one (`Empty` on a collection,
    /// `Gone` on teardown) and walks the captured chain: each captured node
    /// is delisted, the list's own reference released, and a node thereby at
    /// count zero reclaimed through the cascade.
    #[verifier::rlimit(100)]
    #[verifier::spinoff_prover]
    fn swap_free_list_and_gc(&mut self, gone: bool)
        requires
            old(self).wf(),
            !old(self).torn_down(),
        ensures
            final(self).gc_post(*old(self), gone),
    {
        let ghost pre = *self;
        let mut cursor: NextFree = match self.free_head {
            FreeHead::Gone => {
                // Ruled out by `requires`: teardown has not begun.
                proof {
                    assert(false);
                }
                NextFree::End
            }
            FreeHead::Empty => NextFree::End,
            FreeHead::First(h) => NextFree::Next(h),
        };
        self.free_head = if gone {
            FreeHead::Gone
        } else {
            FreeHead::Empty
        };
        self.free_count = 0;
        let ghost mut chain = self.free_list@;
        self.free_list = Ghost(Seq::empty());
        proof {
            assert forall|j: usize| #[trigger] self.is_present(j) implies {
                &&& self.node_ok(chain, j)
                &&& pre.is_present(j)
                &&& self.rec(j).value == pre.rec(j).value
                &&& self.rec(j).parent == pre.rec(j).parent
                &&& self.ext_in(chain, j) == pre.ext(j)
            } by {
                assert(pre.is_present(j));
                assert(pre.node_ok(pre.fl(), j));
                assert(self.rec(j) == pre.rec(j));
                assert(self.kids(j) == pre.kids(j));
            }
            assert(self.nodes_ok_except(chain, None));
            assert forall|i: int| 0 <= i < chain.len() implies {
                &&& self.is_present(chain[i])
                &&& chain[i] != 0
                &&& self.rec(chain[i]).next_free == (if i + 1 < chain.len() {
                    NextFree::Next(chain[i + 1])
                } else {
                    NextFree::End
                })
            } by {
                assert(pre.is_present(chain[i]));
                assert(self.rec(chain[i]) == pre.rec(chain[i]));
            }
            assert(self.list_ok(chain));
        }
        loop
            invariant
                pre == *old(self),
                pre.wf(),
                self.nodes_ok_except(chain, None),
                self.list_ok(chain),
                self.counts_ok(),
                chain.len() == 0 <==> cursor is End,
                chain.len() > 0 ==> cursor == NextFree::Next(chain[0]),
                !(cursor is Unlinked),
                self.free_head == (if gone {
                    FreeHead::Gone
                } else {
                    FreeHead::Empty
                }),
                self.free_count == 0,
                self.free_list@ == Seq::<usize>::empty(),
                self.created == pre.created,
                self.nodes@.len() == pre.nodes@.len(),
                forall|j: usize| #[trigger] self.is_present(j) ==> {
                    &&& pre.is_present(j)
                    &&& self.rec(j).value == pre.rec(j).value
                    &&& self.rec(j).parent == pre.rec(j).parent
                    &&& self.ext_in(chain, j) == pre.ext(j)
                },
                forall|j: usize|
                    pre.is_present(j) && !(#[trigger] self.is_present(j)) ==> pre.ext(j) == 0,
                pre.fl().len() == 0 ==> self.nodes@ == pre.nodes@ && self.destroyed
                    == pre.destroyed,
            ensures
                chain.len() == 0,
            decreases chain.len(),
        {
            let h: usize = match cursor {
                NextFree::End => {
                    break;
                }
                NextFree::Next(h) => h,
                NextFree::Unlinked => {
                    // The cursor only ever holds a link or the end marker.
                    proof {
                        assert(false);
                    }
                    break;
                }
            };
            let ghost s0 = *self;
            proof {
                assert(chain.len() > 0 && chain[0] == h);
                assert(s0.is_present(h));
                assert(chain.contains(h));
            }
            // Delist the node and read the successor out of its link word.
            let next: NextFree;
            {
                let r = self.rec_mut(h);
                next = r.next_free;
                r.next_free = NextFree::Unlinked;
            }
            // Release the free list's own reference on it.
            let rc = self.rec_ref(h).refcount;
            {
                let r = self.rec_mut(h);
                r.refcount = rc - 1;
            }
            cursor = next;
            let ghost s1 = *self;
            let ghost chain0 = chain;
            let ghost chain1 = chain.drop_first();
            proof {
                Self::lemma_delist_step(s0, s1, chain, h);
                assert(next == (if chain1.len() > 0 {
                    NextFree::Next(chain1[0])
                } else {
                    NextFree::End
                })) by {
                    assert(s0.rec(h).next_free == (if chain.len() > 1 {
                        NextFree::Next(chain[1])
                    } else {
                        NextFree::End
                    }));
                }
                chain = chain1;
            }
            if rc == 1 {
                // The list's reference was the node's last: reclaim it.
                proof {
                    broadcast use vstd::set::group_set_axioms;

                    assert(s1.ext_in(chain1, h) >= 0);
                    assert(s1.ext_in(chain1, h) == 0 && s1.kid_count(h) == 0);
                    assert(s1.rec(h).children@ == Map::<u64, usize>::empty()) by {
                        s1.kids(h).dom().lemma_len0_is_empty();
                        assert(s1.kids(h) =~= Map::<u64, usize>::empty());
                    }
                    assert(s1.doomed_ok(chain1, h)) by {
                        match s0.rec(h).parent {
                            Option::Some(p) => {
                                assert(s0.kids(p).contains_key(spec_key_of(s0.rec(h).value)));
                                assert(s1.is_present(p));
                                assert(s1.kids(p) == s0.kids(p));
                            }
                            Option::None => {
                            }
                        }
                    }
                    assert(s1.nodes_ok_except(chain1, Some(h)));
                }
                self.drop_without_free_list(h, Ghost(chain1));
                proof {
                    assert(s1.cascade_post(*self, chain1));
                    assert forall|j: usize| #[trigger] self.is_present(j) implies {
                        &&& pre.is_present(j)
                        &&& self.rec(j).value == pre.rec(j).value
                        &&& self.rec(j).parent == pre.rec(j).parent
                        &&& self.ext_in(chain1, j) == pre.ext(j)
                    } by {
                        assert(s1.is_present(j));
                        assert(j != h);
                        assert(s1.rec(j) == s0.rec(j));
                        assert(s0.is_present(j));
                        assert(s1.ext_in(chain1, j) == s0.ext_in(chain0, j));
                    }
                    assert forall|j: usize|
                        pre.is_present(j) && !(#[trigger] self.is_present(j)) implies pre.ext(j)
                            == 0 by {
                        if s1.is_present(j) {
                            // reclaimed by this very cascade
                            assert(s0.is_present(j));
                            if j != h {
                                assert(s1.ext_in(chain1, j) == s0.ext_in(chain0, j));
                                assert(s0.ext_in(chain0, j) == pre.ext(j));
                                assert(s1.ext_in(chain1, j) == 0);
                            } else {
                                assert(s1.ext_in(chain1, h) == s0.ext_in(chain0, h));
                                assert(s0.ext_in(chain0, h) == pre.ext(h));
                            }
                        } else {
                            assert(!s0.is_present(j));
                        }
                    }
                }
            } else {
                proof {
                    assert(s1.rec(h).refcount >= 1);
                    assert(s1.node_ok(chain1, h));
                    assert(s1.nodes_ok_except(chain1, None));
                    assert forall|j: usize| #[trigger] s1.is_present(j) implies {
                        &&& pre.is_present(j)
                        &&& s1.rec(j).value == pre.rec(j).value
                        &&& s1.rec(j).parent == pre.rec(j).parent
                        &&& s1.ext_in(chain1, j) == pre.ext(j)
                    } by {
                        assert(s0.is_present(j));
                        if j != h {
                            assert(s1.rec(j) == s0.rec(j));
                            assert(s1.ext_in(chain1, j) == s0.ext_in(chain0, j));
                        } else {
                            assert(s1.ext_in(chain1, h) == s0.ext_in(chain0, h));
                        }
                    }
                    assert forall|j: usize|
                        pre.is_present(j) && !(#[trigger] self.is_present(j)) implies pre.ext(j)
                            == 0 by {
                        assert(!s0.is_present(j));
                    }
                }
            }
        }
        proof {
            assert(chain =~= Seq::<usize>::empty());
            assert(self.fl() == chain);
            assert(self.nodes_ok_except(self.fl(), None));
            assert(self.list_ok(self.fl()));
            assert(self.head_ok());
            assert(self.wf());
            assert forall|j: usize| #[trigger] self.is_present(j) implies self.ext(j) == pre.ext(
                j,
            ) by {
                assert(self.ext_in(chain, j) == pre.ext(j));
            }
            assert forall|j: usize|
                pre.is_present(j) && pre.ext(j) >= 1 implies #[trigger] self.is_present(j) by {
                if !self.is_present(j) {
                    assert(pre.ext(j) == 0);
                }
            }
            assert((*self).gc_post(pre, gone));
        }
    }

    /// Runs the garbage collector of the tree's free list.
    pub fn gc(&mut self)
        requires
            old(self).wf(),
            !old(self).torn_down(),
        ensures
            final(self).gc_post(*old(self), false),
    {
        self.swap_free_list_and_gc(false)
    }

    /// Runs the garbage collector of the tree's free list if needed
    /// according to some heuristics: below the threshold it is a no-op.
    pub fn maybe_gc(&mut self)
        requires
            old(self).wf(),
            !old(self).torn_down(),
        ensures
            old(self).free_count <= GC_COUNT_THRESHOLD ==> *final(self) == *old(self),
            old(self).free_count > GC_COUNT_THRESHOLD ==> final(self).gc_post(
                *old(self),
                false,
            ),
            final(self).wf(),
    {
        if self.free_count > GC_COUNT_THRESHOLD {
            self.swap_free_list_and_gc(false)
        }
    }

    /// With the free list empty and no external handle anywhere off the
    /// root, no non-root node can be left: its counter would equal its child
    /// count, so it would need an ever deeper child, and indices are finite.
    proof fn lemma_no_orphan_at(self, j: usize)
        requires
            self.wf(),
            self.fl().len() == 0,
            forall|i: usize| #[trigger] self.is_present(i) && i != 0 ==> self.ext(i) <= 0,
        ensures
            !(self.is_present(j) && j != 0),
        decreases self.nodes@.len() - j,
    {
        broadcast use vstd::set::group_set_axioms;

        if self.is_present(j) && j != 0 {
            assert(self.node_ok(self.fl(), j));
            assert(!self.fl().contains(j));
            assert(self.rec(j).refcount == self.kid_count(j));
            assert(self.kid_count(j) >= 1);
            assert(exists|k: u64| self.kids(j).dom().contains(k)) by {
                if forall|k: u64| !(#[trigger] self.kids(j).dom().contains(k)) {
                    assert(self.kids(j).dom() =~= Set::<u64>::empty());
                }
            }
            let k = choose|k: u64| self.kids(j).dom().contains(k);
            let c = self.kids(j)[k];
            assert(self.kids(j).contains_key(k));
            assert(self.is_present(c) && j < c && c != 0);
            self.lemma_no_orphan_at(c);
        }
    }

    /// Tears the tree down: the free list's head is retired for good (no
    /// further nodes can be parked), the captured chain is reclaimed, and
    /// the tree's own handle on the root is released.
    pub fn drop_tree(&mut self)
        requires
            old(self).wf(),
            !old(self).torn_down(),
            old(self).is_present(0),
            old(self).ext(0) >= 1,
        ensures
            final(self).wf(),
            final(self).torn_down(),
            final(self).created == old(self).created,
            final(self).fl().len() == 0,
            final(self).free_count == 0,
            forall|j: usize| #[trigger] final(self).is_present(j) ==> old(self).is_present(j)
                && final(self).ext(j) == old(self).ext(j) - (if j == 0 {
                1int
            } else {
                0int
            }),
            (forall|j: usize| #[trigger] old(self).is_present(j) ==> old(self).ext(j) == (if j
                == 0 {
                1int
            } else {
                0int
            })) ==> {
                &&& (forall|j: usize| !(#[trigger] final(self).is_present(j)))
                &&& final(self).destroyed == final(self).created
            },
    {
        let ghost pre = *old(self);
        self.swap_free_list_and_gc(true);
        let ghost mid = *self;
        let root = Node { id: 0 };
        proof {
            assert(mid.is_present(0)) by {
                assert(pre.ext(0) >= 1);
            }
            assert(mid.ext(0) == pre.ext(0));
        }
        root.drop_handle(self);
        proof {
            let post = *self;
            assert(post.torn_down()) by {
                assert(mid.rec(0).refcount > 1 || mid.rec(0).refcount == 1);
            }
            assert forall|j: usize| #[trigger] post.is_present(j) implies mid.is_present(j)
                && post.ext(j) == mid.ext(j) - (if j == 0 {
                1int
            } else {
                0int
            }) by {
                if mid.rec(0).refcount > 1 {
                    if j != 0 {
                        assert(post.nodes@[j as int] == mid.nodes@[j as int]);
                        assert(post.rec(j) == mid.rec(j));
                        assert(post.kids(j) == mid.kids(j));
                    }
                }
            }
            if forall|j: usize| #[trigger] pre.is_present(j) ==> pre.ext(j) == (if j == 0 {
                1int
            } else {
                0int
            }) {
                assert forall|j: usize| #[trigger] mid.is_present(j) implies j == 0 by {
                    if j != 0 {
                        assert(pre.is_present(j));
                        assert(mid.ext(j) == pre.ext(j) && pre.ext(j) == 0);
                    }
                    if j != 0 && mid.is_present(j) {
                        assert forall|i: usize| #[trigger] mid.is_present(i) && i != 0 implies
                            mid.ext(i) <= 0 by {
                            assert(pre.is_present(i));
                        }
                        mid.lemma_no_orphan_at(j);
                    }
                }
                assert(mid.rec(0).refcount == mid.kid_count(0) + mid.ext(0)) by {
                    assert(!mid.fl().contains(0));
                    assert(mid.node_ok(mid.fl(), 0));
                }
                assert(mid.kid_count(0) == 0) by {
                    broadcast use vstd::set::group_set_axioms;

                    assert(mid.node_ok(mid.fl(), 0));
                    assert forall|k: u64| !(#[trigger] mid.kids(0).dom().contains(k)) by {
                        if mid.kids(0).dom().contains(k) {
                            assert(mid.kids(0).contains_key(k));
                            let c = mid.kids(0)[k];
                            assert(mid.is_present(c) && c != 0);
                        }
                    }
                    assert(mid.kids(0).dom() =~= Set::<u64>::empty());
                }
                assert(mid.rec(0).refcount == 1);
                assert(!post.is_present(0));
                assert forall|j: usize| !(#[trigger] post.is_present(j)) by {
                    if post.is_present(j) {
                        assert(mid.is_present(j));
                    }
                }
                assert(post.destroyed == post.created) by {
                    assert forall|i: int| 0 <= i < post.nodes@.len() implies !(post.nodes@[i]
                        is Present) by {
                        assert(!post.is_present(i as usize));
                    }
                    lemma_live_count_none(post.nodes@);
                }
            }
        }
    }

    /// A handle to the root node of the tree.
    pub fn root(&self) -> (r: Node)
        ensures
            r.id == 0,
    {
        Node { id: 0 }
    }

    /// Whether `n` still backs a live record.
    pub fn contains(&self, n: Node) -> (r: bool)
        ensures
            r == self.is_present(n.id),
    {
        if n.id < self.nodes.len() {
            match &self.nodes[n.id] {
                Slot::Present(_) => true,
                Slot::Vacant => false,
            }
        } else {
            false
        }
    }

    /// Whether teardown has begun.
    pub fn is_torn_down(&self) -> (r: bool)
        ensures
            r == self.torn_down(),
    {
        match self.free_head {
            FreeHead::Gone => true,
            _ => false,
        }
    }

    /// The value a node was created for.
    pub fn value_of(&self, n: Node) -> (r: u64)
        requires
            self.is_present(n.id),
        ensures
            r == self.rec(n.id).value,
    {
        self.rec_ref(n.id).value
    }

    /// The node's reference counter: handles, list membership, children.
    pub fn refcount_of(&self, n: Node) -> (r: usize)
        requires
            self.is_present(n.id),
        ensures
            r == self.rec(n.id).refcount,
    {
        self.rec_ref(n.id).refcount
    }

    /// How many children a node currently has.
    pub fn child_count(&self, n: Node) -> (r: usize)
        requires
            self.wf(),
            self.is_present(n.id),
        ensures
            r == self.kid_count(n.id),
    {
        proof {
            assert(self.node_ok(self.fl(), n.id));
        }
        self.rec_ref(n.id).children.len()
    }

    /// The number of nodes currently linked in the free list.
    pub fn free_count(&self) -> (r: usize)
        ensures
            r == self.free_count,
    {
        self.free_count
    }

    /// How many records have ever been allocated.
    pub fn created_count(&self) -> (r: usize)
        ensures
            r == self.created,
    {
        self.created
    }

    /// How many records have been destroyed.
    pub fn destroyed_count(&self) -> (r: usize)
        ensures
            r == self.destroyed,
    {
        self.destroyed
    }
}

impl Tree<NoopLogger> {
    /// Creates a new tree from a root value.
    ///
    /// Note that the root value is never going to be accessed by either the
    /// crate or the caller.
    pub fn new(root_value: u64) -> (t: Tree<NoopLogger>)
        ensures
            t.wf(),
            !t.torn_down(),
            t.nodes@.len() == 1,
            t.is_present(0),
            t.rec(0).value == root_value,
            t.rec(0).parent is None,
            t.kids(0) == Map::<u64, usize>::empty(),
            t.ext(0) == 1,
            t.created == 1,
            t.destroyed == 0,
            t.free_count == 0,
            t.fl() == Seq::<usize>::empty(),
    {
        Tree::<NoopLogger>::with_logger(root_value)
    }
}

impl Node {
    /// Acquires another handle to this node: its counter goes up by one.
    pub fn clone_handle<L: Log>(&self, tree: &mut Tree<L>) -> (n: Node)
        requires
            old(tree).wf(),
            old(tree).is_present(self.id),
            old(tree).ext(self.id) >= 1,
            old(tree).rec(self.id).refcount < usize::MAX,
        ensures
            final(tree).wf(),
            n == *self,
            old(tree).untouched_except(*final(tree), self.id),
            final(tree).is_present(self.id),
            final(tree).rec(self.id).refcount == old(tree).rec(self.id).refcount + 1,
            final(tree).rec(self.id).value == old(tree).rec(self.id).value,
            final(tree).rec(self.id).parent == old(tree).rec(self.id).parent,
            final(tree).rec(self.id).children == old(tree).rec(self.id).children,
            final(tree).rec(self.id).next_free == old(tree).rec(self.id).next_free,
            final(tree).ext(self.id) == old(tree).ext(self.id) + 1,
            final(tree).fl() == old(tree).fl(),
    {
        let id = self.id;
        let rc = tree.rec_ref(id).refcount;
        {
            let r = tree.rec_mut(id);
            r.refcount = rc + 1;
        }
        proof {
            let pre = *old(tree);
            let post = *tree;
            assert forall|j: usize| #[trigger] pre.is_present(j) implies {
                &&& post.rec(j).value == pre.rec(j).value
                &&& post.rec(j).parent == pre.rec(j).parent
                &&& post.rec(j).children == pre.rec(j).children
                &&& post.rec(j).next_free == pre.rec(j).next_free
                &&& post.rec(j).refcount >= 1
                &&& post.ext_in(post.fl(), j) >= 0
            } by {
                assert(pre.node_ok(pre.fl(), j));
                if j != id {
                    assert(post.rec(j) == pre.rec(j));
                }
                assert(post.kids(j) == pre.kids(j));
            }
            pre.lemma_wf_shape(post);
            assert(post.kids(id) == pre.kids(id));
        }
        Node { id: self.id }
    }

    /// Releases one handle. If it was the last reference, the node is parked
    /// on the tree's free list; when the list is gone (teardown), or for the
    /// root itself, the node is reclaimed on the spot and the release
    /// cascades up the parent chain.
    pub fn drop_handle<L: Log>(self, tree: &mut Tree<L>)
        requires
            old(tree).wf(),
            old(tree).is_present(self.id),
            old(tree).ext(self.id) >= 1,
        ensures
            final(tree).wf(),
            final(tree).created == old(tree).created,
            old(tree).rec(self.id).refcount > 1 ==> {
                &&& old(tree).untouched_except(*final(tree), self.id)
                &&& final(tree).is_present(self.id)
                &&& final(tree).rec(self.id).refcount == old(tree).rec(self.id).refcount - 1
                &&& final(tree).rec(self.id).value == old(tree).rec(self.id).value
                &&& final(tree).rec(self.id).parent == old(tree).rec(self.id).parent
                &&& final(tree).rec(self.id).children == old(tree).rec(self.id).children
                &&& final(tree).rec(self.id).next_free == old(tree).rec(self.id).next_free
                &&& final(tree).ext(self.id) == old(tree).ext(self.id) - 1
                &&& final(tree).fl() == old(tree).fl()
                &&& final(tree).destroyed == old(tree).destroyed
            },
            (old(tree).rec(self.id).refcount == 1 && self.id != 0 && !old(tree).torn_down())
                ==> {
                &&& final(tree).fl() == seq![self.id] + old(tree).fl()
                &&& final(tree).free_head == FreeHead::First(self.id)
                &&& final(tree).free_count == old(tree).free_count + 1
                &&& final(tree).destroyed == old(tree).destroyed
                &&& final(tree).is_present(self.id)
                &&& final(tree).rec(self.id).refcount == 1
                &&& final(tree).rec(self.id).value == old(tree).rec(self.id).value
                &&& final(tree).ext(self.id) == 0
            },
            (old(tree).rec(self.id).refcount == 1 && (self.id == 0 || old(tree).torn_down()))
                ==> {
                &&& !final(tree).is_present(self.id)
                &&& final(tree).free_head == old(tree).free_head
                &&& final(tree).free_count == old(tree).free_count
                &&& final(tree).fl() == old(tree).fl()
                &&& (forall|j: usize| #[trigger] final(tree).is_present(j) ==> {
                    &&& old(tree).is_present(j)
                    &&& final(tree).rec(j).value == old(tree).rec(j).value
                    &&& final(tree).rec(j).parent == old(tree).rec(j).parent
                    &&& final(tree).ext(j) == old(tree).ext(j)
                })
                &&& (forall|j: usize|
                    old(tree).is_present(j) && j != self.id && old(tree).ext(j) >= 1
                        ==> final(tree).is_present(j))
            },
    {
        let id = self.id;
        let ghost pre = *old(tree);
        let rc = tree.rec_ref(id).refcount;
        {
            let r = tree.rec_mut(id);
            r.refcount = rc - 1;
        }
        if rc != 1 {
            // This wasn't the last reference to this node, nothing to do
            // anymore.
            proof {
                let post = *tree;
                assert forall|j: usize| #[trigger] pre.is_present(j) implies {
                    &&& post.rec(j).value == pre.rec(j).value
                    &&& post.rec(j).parent == pre.rec(j).parent
                    &&& post.rec(j).children == pre.rec(j).children
                    &&& post.rec(j).next_free == pre.rec(j).next_free
                    &&& post.rec(j).refcount >= 1
                    &&& post.ext_in(post.fl(), j) >= 0
                } by {
                    assert(pre.node_ok(pre.fl(), j));
                    if j != id {
                        assert(post.rec(j) == pre.rec(j));
                    }
                    assert(post.kids(j) == pre.kids(j));
                }
                pre.lemma_wf_shape(post);
                assert(post.kids(id) == pre.kids(id));
            }
            return;
        }
        // The counter reached zero: nothing else pins the node, for its one
        // external handle was the whole count.
        proof {
            let mid = *tree;
            assert(pre.node_ok(pre.fl(), id));
            assert(pre.ext(id) == 1 && !pre.fl().contains(id) && pre.kid_count(id) == 0);
            assert(mid.rec(id).children@ == Map::<u64, usize>::empty()) by {
                broadcast use vstd::set::group_set_axioms;

                mid.kids(id).dom().lemma_len0_is_empty();
                assert(mid.kids(id) =~= Map::<u64, usize>::empty());
            }
            assert(mid.doomed_ok(mid.fl(), id));
            assert forall|j: usize| #[trigger] mid.is_present(j) && j != id implies mid.node_ok(
                mid.fl(),
                j,
            ) by {
                assert(pre.is_present(j));
                assert(pre.node_ok(pre.fl(), j));
                assert(mid.rec(j) == pre.rec(j));
                assert(mid.kids(j) == pre.kids(j));
            }
            assert(mid.nodes_ok_except(mid.fl(), Some(id)));
            assert forall|i: int| 0 <= i < mid.fl().len() implies {
                &&& mid.is_present(mid.fl()[i])
                &&& mid.fl()[i] != 0
                &&& mid.rec(mid.fl()[i]).next_free == (if i + 1 < mid.fl().len() {
                    NextFree::Next(mid.fl()[i + 1])
                } else {
                    NextFree::End
                })
            } by {
                assert(pre.is_present(pre.fl()[i]));
                assert(pre.fl()[i] != id);
            }
            assert(mid.list_ok(mid.fl()));
            lemma_live_count_same_presence(pre.nodes@, mid.nodes@);
            assert(mid.counts_ok());
            assert(mid.mid_drop(id));
        }
        if id != 0 {
            if tree.push_on_free_list(id) {
                return;
            }
        }
        tree.drop_without_free_list(id, Ghost(tree.free_list@));
        proof {
            let post = *tree;
            assert(post.head_ok());
            assert(post.wf());
        }
    }
}

impl Node {
    /// Ensures that a child exists in this node with the given value and
    /// returns a handle to it.
    ///
    /// If a child with this value's key was already created since the last
    /// collection took it, that child is returned instead and the given
    /// value is discarded; a child parked on the free list is thereby
    /// revived (it stays listed, pinned by the list's own reference).
    #[verifier::rlimit(100)]
    pub fn ensure_child<L: Log>(&self, tree: &mut Tree<L>, value: u64) -> (child: Node)
        requires
            old(tree).wf(),
            !old(tree).torn_down(),
            old(tree).is_present(self.id),
            old(tree).ext(self.id) >= 1,
            old(tree).kids(self.id).contains_key(spec_key_of(value)) ==> old(tree).rec(
                old(tree).kids(self.id)[spec_key_of(value)],
            ).refcount < usize::MAX,
            !old(tree).kids(self.id).contains_key(spec_key_of(value)) ==> old(tree).rec(
                self.id,
            ).refcount < usize::MAX,
        ensures
            final(tree).wf(),
            final(tree).is_present(child.id),
            final(tree).kids(self.id).contains_key(spec_key_of(value)),
            final(tree).kids(self.id)[spec_key_of(value)] == child.id,
            final(tree).rec(child.id).parent == Some(self.id),
            spec_key_of(final(tree).rec(child.id).value) == spec_key_of(value),
            final(tree).ext(child.id) >= 1,
            final(tree).fl() == old(tree).fl(),
            final(tree).free_head == old(tree).free_head,
            final(tree).free_count == old(tree).free_count,
            final(tree).destroyed == old(tree).destroyed,
            old(tree).kids(self.id).contains_key(spec_key_of(value)) ==> {
                &&& child.id == old(tree).kids(self.id)[spec_key_of(value)]
                &&& final(tree).created == old(tree).created
                &&& old(tree).untouched_except(*final(tree), child.id)
                &&& final(tree).rec(child.id).value == old(tree).rec(child.id).value
                &&& final(tree).rec(child.id).refcount == old(tree).rec(child.id).refcount + 1
                &&& final(tree).rec(child.id).children == old(tree).rec(child.id).children
                &&& final(tree).rec(child.id).next_free == old(tree).rec(child.id).next_free
                &&& final(tree).ext(child.id) == old(tree).ext(child.id) + 1
            },
            !old(tree).kids(self.id).contains_key(spec_key_of(value)) ==> {
                &&& child.id == old(tree).nodes@.len()
                &&& final(tree).nodes@.len() == old(tree).nodes@.len() + 1
                &&& final(tree).created == old(tree).created + 1
                &&& final(tree).rec(child.id).value == value
                &&& final(tree).rec(child.id).refcount == 1
                &&& final(tree).ext(child.id) == 1
                &&& final(tree).kid_count(child.id) == 0
                &&& final(tree).kids(self.id) == old(tree).kids(self.id).insert(
                    spec_key_of(value),
                    child.id,
                )
                &&& final(tree).rec(self.id).refcount == old(tree).rec(self.id).refcount + 1
                &&& final(tree).ext(self.id) == old(tree).ext(self.id)
                &&& (forall|j: int|
                    0 <= j < old(tree).nodes@.len() && j != self.id ==> final(tree).nodes@[j]
                        == old(tree).nodes@[j])
            },
    {
        let ghost pre = *old(tree);
        let id = self.id;
        let k = key_of(value);
        proof {
            assert(pre.node_ok(pre.fl(), id));
        }
        let hit: Option<usize> = {
            let r = tree.rec_ref(id);
            r.children.get(k)
        };
        match hit {
            Option::Some(c) => {
                proof {
                    assert(pre.kids(id).contains_key(k) && pre.kids(id)[k] == c);
                    assert(pre.is_present(c));
                    assert(pre.node_ok(pre.fl(), c));
                }
                let rc = tree.rec_ref(c).refcount;
                {
                    let r = tree.rec_mut(c);
                    r.refcount = rc + 1;
                }
                if rc == 0 {
                    // In the concurrent protocol a hit can race a drop that
                    // just took the counter to zero; the reviver then owes
                    // the free-list push itself. With the tree held
                    // exclusively, a live map entry is never mid-drop.
                    proof {
                        assert(false);
                    }
                    tree.push_on_free_list(c);
                }
                proof {
                    let post = *tree;
                    assert forall|j: usize| #[trigger] pre.is_present(j) implies {
                        &&& post.rec(j).value == pre.rec(j).value
                        &&& post.rec(j).parent == pre.rec(j).parent
                        &&& post.rec(j).children == pre.rec(j).children
                        &&& post.rec(j).next_free == pre.rec(j).next_free
                        &&& post.rec(j).refcount >= 1
                        &&& post.ext_in(post.fl(), j) >= 0
                    } by {
                        assert(pre.node_ok(pre.fl(), j));
                        if j != c {
                            assert(post.rec(j) == pre.rec(j));
                        }
                        assert(post.kids(j) == pre.kids(j));
                    }
                    pre.lemma_wf_shape(post);
                    assert(post.kids(c) == pre.kids(c));
                    assert(post.kids(id) == pre.kids(id));
                }
                Node { id: c }
            }
            Option::None => {
                proof {
                    assert(!pre.kids(id).contains_key(k));
                    broadcast use vstd::std_specs::vec::axiom_spec_len;
                }
                let child_id = tree.nodes.len();
                tree.nodes.push(
                    Slot::Present(
                        NodeRecord {
                            value,
                            parent: Some(id),
                            children: ChildMap::new(),
                            refcount: 1,
                            next_free: NextFree::Unlinked,
                        },
                    ),
                );
                let ghost s1 = *tree;
                proof {
                    assert(s1.nodes@ == pre.nodes@.push(s1.nodes@.last()));
                    assert(s1.is_present(child_id));
                    assert(s1.created < usize::MAX) by {
                        broadcast use vstd::std_specs::vec::axiom_spec_len;

                        assert(s1.nodes@.len() == vstd::std_specs::vec::spec_vec_len(
                            &s1.nodes,
                        ));
                    }
                }
                tree.created = tree.created + 1;
                {
                    let r = tree.rec_mut(id);
                    let rc = r.refcount;
                    r.refcount = rc + 1;
                    r.children.insert_new(k, child_id);
                }
                L::log_new(child_id);
                proof {
                    let post = *tree;
                    broadcast use vstd::set::group_set_axioms;

                    assert(post.is_present(child_id) && post.rec(child_id).value == value);
                    assert(post.rec(child_id).children@ == Map::<u64, usize>::empty());
                    assert(post.kid_count(child_id) == 0) by {
                        assert(post.kids(child_id).dom() =~= Set::<u64>::empty());
                    }
                    assert(post.kids(id) == pre.kids(id).insert(k, child_id));
                    assert(post.kid_count(id) == pre.kid_count(id) + 1) by {
                        assert(post.kids(id).dom() =~= pre.kids(id).dom().insert(k));
                        assert(!pre.kids(id).dom().contains(k));
                    }
                    assert(!pre.fl().contains(child_id)) by {
                        if pre.fl().contains(child_id) {
                            let i = choose|i: int|
                                0 <= i < pre.fl().len() && pre.fl()[i] == child_id;
                            assert(pre.is_present(pre.fl()[i]));
                        }
                    }
                    assert(post.ext(child_id) == 1);
                    assert(post.ext(id) == pre.ext(id));
                    assert(post.node_ok(post.fl(), child_id));
                    assert(post.node_ok(post.fl(), id)) by {
                        assert(pre.node_ok(pre.fl(), id));
                        assert forall|k2: u64| #[trigger]
                            post.kids(id).contains_key(k2) implies {
                            let c2 = post.kids(id)[k2];
                            &&& post.is_present(c2)
                            &&& c2 != 0
                            &&& id < c2
                            &&& post.rec(c2).parent == Some(id)
                            &&& spec_key_of(post.rec(c2).value) == k2
                        } by {
                            if k2 != k {
                                assert(pre.kids(id).contains_key(k2));
                                let c2 = pre.kids(id)[k2];
                                assert(pre.node_ok(pre.fl(), c2));
                                assert(post.rec(c2) == pre.rec(c2));
                            }
                        }
                        match post.rec(id).parent {
                            Option::Some(p) => {
                                assert(pre.kids(p).contains_key(spec_key_of(pre.rec(id).value)));
                                assert(p != id);
                                assert(post.kids(p) == pre.kids(p));
                            }
                            Option::None => {
                            }
                        }
                    }
                    assert forall|j: usize|
                        #[trigger] post.is_present(j) && j != id && j != child_id implies
                        post.node_ok(post.fl(), j) by {
                        assert(pre.is_present(j));
                        assert(pre.node_ok(pre.fl(), j));
                        assert(post.rec(j) == pre.rec(j));
                        assert(post.kids(j) == pre.kids(j));
                        assert forall|k2: u64| #[trigger]
                            post.kids(j).contains_key(k2) implies post.kids(j)[k2] != child_id
                            && post.kids(j)[k2] != id || post.kids(j)[k2] == id by {
                            if post.kids(j)[k2] == child_id {
                                assert(pre.is_present(child_id));
                            }
                        }
                    }
                    assert(post.nodes_ok_except(post.fl(), None));
                    assert forall|i: int| 0 <= i < post.fl().len() implies {
                        &&& post.is_present(post.fl()[i])
                        &&& post.fl()[i] != 0
                        &&& post.rec(post.fl()[i]).next_free == (if i + 1 < post.fl().len() {
                            NextFree::Next(post.fl()[i + 1])
                        } else {
                            NextFree::End
                        })
                    } by {
                        assert(pre.is_present(pre.fl()[i]));
                        assert(pre.fl()[i] != child_id);
                        if pre.fl()[i] == id {
                            assert(post.rec(id).next_free == pre.rec(id).next_free);
                        } else {
                            assert(post.rec(post.fl()[i]) == pre.rec(pre.fl()[i]));
                        }
                    }
                    assert(post.list_ok(post.fl()));
                    assert(post.counts_ok()) by {
                        assert(pre.nodes@ =~= s1.nodes@.drop_last());
                        assert(live_count(s1.nodes@) == live_count(pre.nodes@) + 1);
                        lemma_live_count_update(
                            s1.nodes@,
                            id as int,
                            Slot::Present(post.rec(id)),
                        );
                    }
                    assert(post.wf());
                }
                Node { id: child_id }
            }
        }
    }
}

} // verus!
