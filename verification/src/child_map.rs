//! The adaptive child map: a three-state container keyed by `u64`, holding
//! arena indices of child nodes.
//!
//! Profile-shaped trees are dominated by fan-outs of zero and one, so the
//! container has a dedicated representation for each: *empty*, *one entry*,
//! and a hash map for wider nodes. Growth is monotone: `empty -> one -> many`;
//! only removing the singleton shrinks `one` back to `empty`, and the hash
//! map representation is never demoted.

use vstd::prelude::*;
use fxhash::FxHashMap;

verus! {

/// Declares fxhash's hasher so that `FxHashMap` (an alias of std's `HashMap`
/// with this hasher) can appear in verified signatures and fields.
#[verifier::external_type_specification]
#[verifier::external_body]
pub struct ExFxHasher(fxhash::FxHasher);

/// Declares std's `BuildHasherDefault`, which vstd gives no specification.
#[verifier::external_type_specification]
#[verifier::external_body]
#[verifier::reject_recursive_types(T)]
pub struct ExBuildHasherDefault<T>(std::hash::BuildHasherDefault<T>);

/// The hash-map state's concrete type: child keys to arena indices.
pub type FxKids = FxHashMap<u64, usize>;

/// The empty key-to-index map.
pub open spec fn no_kids() -> Map<u64, usize> {
    Map::empty()
}

/// Relies on std's `HashMap::with_capacity_and_hasher` (reached through
/// fxhash's `FxHashMap` alias): a freshly built map is empty, whatever the
/// capacity hint.
#[verifier::external_body]
fn fx_map_with_capacity(capacity: usize) -> (r: FxKids)
    ensures
        r@ == no_kids(),
{
    FxHashMap::with_capacity_and_hasher(capacity, Default::default())
}

/// Relies on std's `HashMap::get`: returns the value stored under the key,
/// if any.
#[verifier::external_body]
fn fx_map_get(m: &FxHashMap<u64, usize>, k: u64) -> (r: Option<usize>)
    ensures
        r == (if m@.contains_key(k) {
            Some(m@[k])
        } else {
            None::<usize>
        }),
{
    m.get(&k).copied()
}

/// Relies on std's `HashMap::insert`: afterwards the map holds `v` under `k`
/// and is otherwise unchanged.
#[verifier::external_body]
fn fx_map_insert(m: &mut FxHashMap<u64, usize>, k: u64, v: usize)
    ensures
        final(m)@ == old(m)@.insert(k, v),
{
    m.insert(k, v);
}

/// Relies on std's `HashMap::remove`: afterwards the map no longer holds `k`,
/// and the previously stored value, if any, is returned.
#[verifier::external_body]
fn fx_map_remove(m: &mut FxHashMap<u64, usize>, k: u64) -> (r: Option<usize>)
    ensures
        final(m)@ == old(m)@.remove(k),
        r == (if old(m)@.contains_key(k) {
            Some(old(m)@[k])
        } else {
            None::<usize>
        }),
{
    m.remove(&k)
}

/// Relies on std's `HashMap::len`: the number of entries, i.e. the size of
/// the map view's domain.
#[verifier::external_body]
fn fx_map_len(m: &FxHashMap<u64, usize>) -> (r: usize)
    ensures
        r == m@.dom().len(),
{
    m.len()
}

/// The adaptive container. Keys are child keys; values are arena indices.
pub enum ChildMap {
    /// No children.
    Nothing,
    /// Exactly one child, stored flat: no allocation, no hashing.
    One(u64, usize),
    /// Two or more children at the time of promotion; a hash map.
    Many(FxHashMap<u64, usize>),
}

impl View for ChildMap {
    type V = Map<u64, usize>;

    open spec fn view(&self) -> Map<u64, usize> {
        match self {
            ChildMap::Nothing => Map::empty(),
            ChildMap::One(k, id) => Map::empty().insert(*k, *id),
            ChildMap::Many(m) => m@,
        }
    }
}

impl ChildMap {
    /// The hash-map state keeps a finite view, so that entries can be counted.
    pub open spec fn inv(self) -> bool {
        match self {
            ChildMap::Many(m) => m@.dom().finite(),
            _ => true,
        }
    }

    pub fn new() -> (r: ChildMap)
        ensures
            r@ =~= Map::<u64, usize>::empty(),
            r.inv(),
            r is Nothing,
    {
        ChildMap::Nothing
    }

    pub fn get(&self, k: u64) -> (r: Option<usize>)
        requires
            self.inv(),
        ensures
            r == (if self@.contains_key(k) {
                Some(self@[k])
            } else {
                None::<usize>
            }),
    {
        match self {
            ChildMap::Nothing => None,
            ChildMap::One(k0, id) => if *k0 == k {
                Some(*id)
            } else {
                None
            },
            ChildMap::Many(m) => fx_map_get(m, k),
        }
    }

    /// Inserts a key that is not yet present. On the singleton state this
    /// promotes to the hash-map state: the singleton is detached first and
    /// both entries go into the fresh map before it is installed, so the
    /// container is never observed torn.
    pub fn insert_new(&mut self, k: u64, id: usize)
        requires
            old(self).inv(),
            !old(self)@.contains_key(k),
        ensures
            final(self).inv(),
            final(self)@ == old(self)@.insert(k, id),
            (*old(self)) is Nothing ==> (*final(self)) is One,
            (*old(self)) is One ==> (*final(self)) is Many,
            (*old(self)) is Many ==> (*final(self)) is Many,
    {
        let mut cur = ChildMap::Nothing;
        core::mem::swap(self, &mut cur);
        match cur {
            ChildMap::Nothing => {
                *self = ChildMap::One(k, id);
            }
            ChildMap::One(k0, id0) => {
                let mut m = fx_map_with_capacity(2);
                fx_map_insert(&mut m, k0, id0);
                fx_map_insert(&mut m, k, id);
                proof {
                    assert(m@ =~= old(self)@.insert(k, id));
                }
                *self = ChildMap::Many(m);
            }
            ChildMap::Many(mut m) => {
                fx_map_insert(&mut m, k, id);
                *self = ChildMap::Many(m);
            }
        }
    }

    /// Removes a key. Removing the singleton returns the container to the
    /// empty state; the hash-map state is never demoted.
    pub fn remove(&mut self, k: u64) -> (r: Option<usize>)
        requires
            old(self).inv(),
        ensures
            final(self).inv(),
            final(self)@ == old(self)@.remove(k),
            r == (if old(self)@.contains_key(k) {
                Some(old(self)@[k])
            } else {
                None::<usize>
            }),
            (*old(self)) is Many ==> (*final(self)) is Many,
            ((*old(self)) is One && old(self)@.contains_key(k)) ==> (*final(self)) is Nothing,
    {
        let mut cur = ChildMap::Nothing;
        core::mem::swap(self, &mut cur);
        match cur {
            ChildMap::Nothing => {
                proof {
                    assert(old(self)@.remove(k) =~= old(self)@);
                }
                None
            }
            ChildMap::One(k0, id0) => {
                if k0 == k {
                    proof {
                        assert(old(self)@.remove(k) =~= Map::<u64, usize>::empty());
                    }
                    Some(id0)
                } else {
                    *self = ChildMap::One(k0, id0);
                    proof {
                        assert(old(self)@.remove(k) =~= old(self)@);
                    }
                    None
                }
            }
            ChildMap::Many(mut m) => {
                let r = fx_map_remove(&mut m, k);
                *self = ChildMap::Many(m);
                r
            }
        }
    }

    /// The number of children held.
    pub fn len(&self) -> (r: usize)
        requires
            self.inv(),
        ensures
            r == self@.dom().len(),
    {
        match self {
            ChildMap::Nothing => {
                proof {
                    assert(self@.dom() =~= Set::<u64>::empty());
                }
                0
            }
            ChildMap::One(k0, _id) => {
                proof {
                    assert(self@.dom() =~= Set::<u64>::empty().insert(*k0));
                }
                1
            }
            ChildMap::Many(m) => fx_map_len(m),
        }
    }
}

} // verus!
