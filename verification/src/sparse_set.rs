//! A sparse set: an array-backed store of components keyed by entity.

use crate::entity::Entity;
use vstd::prelude::*;

verus! {

/// A store of one component per entity, with presence check, lookup,
/// insertion and removal in constant time.
///
/// The components lie in a dense array. A second array, indexed by entity
/// index, says where in the dense array the component of that index lies. A
/// slot is trusted only if the key stored beside the component is the entity
/// asked for, so an entity of an older generation never finds the component
/// of its successor.
pub struct SparseSet<T> {
    sparse: Vec<usize>,
    keys: Vec<Entity>,
    values: Vec<T>,
}

/// The map that results from storing `v` under `e`: the entry that shared
/// the index of `e`, if there was one, gives way.
pub open spec fn map_with<T>(m: Map<Entity, T>, e: Entity, v: T) -> Map<Entity, T> {
    Map::new(
        |k: Entity| k == e || (m.contains_key(k) && k.index != e.index),
        |k: Entity|
            if k == e {
                v
            } else {
                m[k]
            },
    )
}

/// Where no other entry shares the index of `e`, storing under `e` is
/// plain insertion.
pub proof fn lemma_map_with_insert<T>(m: Map<Entity, T>, e: Entity, v: T)
    requires
        forall|k: Entity| m.contains_key(k) && k.index == e.index ==> k == e,
    ensures
        map_with(m, e, v) == m.insert(e, v),
{
    assert(map_with(m, e, v) =~= m.insert(e, v));
}

impl<T> SparseSet<T> {
    /// Whether the slot of the index of `e` holds a component of `e`.
    spec fn has(&self, e: Entity) -> bool {
        &&& e.index < self.sparse.len()
        &&& self.sparse[e.index as int] < self.keys.len()
        &&& self.keys[self.sparse[e.index as int] as int] == e
    }

    /// The invariant of the store.
    pub closed spec fn wf(&self) -> bool {
        &&& self.keys.len() == self.values.len()
        &&& forall|p: int|
            0 <= p < self.keys.len() ==> (#[trigger] self.keys[p]).index < self.sparse.len()
                && self.sparse[self.keys[p].index as int] == p
        &&& forall|p: int| 0 <= p < self.keys.len() ==> (#[trigger] self.keys[p]).index < 0xffff_ffff
    }

    /// The store as a map from entity to component.
    pub closed spec fn view(&self) -> Map<Entity, T> {
        Map::new(|e: Entity| self.has(e), |e: Entity| self.values[self.sparse[e.index as int] as int])
    }

    /// No entry lies under the index that is kept for the null entity.
    pub proof fn lemma_key_bound(&self, e: Entity)
        requires
            self.wf(),
            self@.contains_key(e),
        ensures
            e.index < 0xffff_ffff,
    {
    }

    /// An empty store.
    pub fn new() -> (s: SparseSet<T>)
        ensures
            s.wf(),
            s@ == Map::<Entity, T>::empty(),
    {
        let s = SparseSet { sparse: Vec::new(), keys: Vec::new(), values: Vec::new() };
        assert(s@ =~= Map::<Entity, T>::empty());
        s
    }

    /// The number of entries.
    pub fn len(&self) -> (n: usize)
        requires
            self.wf(),
        ensures
            n == self@.len(),
            self@.dom().finite(),
    {
        proof {
            self.lemma_len();
        }
        self.keys.len()
    }

    /// Whether the store holds nothing.
    pub fn is_empty(&self) -> (b: bool)
        requires
            self.wf(),
        ensures
            b == (self@ == Map::<Entity, T>::empty()),
    {
        proof {
            self.lemma_len();
            if self.keys.len() == 0 {
                self@.dom().lemma_len0_is_empty();
                assert(self@ =~= Map::<Entity, T>::empty());
            }
        }
        self.keys.len() == 0
    }

    /// The keys are distinct, so there are as many entries as keys.
    proof fn lemma_len(&self)
        requires
            self.wf(),
        ensures
            self@.dom().finite(),
            self@.len() == self.keys.len(),
    {
        let keys = self.keys@;
        assert(keys.no_duplicates()) by {
            assert forall|i: int, j: int| 0 <= i < keys.len() && 0 <= j < keys.len() && i
                != j implies keys[i] != keys[j] by {
                assert(self.sparse[keys[i].index as int] == i);
                assert(self.sparse[keys[j].index as int] == j);
            }
        }
        keys.unique_seq_to_set();
        assert(keys.to_set() =~= self@.dom()) by {
            assert forall|e: Entity| keys.to_set().contains(e) implies self@.dom().contains(
                e,
            ) by {
                let p = choose|p: int| 0 <= p < keys.len() && keys[p] == e;
                assert(self.sparse[keys[p].index as int] == p);
            }
            assert forall|e: Entity| self@.dom().contains(e) implies keys.to_set().contains(
                e,
            ) by {
                assert(keys[self.sparse[e.index as int] as int] == e);
            }
        }
    }

    /// Whether the store holds a component for the entity.
    pub fn contains(&self, e: Entity) -> (b: bool)
        requires
            self.wf(),
        ensures
            b == self@.contains_key(e),
    {
        let i = e.index as usize;
        if i < self.sparse.len() {
            let p = self.sparse[i];
            p < self.keys.len() && self.keys[p] == e
        } else {
            false
        }
    }

    /// The component of the entity, if it has one.
    pub fn get(&self, e: Entity) -> (r: Option<&T>)
        requires
            self.wf(),
        ensures
            self@.contains_key(e) ==> r == Some(&self@[e]),
            !self@.contains_key(e) ==> r is None,
    {
        if self.contains(e) {
            let p = self.sparse[e.index as usize];
            Some(&self.values[p])
        } else {
            None
        }
    }

    /// Stores `value` as the component of the entity. It takes the place of
    /// the component that the entity had, and of a component left under the
    /// same index by an entity of another generation.
    pub fn insert(&mut self, e: Entity, value: T)
        requires
            old(self).wf(),
            e.index < 0xffff_ffff,
        ensures
            final(self).wf(),
            final(self)@ == map_with(old(self)@, e, value),
    {
        let i = e.index as usize;
        while self.sparse.len() <= i
            invariant
                self.keys == old(self).keys,
                self.values == old(self).values,
                self.sparse.len() >= old(self).sparse.len(),
                forall|k: int| 0 <= k < old(self).sparse.len() ==> self.sparse[k] == old(self).sparse[k],
                forall|k: int|
                    old(self).sparse.len() <= k < self.sparse.len() ==> self.sparse[k]
                        == usize::MAX,
                i < 0xffff_ffff,
            decreases i + 1 - self.sparse.len(),
        {
            self.sparse.push(usize::MAX);
        }
        let p = self.sparse[i];
        if p < self.keys.len() && self.keys[p].index == e.index {
            self.keys.set(p, e);
            self.values.set(p, value);
        } else {
            self.sparse.set(i, self.keys.len());
            self.keys.push(e);
            self.values.push(value);
        }
        proof {
            assert forall|q: int| 0 <= q < self.keys.len() implies (#[trigger] self.keys[q]).index
                < self.sparse.len() && self.sparse[self.keys[q].index as int] == q by {
                if q < old(self).keys.len() {
                    assert(old(self).keys[q].index < old(self).sparse.len());
                }
            }
            assert(self@ =~= map_with(old(self)@, e, value)) by {
                assert forall|k: Entity| self@.contains_key(k) <==> map_with(
                    old(self)@,
                    e,
                    value,
                ).contains_key(k) by {
                    if k.index < old(self).sparse.len() {
                        assert(self.sparse[k.index as int] == old(self).sparse[k.index as int]
                            || k.index == e.index);
                    }
                }
            }
        }
    }

    /// Takes the component of the entity out of the store and returns it.
    pub fn remove(&mut self, e: Entity) -> (r: Option<T>)
        requires
            old(self).wf(),
        ensures
            final(self).wf(),
            old(self)@.contains_key(e) ==> r == Some(old(self)@[e]),
            !old(self)@.contains_key(e) ==> r is None,
            final(self)@ == old(self)@.remove(e),
    {
        if !self.contains(e) {
            assert(self@ =~= old(self)@.remove(e));
            return None;
        }
        let i = e.index as usize;
        let p = self.sparse[i];
        let last = self.keys.len() - 1;
        self.keys.swap_remove(p);
        let value = self.values.swap_remove(p);
        if p != last {
            let moved = self.keys[p];
            self.sparse.set(moved.index as usize, p);
        }
        self.sparse.set(i, usize::MAX);
        proof {
            assert forall|q: int| 0 <= q < self.keys.len() implies (#[trigger] self.keys[q]).index
                < self.sparse.len() && self.sparse[self.keys[q].index as int] == q by {
                if q == p {
                    assert(self.keys[q] == old(self).keys[last as int]);
                } else {
                    assert(self.keys[q] == old(self).keys[q]);
                }
            }
            assert(self@ =~= old(self)@.remove(e)) by {
                assert forall|k: Entity| self@.contains_key(k) <==> old(self)@.remove(
                    e,
                ).contains_key(k) by {
                    if old(self)@.contains_key(k) && k != e {
                        let q = old(self).sparse[k.index as int] as int;
                        assert(old(self).keys[q] == k);
                    }
                }
            }
        }
        Some(value)
    }

    /// Empties the store.
    pub fn clear(&mut self)
        ensures
            final(self).wf(),
            final(self)@ == Map::<Entity, T>::empty(),
    {
        self.keys.clear();
        self.values.clear();
        assert(self@ =~= Map::<Entity, T>::empty());
    }

    /// The component of the entity, open to change, if it has one.
    pub fn get_mut(&mut self, e: Entity) -> (r: Option<&mut T>)
        requires
            old(self).wf(),
        ensures
            final(self).wf(),
            match r {
                Some(x) => old(self)@.contains_key(e) && *x == old(self)@[e] && final(self)@
                    == old(self)@.insert(e, *final(x)),
                None => !old(self)@.contains_key(e) && final(self)@ == old(self)@,
            },
    {
        if self.contains(e) {
            let p = self.sparse[e.index as usize];
            Some(&mut self.values[p])
        } else {
            None
        }
    }
}

} // verus!
