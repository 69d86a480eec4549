//! Views, listeners and models: what the application hangs on the entities.

use crate::context::{Context, ModelEntry, ViewSlot};
use crate::entity::Entity;
use crate::sparse_set::lemma_map_with_insert;
use vstd::prelude::*;

verus! {

/// The place of the first model with the key among the models of an entity;
/// the number of models if there is none.
pub open spec fn model_position<M>(models: Seq<ModelEntry<M>>, key: u64) -> int
    decreases models.len(),
{
    if models.len() == 0 {
        0
    } else if models[0].type_key == key {
        0
    } else {
        1 + model_position(models.skip(1), key)
    }
}

/// Where to look for a piece of data.
pub enum DataRef<'a, V, M> {
    /// A model that was attached to an entity.
    Model(&'a M),
    /// The view of an entity.
    View(&'a V),
}

/// Anything that gives access to the data stored for the current entity and
/// its ancestors.
pub trait DataContext {
    type View;

    type Model;

    /// What must hold of `self` for `data` to be called.
    spec fn data_ready(&self) -> bool;

    /// What `data` finds.
    spec fn data_source(&self, type_key: u64) -> Option<DataRef<'_, Self::View, Self::Model>>;

    /// The data of the type with the key that is nearest to the current
    /// entity.
    fn data(&self, type_key: u64) -> (r: Option<DataRef<'_, Self::View, Self::Model>>)
        requires
            self.data_ready(),
        ensures
            r == self.data_source(type_key),
    ;
}

impl<V, M, E, G> Context<V, M, E, G> {
    /// What the entity itself offers as data of the type with the key: the
    /// first of its models with the key, or else its view, if the view is of
    /// that type and is not away.
    pub open spec fn data_at(&self, e: Entity, type_key: u64) -> Option<DataRef<'_, V, M>> {
        if self.data@.contains_key(e) && model_position(self.data@[e]@, type_key)
            < self.data@[e]@.len() {
            Some(DataRef::Model(&self.data@[e]@[model_position(self.data@[e]@, type_key)].model))
        } else if self.views@.contains_key(e) && self.views@[e].type_key == type_key
            && self.views@[e].view is Some {
            Some(DataRef::View(&self.views@[e].view.unwrap()))
        } else {
            None
        }
    }

    /// What the first of the entities of `chain` from place `i` on that
    /// offers data of the type offers.
    pub open spec fn data_along(&self, chain: Seq<Entity>, i: int, type_key: u64) -> Option<
        DataRef<'_, V, M>,
    >
        decreases chain.len() - i,
    {
        if i < 0 || i >= chain.len() {
            None
        } else if self.data_at(chain[i], type_key) is Some {
            self.data_at(chain[i], type_key)
        } else {
            self.data_along(chain, i + 1, type_key)
        }
    }

    /// The place of the first model with the key.
    fn find_model(models: &Vec<ModelEntry<M>>, type_key: u64) -> (k: usize)
        ensures
            k == model_position(models@, type_key),
            k <= models@.len(),
    {
        let mut k: usize = 0;
        assert(models@.skip(0) =~= models@);
        while k < models.len() && models[k].type_key != type_key
            invariant
                k <= models.len(),
                model_position(models@, type_key) == k + model_position(
                    models@.skip(k as int),
                    type_key,
                ),
            decreases models.len() - k,
        {
            proof {
                assert(models@.skip(k as int)[0] == models@[k as int]);
                assert(models@.skip(k as int).skip(1) =~= models@.skip(k + 1));
            }
            k += 1;
        }
        proof {
            if k < models.len() {
                assert(models@.skip(k as int)[0] == models@[k as int]);
            } else {
                assert(models@.skip(k as int).len() == 0);
            }
        }
        k
    }

    /// Gives the entity a view of the type with the key, in place of the view
    /// it had. Returns whether the entity is in the tree; if it is not,
    /// nothing changes and the view is dropped.
    pub fn add_view(&mut self, e: Entity, type_key: u64, view: V) -> (added: bool)
        requires
            old(self).wf(),
        ensures
            final(self).wf(),
            added == old(self).tree.contains(e),
            added ==> final(self).views@ == old(self).views@.insert(
                e,
                ViewSlot { type_key, view: Some(view) },
            ),
            !added ==> final(self).views@ == old(self).views@,
            *final(self) == (Context { views: final(self).views, ..*old(self) }),
    {
        if !self.tree.has(e) {
            return false;
        }
        proof {
            assert forall|k: Entity| self.views@.contains_key(k) && k.index == e.index implies k
                == e by {
                assert(self.tree.contains(k));
                self.tree.lemma_indices(e, k);
            }
            self.tree.lemma_indices(e, e);
            lemma_map_with_insert(self.views@, e, ViewSlot { type_key, view: Some(view) });
        }
        self.views.insert(e, ViewSlot { type_key, view: Some(view) });
        true
    }

    /// Takes the view of the entity away, to hand it to its own code. The
    /// entity keeps its place among the entities that have a view.
    pub fn take_view(&mut self, e: Entity) -> (r: Option<V>)
        requires
            old(self).wf(),
        ensures
            final(self).wf(),
            old(self).views@.contains_key(e) ==> r == old(self).views@[e].view && final(self).views@ == old(self).views@.insert(
                e,
                ViewSlot { type_key: old(self).views@[e].type_key, view: None },
            ),
            !old(self).views@.contains_key(e) ==> r is None && final(self).views@ == old(self).views@,
            *final(self) == (Context { views: final(self).views, ..*old(self) }),
    {
        match self.views.get_mut(e) {
            Some(slot) => slot.view.take(),
            None => None,
        }
    }

    /// Puts back a view that was taken away. If the entity has been removed
    /// in the meantime, or got another view, nothing changes and the view
    /// comes back to the caller.
    pub fn restore_view(&mut self, e: Entity, view: V) -> (r: Option<V>)
        requires
            old(self).wf(),
        ensures
            final(self).wf(),
            old(self).views@.contains_key(e) && old(self).views@[e].view is None ==> r is None
                && final(self).views@ == old(self).views@.insert(
                e,
                ViewSlot { type_key: old(self).views@[e].type_key, view: Some(view) },
            ),
            !(old(self).views@.contains_key(e) && old(self).views@[e].view is None) ==> r == Some(
                view,
            ) && final(self).views@ == old(self).views@,
            *final(self) == (Context { views: final(self).views, ..*old(self) }),
    {
        match self.views.get_mut(e) {
            Some(slot) => {
                if slot.view.is_none() {
                    slot.view = Some(view);
                    None
                } else {
                    assert(old(self).views@.insert(e, *slot) =~= old(self).views@);
                    Some(view)
                }
            },
            None => Some(view),
        }
    }

    /// Registers a listener for the current entity and for views of the type
    /// with the key, in place of the listener that was registered for the
    /// entity. Returns whether the entity is in the tree; if it is not,
    /// nothing changes.
    pub fn add_listener(&mut self, view_type: u64) -> (added: bool)
        requires
            old(self).wf(),
        ensures
            final(self).wf(),
            added == old(self).tree.contains(old(self).current),
            added ==> final(self).listeners@ == old(self).listeners@.insert(
                old(self).current,
                view_type,
            ),
            !added ==> final(self).listeners@ == old(self).listeners@,
            *final(self) == (Context { listeners: final(self).listeners, ..*old(self) }),
    {
        let e = self.current;
        if !self.tree.has(e) {
            return false;
        }
        proof {
            assert forall|k: Entity| self.listeners@.contains_key(k) && k.index
                == e.index implies k == e by {
                assert(self.tree.contains(k));
                self.tree.lemma_indices(e, k);
            }
            self.tree.lemma_indices(e, e);
            lemma_map_with_insert(self.listeners@, e, view_type);
        }
        self.listeners.insert(e, view_type);
        true
    }

    /// Registers a global listener behind those that are registered and
    /// returns its number. Global listeners are handed every event, before
    /// anyone else and in the order of their numbers, and are never removed.
    pub fn add_global_listener(&mut self, listener: G) -> (number: usize)
        ensures
            number == old(self).global_listeners@.len(),
            final(self).global_listeners@ == old(self).global_listeners@.push(listener),
            *final(self) == (Context {
                global_listeners: final(self).global_listeners,
                ..*old(self)
            }),
    {
        let number = self.global_listeners.len();
        self.global_listeners.push(listener);
        number
    }

    /// Attaches a model of the type with the key to the current entity, in
    /// place of the model of that type that it had. Returns whether the
    /// entity is in the tree; if it is not, nothing changes and the model is
    /// dropped.
    pub fn add_model(&mut self, type_key: u64, model: M) -> (added: bool)
        requires
            old(self).wf(),
        ensures
            final(self).wf(),
            added == old(self).tree.contains(old(self).current),
            !added ==> final(self).data@ == old(self).data@,
            added ==> final(self).data@.dom() == old(self).data@.dom().insert(old(self).current),
            added ==> forall|x: Entity|
                x != old(self).current && #[trigger] old(self).data@.contains_key(x) ==> final(self).data@[x] == old(self).data@[x],
            added ==> ({
                let before = if old(self).data@.contains_key(old(self).current) {
                    old(self).data@[old(self).current]@
                } else {
                    Seq::empty()
                };
                let k = model_position(before, type_key);
                final(self).data@[old(self).current]@ == (if k < before.len() {
                    before.update(k, ModelEntry { type_key, model })
                } else {
                    before.push(ModelEntry { type_key, model })
                })
            }),
            *final(self) == (Context { data: final(self).data, ..*old(self) }),
    {
        let e = self.current;
        if !self.tree.has(e) {
            return false;
        }
        if !self.data.contains(e) {
            proof {
                assert forall|k: Entity| self.data@.contains_key(k) && k.index
                    == e.index implies k == e by {
                    assert(self.tree.contains(k));
                    self.tree.lemma_indices(e, k);
                }
                self.tree.lemma_indices(e, e);
            }
            let empty: Vec<ModelEntry<M>> = Vec::new();
            proof {
                lemma_map_with_insert(self.data@, e, empty);
            }
            self.data.insert(e, empty);
        }
        let ghost mid = *self;
        match self.data.get_mut(e) {
            Some(models) => {
                let k = Self::find_model(models, type_key);
                if k < models.len() {
                    models.set(k, ModelEntry { type_key, model });
                } else {
                    models.push(ModelEntry { type_key, model });
                }
            },
            None => {},
        }
        proof {
            assert(self.data@.dom() =~= old(self).data@.dom().insert(e));
        }
        true
    }
}

impl<V, M, E, G> DataContext for Context<V, M, E, G> {
    type View = V;

    type Model = M;

    /// The context must be well formed.
    open spec fn data_ready(&self) -> bool {
        self.wf()
    }

    /// The data is looked for at the current entity and then at each of its
    /// ancestors in turn.
    open spec fn data_source(&self, type_key: u64) -> Option<DataRef<'_, V, M>> {
        self.data_along(self.tree.ancestors(self.current), 0, type_key)
    }

    /// The data of the type with the key that is nearest to the current
    /// entity.
    fn data(&self, type_key: u64) -> (r: Option<DataRef<'_, V, M>>) {
        let chain = self.tree.parent_iter(self.current);
        let mut i: usize = 0;
        while i < chain.len()
            invariant
                self.wf(),
                i <= chain.len(),
                chain@ == self.tree.ancestors(self.current),
                self.data_along(chain@, i as int, type_key) == self.data_source(type_key),
            decreases chain.len() - i,
        {
            let e = chain[i];
            match self.data.get(e) {
                Some(models) => {
                    let k = Self::find_model(models, type_key);
                    if k < models.len() {
                        return Some(DataRef::Model(&models[k].model));
                    }
                },
                None => {},
            }
            match self.views.get(e) {
                Some(slot) => {
                    if slot.type_key == type_key {
                        match &slot.view {
                            Some(view) => {
                                return Some(DataRef::View(view));
                            },
                            None => {},
                        }
                    }
                },
                None => {},
            }
            i += 1;
        }
        None
    }
}

} // verus!
