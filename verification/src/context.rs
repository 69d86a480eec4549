//! The context: the entity tree, the component stores and the state of
//! focus, hover and capture, with the operations that keep them in step.

use crate::access::TreeUpdate;
use crate::entity::{Entity, IdManager};
use crate::events::{Event, Message, Propagation};
use crate::flags::PseudoClass;
use crate::resource::ResourceManager;
use crate::sparse_set::{lemma_map_with_insert, SparseSet};
use crate::style::{Style, StyleData};
use crate::tree::Tree;
use std::collections::VecDeque;
use vstd::prelude::*;

verus! {

/// The box that layout has given to an entity.
#[derive(Clone, Copy, Debug, PartialEq, Eq, Structural)]
pub struct BoundingBox {
    pub x: i32,
    pub y: i32,
    pub w: i32,
    pub h: i32,
}

/// What drawing has worked out for an entity.
#[derive(Clone, Copy, Debug, PartialEq, Eq, Structural)]
pub struct DrawData {
    pub z_index: i32,
    pub opacity: u8,
}

/// The view of an entity with the key of its type. The view itself is away
/// while it is handed to its own code.
pub struct ViewSlot<V> {
    pub type_key: u64,
    pub view: Option<V>,
}

/// A model with the key of its type.
pub struct ModelEntry<M> {
    pub type_key: u64,
    pub model: M,
}

/// Why no entity was created.
#[derive(Clone, Copy, Debug, PartialEq, Eq, Structural)]
pub enum CreateError {
    /// Every identifier is in use.
    Exhausted,
    /// The parent is not in the tree.
    InvalidParent,
    /// The position lies beyond the end of the parent's children.
    InvalidPosition,
}

/// The state of a user interface.
///
/// `V` is the type of the views, `M` that of the models, `E` that of the
/// messages of the application and `G` that of the global listeners. The
/// core carries values of these types and never looks into them.
pub struct Context<V, M, E, G> {
    pub entity_manager: IdManager,
    pub tree: Tree,
    /// The entity that is being built or is being handed an event.
    pub current: Entity,
    pub views: SparseSet<ViewSlot<V>>,
    /// The models of each entity, at most one for each type.
    pub data: SparseSet<Vec<ModelEntry<M>>>,
    /// The events that wait to be handed over, the oldest first.
    pub event_queue: VecDeque<Event<E>>,
    /// The batches for the accessibility platform that wait to be sent.
    pub tree_updates: Vec<TreeUpdate>,
    /// For each entity with a listener, the key of the type of view that the
    /// listener was registered for.
    pub listeners: SparseSet<u64>,
    /// The global listeners in the order in which they were registered.
    pub global_listeners: Vec<G>,
    pub style: Style,
    /// The box of each entity, as of the last layout.
    pub cache: SparseSet<BoundingBox>,
    pub draw_cache: SparseSet<DrawData>,
    /// The entity that has captured the mouse, or the null entity.
    pub captured: Entity,
    /// The entity on which a press began, or the null entity.
    pub triggered: Entity,
    /// The entity under the cursor.
    pub hovered: Entity,
    /// The entity that has the focus, or the null entity.
    pub focused: Entity,
    /// Entities that had the focus before, the latest last.
    pub focus_stack: Vec<Entity>,
    pub cursor_icon_locked: bool,
    pub resource_manager: ResourceManager,
    pub ignore_default_theme: bool,
    /// Whether the window of the interface has the input focus.
    pub window_has_focus: bool,
}

impl<V, M, E, G> Context<V, M, E, G> {
    /// Whether one of the component stores holds an entry for the entity.
    pub open spec fn stores_mention(&self, e: Entity) -> bool {
        ||| self.style.data@.contains_key(e)
        ||| self.style.computed@.contains_key(e)
        ||| self.style.reaccess@.contains_key(e)
        ||| self.cache@.contains_key(e)
        ||| self.draw_cache@.contains_key(e)
        ||| self.views@.contains_key(e)
        ||| self.data@.contains_key(e)
        ||| self.listeners@.contains_key(e)
    }

    /// The invariant of the context: each part is well formed, the entities
    /// of the tree are the entities that are alive, and the stores hold
    /// entries for entities of the tree only.
    pub open spec fn wf(&self) -> bool {
        &&& self.entity_manager.wf()
        &&& self.tree.wf()
        &&& self.style.wf()
        &&& self.views.wf()
        &&& self.data.wf()
        &&& self.listeners.wf()
        &&& self.cache.wf()
        &&& self.draw_cache.wf()
        &&& self.resource_manager.wf()
        &&& forall|i: int, x: Entity|
            0 <= i < self.resource_manager.images@.len() && (
            #[trigger] self.resource_manager.images@[i].observers@.contains_key(x))
                ==> self.tree.contains(x)
        &&& forall|x: Entity| #[trigger] self.tree.contains(x) <==> self.entity_manager@.is_alive(x)
        &&& forall|x: Entity| #[trigger] self.style.data@.contains_key(x) ==> self.tree.contains(x)
        &&& forall|x: Entity|
            #[trigger] self.style.computed@.contains_key(x) ==> self.tree.contains(x)
        &&& forall|x: Entity|
            #[trigger] self.style.reaccess@.contains_key(x) ==> self.tree.contains(x)
        &&& forall|x: Entity| #[trigger] self.cache@.contains_key(x) ==> self.tree.contains(x)
        &&& forall|x: Entity| #[trigger] self.draw_cache@.contains_key(x) ==> self.tree.contains(x)
        &&& forall|x: Entity| #[trigger] self.views@.contains_key(x) ==> self.tree.contains(x)
        &&& forall|x: Entity| #[trigger] self.data@.contains_key(x) ==> self.tree.contains(x)
        &&& forall|x: Entity| #[trigger] self.listeners@.contains_key(x) ==> self.tree.contains(x)
    }

    /// A context that holds the root and nothing else. The root has the
    /// focus and is hovered, and nothing has captured the mouse.
    pub fn new() -> (cx: Context<V, M, E, G>)
        ensures
            cx.is_initial(),
            cx.wf(),
            forall|x: Entity| cx.tree.contains(x) <==> x == Entity::root(),
            cx.tree.children_of(Entity::root()) == Seq::<Entity>::empty(),
            cx.entity_manager@.generations == seq![0u32],
            cx.entity_manager@.alive == seq![true],
            cx.entity_manager@.free == Seq::<u32>::empty(),
            cx.entity_manager@.limit == crate::entity::MAX_ENTITIES,
            cx.style.data@.dom() =~= set![Entity::root()],
            cx.style.data@[Entity::root()].is_blank(),
            cx.style.computed@ == Map::<Entity, crate::style::Properties>::empty(),
            cx.style.reaccess@ == Map::<Entity, ()>::empty(),
            cx.style.default_font@.len() == 0,
            cx.cache@ == Map::<Entity, BoundingBox>::empty().insert(
                Entity::root(),
                BoundingBox { x: 0, y: 0, w: 0, h: 0 },
            ),
            cx.draw_cache@ == Map::<Entity, DrawData>::empty(),
            cx.views@ == Map::<Entity, ViewSlot<V>>::empty(),
            cx.data@ == Map::<Entity, Vec<ModelEntry<M>>>::empty(),
            cx.listeners@ == Map::<Entity, u64>::empty(),
            cx.current == Entity::root(),
            cx.focused == Entity::root(),
            cx.hovered == Entity::root(),
            cx.captured == Entity::null(),
            cx.triggered == Entity::null(),
            cx.focus_stack@.len() == 0,
            cx.event_queue@.len() == 0,
            cx.tree_updates@.len() == 0,
            cx.global_listeners@.len() == 0,
            cx.resource_manager.themes@.len() == 0,
            cx.resource_manager.stylesheets@.len() == 0,
            cx.resource_manager.fonts@.len() == 0,
            cx.resource_manager.images@.len() == 0,
            cx.style.rules@.len() == 0,
            !cx.style.needs_restyle && !cx.style.needs_relayout && !cx.style.needs_redraw,
            !cx.cursor_icon_locked,
            !cx.ignore_default_theme,
            cx.window_has_focus,
    {
        let mut entity_manager = IdManager::new();
        let root = entity_manager.create();
        assert(root == Some(Entity::root()));
        assert(entity_manager@.generations =~= seq![0u32]);
        assert(entity_manager@.alive =~= seq![true]);
        let mut style = Style::new();
        style.data.insert(Entity::root(), StyleData::new());
        let mut cache = SparseSet::new();
        cache.insert(Entity::root(), BoundingBox { x: 0, y: 0, w: 0, h: 0 });
        assert(cache@ =~= Map::<Entity, BoundingBox>::empty().insert(
            Entity::root(),
            BoundingBox { x: 0, y: 0, w: 0, h: 0 },
        ));
        let cx = Context {
            entity_manager,
            tree: Tree::new(),
            current: Entity::root(),
            views: SparseSet::new(),
            data: SparseSet::new(),
            event_queue: VecDeque::new(),
            tree_updates: Vec::new(),
            listeners: SparseSet::new(),
            global_listeners: Vec::new(),
            style,
            cache,
            draw_cache: SparseSet::new(),
            captured: Entity::null(),
            triggered: Entity::null(),
            hovered: Entity::root(),
            focused: Entity::root(),
            focus_stack: Vec::new(),
            cursor_icon_locked: false,
            resource_manager: ResourceManager::new(),
            ignore_default_theme: false,
            window_has_focus: true,
        };
        proof {
            assert forall|x: Entity| #[trigger]
                cx.tree.contains(x) <==> cx.entity_manager@.is_alive(x) by {}
            assert(cx.style.data@.dom() =~= set![Entity::root()]);
            assert(cx.wf());
        }
        cx
    }

    /// What holds of a context that has just been made, but for its models:
    /// it holds the root and nothing else, the root has the focus and is
    /// hovered, nothing has captured the mouse, nothing waits and no pass is
    /// due.
    pub open spec fn is_initial(&self) -> bool {
        &&& self.wf()
        &&& forall|x: Entity| self.tree.contains(x) <==> x == Entity::root()
        &&& self.tree.children_of(Entity::root()) =~= Seq::<Entity>::empty()
        &&& self.entity_manager@.generations =~= seq![0u32]
        &&& self.entity_manager@.alive =~= seq![true]
        &&& self.entity_manager@.free =~= Seq::<u32>::empty()
        &&& self.entity_manager@.limit == crate::entity::MAX_ENTITIES
        &&& self.style.data@.dom() =~= set![Entity::root()]
        &&& self.style.data@[Entity::root()].is_blank()
        &&& self.style.computed@ =~= Map::<Entity, crate::style::Properties>::empty()
        &&& self.style.reaccess@ =~= Map::<Entity, ()>::empty()
        &&& self.style.default_font@.len() == 0
        &&& self.style.rules@.len() == 0
        &&& !self.style.needs_restyle && !self.style.needs_relayout && !self.style.needs_redraw
        &&& self.cache@ =~= Map::<Entity, BoundingBox>::empty().insert(
            Entity::root(),
            BoundingBox { x: 0, y: 0, w: 0, h: 0 },
        )
        &&& self.draw_cache@ =~= Map::<Entity, DrawData>::empty()
        &&& self.views@ =~= Map::<Entity, ViewSlot<V>>::empty()
        &&& self.listeners@ =~= Map::<Entity, u64>::empty()
        &&& self.current == Entity::root()
        &&& self.focused == Entity::root()
        &&& self.hovered == Entity::root()
        &&& self.captured == Entity::null()
        &&& self.triggered == Entity::null()
        &&& self.focus_stack@.len() == 0
        &&& self.event_queue@.len() == 0
        &&& self.tree_updates@.len() == 0
        &&& self.global_listeners@.len() == 0
        &&& self.resource_manager.themes@.len() == 0
        &&& self.resource_manager.stylesheets@.len() == 0
        &&& self.resource_manager.fonts@.len() == 0
        &&& self.resource_manager.images@.len() == 0
        &&& !self.cursor_icon_locked
        &&& !self.ignore_default_theme
        &&& self.window_has_focus
    }

    /// A context that holds the root, with the model of the environment, of
    /// the type with the key, attached to it, and nothing else.
    pub fn with_environment(type_key: u64, environment: M) -> (cx: Context<V, M, E, G>)
        ensures
            cx.is_initial(),
            cx.data@.dom() =~= set![Entity::root()],
            cx.data@[Entity::root()]@ == seq![ModelEntry { type_key, model: environment }],
    {
        let mut cx = Context::new();
        let mut models: Vec<ModelEntry<M>> = Vec::new();
        models.push(ModelEntry { type_key, model: environment });
        assert(models@ =~= seq![ModelEntry { type_key, model: environment }]);
        cx.data.insert(Entity::root(), models);
        assert(cx.data@.dom() =~= set![Entity::root()]);
        cx
    }

    /// The entity that is being built or is being handed an event.
    pub fn current(&self) -> (e: Entity)
        ensures
            e == self.current,
    {
        self.current
    }

    /// Makes another entity the current one.
    pub fn set_current(&mut self, e: Entity)
        ensures
            *final(self) == (Context { current: e, ..*old(self) }),
    {
        self.current = e;
    }

    /// Marks drawing as due.
    pub fn need_redraw(&mut self)
        ensures
            *final(self) == (Context {
                style: Style { needs_redraw: true, ..old(self).style },
                ..*old(self)
            }),
    {
        self.style.needs_redraw = true;
    }

    /// Marks a restyle as due.
    pub fn need_restyle(&mut self)
        ensures
            *final(self) == (Context {
                style: Style { needs_restyle: true, ..old(self).style },
                ..*old(self)
            }),
    {
        self.style.needs_restyle = true;
    }

    /// Marks layout as due.
    pub fn need_relayout(&mut self)
        ensures
            *final(self) == (Context {
                style: Style { needs_relayout: true, ..old(self).style },
                ..*old(self)
            }),
    {
        self.style.needs_relayout = true;
    }

    /// Queues an event that carries `message` up the tree from the current
    /// entity.
    pub fn emit(&mut self, message: Message<E>)
        ensures
            *final(self) == (Context {
                event_queue: final(self).event_queue,
                ..*old(self)
            }),
            final(self).event_queue@ == old(self).event_queue@.push(
                Event {
                    message,
                    origin: old(self).current,
                    target: old(self).current,
                    propagation: Propagation::Up,
                    consumed: false,
                },
            ),
    {
        let ev = Event::new(message).target(self.current).origin(self.current).propagate(
            Propagation::Up,
        );
        self.event_queue.push_back(ev);
    }

    /// Queues an event that carries `message` to `target` and no further.
    pub fn emit_to(&mut self, target: Entity, message: Message<E>)
        ensures
            *final(self) == (Context {
                event_queue: final(self).event_queue,
                ..*old(self)
            }),
            final(self).event_queue@ == old(self).event_queue@.push(
                Event {
                    message,
                    origin: old(self).current,
                    target,
                    propagation: Propagation::Direct,
                    consumed: false,
                },
            ),
    {
        let ev = Event::new(message).target(target).origin(self.current).propagate(
            Propagation::Direct,
        );
        self.event_queue.push_back(ev);
    }

    /// Queues an event as it is.
    pub fn emit_custom(&mut self, event: Event<E>)
        ensures
            *final(self) == (Context {
                event_queue: final(self).event_queue,
                ..*old(self)
            }),
            final(self).event_queue@ == old(self).event_queue@.push(event),
    {
        self.event_queue.push_back(event);
    }

    /// Takes the event that has waited longest off the queue.
    pub fn next_event(&mut self) -> (r: Option<Event<E>>)
        ensures
            *final(self) == (Context {
                event_queue: final(self).event_queue,
                ..*old(self)
            }),
            old(self).event_queue@.len() == 0 ==> r is None && final(self).event_queue@ == old(self).event_queue@,
            old(self).event_queue@.len() > 0 ==> r == Some(old(self).event_queue@[0]) && final(self).event_queue@ == old(self).event_queue@.subrange(
                1,
                old(self).event_queue@.len() as int,
            ),
    {
        self.event_queue.pop_front()
    }

    /// What `create` answers: the first of its checks that fails, or the
    /// entity that the manager hands out next.
    pub open spec fn create_result(&self, parent: Entity, position: usize) -> Result<
        Entity,
        CreateError,
    > {
        if !self.tree.contains(parent) {
            Err(CreateError::InvalidParent)
        } else if position > self.tree.children_of(parent).len() {
            Err(CreateError::InvalidPosition)
        } else if self.entity_manager@.available() == 0 {
            Err(CreateError::Exhausted)
        } else {
            Ok(self.entity_manager@.next())
        }
    }

    /// Creates an entity as the child of `parent` at `position` among its
    /// children. Nothing changes if the answer is an error.
    ///
    /// The entity starts with blank style data and an empty box. Because the
    /// tree has changed, all three passes become due, and the accessibility
    /// nodes of the entity and of its parent are marked.
    pub fn create(&mut self, parent: Entity, position: usize) -> (r: Result<Entity, CreateError>)
        requires
            old(self).wf(),
        ensures
            final(self).wf(),
            r == old(self).create_result(parent, position),
            r is Err ==> *final(self) == *old(self),
            r matches Ok(e) ==> {
                &&& !old(self).tree.contains(e)
                &&& !old(self).entity_manager@.is_stale(e)
                &&& final(self).entity_manager@ == old(self).entity_manager@.after_create()
                &&& final(self).tree.is_insertion(&old(self).tree, e, parent, position as int)
                &&& final(self).style.data@.dom() == old(self).style.data@.dom().insert(e)
                &&& final(self).style.data@[e].is_blank()
                &&& forall|x: Entity|
                    x != e && #[trigger] old(self).style.data@.contains_key(x) ==> final(self).style.data@[x] == old(self).style.data@[x]
                &&& final(self).cache@ == old(self).cache@.insert(
                    e,
                    BoundingBox { x: 0, y: 0, w: 0, h: 0 },
                )
                &&& forall|x: Entity|
                    #[trigger] final(self).style.reaccess@.contains_key(x) <==> old(self).style.reaccess@.contains_key(x) || x == e || x == parent
                &&& final(self).style.needs_restyle
                &&& final(self).style.needs_relayout
                &&& final(self).style.needs_redraw
                &&& final(self).style.computed == old(self).style.computed
                &&& final(self).style.rules == old(self).style.rules
                &&& final(self).style.default_font == old(self).style.default_font
                &&& *final(self) == (Context {
                    entity_manager: final(self).entity_manager,
                    tree: final(self).tree,
                    style: final(self).style,
                    cache: final(self).cache,
                    ..*old(self)
                })
            },
    {
        if !self.tree.has(parent) {
            return Err(CreateError::InvalidParent);
        }
        if position > self.tree.get_num_children(parent) {
            return Err(CreateError::InvalidPosition);
        }
        let e = match self.entity_manager.create() {
            None => {
                return Err(CreateError::Exhausted);
            },
            Some(e) => e,
        };
        proof {
            assert(self.entity_manager@.is_alive(e));
            assert(e.index < 0xffff_ffff);
            assert(!old(self).tree.contains(e));
            assert(!self.tree.index_used(e.index)) by {
                if self.tree.index_used(e.index) {
                    let x = choose|x: Entity| self.tree.contains(x) && x.index == e.index;
                    assert(old(self).entity_manager@.is_alive(x));
                    if old(self).entity_manager@.free.len() > 0 {
                        assert(e.index == old(self).entity_manager@.free[0]);
                    }
                }
            }
            assert forall|k: Entity| self.style.data@.contains_key(k) && k.index
                == e.index implies k == e by {
                assert(self.tree.contains(k));
            }
            assert forall|k: Entity| self.cache@.contains_key(k) && k.index == e.index implies k
                == e by {
                assert(self.tree.contains(k));
            }
            assert forall|k: Entity| self.style.reaccess@.contains_key(k) && k.index
                == e.index implies k == e by {
                assert(self.tree.contains(k));
            }
            assert forall|k: Entity| self.style.reaccess@.contains_key(k) && k.index
                == parent.index implies k == parent by {
                assert(self.tree.contains(k));
                self.tree.lemma_indices(parent, k);
            }
            self.tree.lemma_indices(parent, parent);
            lemma_map_with_insert(self.cache@, e, BoundingBox { x: 0, y: 0, w: 0, h: 0 });
            lemma_map_with_insert(self.style.reaccess@, e, ());
            lemma_map_with_insert(self.style.reaccess@.insert(e, ()), parent, ());
        }
        let inserted = self.tree.insert(e, parent, position);
        assert(inserted is Ok);
        let blank = StyleData::new();
        proof {
            lemma_map_with_insert(self.style.data@, e, blank);
        }
        self.style.data.insert(e, blank);
        self.cache.insert(e, BoundingBox { x: 0, y: 0, w: 0, h: 0 });
        self.style.reaccess.insert(e, ());
        self.style.reaccess.insert(parent, ());
        self.style.needs_restyle = true;
        self.style.needs_relayout = true;
        self.style.needs_redraw = true;
        proof {
            assert(self.style.data@.dom() =~= old(self).style.data@.dom().insert(e));
            assert forall|x: Entity| #[trigger]
                self.tree.contains(x) <==> self.entity_manager@.is_alive(x) by {
                if x != e {
                    assert(old(self).tree.contains(x) <==> old(self).entity_manager@.is_alive(x));
                }
            }
        }
        Ok(e)
    }

    /// The node of the entity as the style, the box and the tree give it,
    /// without what a view may add: its data, and the identifiers of the
    /// children of the entity as the identifiers of its children.
    pub fn get_node(&self, e: Entity) -> (node: crate::access::NodeEntry)
        requires
            self.wf(),
        ensures
            node.id == e.accesskit_id(),
            node.data == crate::accessibility::spec_base_node(&self.style, self.cache@, e),
            node.children@ == crate::accessibility::ids_of(self.tree.children_of(e)),
    {
        let n = self.tree.get_num_children(e);
        let mut children: Vec<u64> = Vec::new();
        let mut k: usize = 0;
        while k < n
            invariant
                self.wf(),
                n == self.tree.children_of(e).len(),
                k <= n,
                children@.len() == k,
                forall|t: int|
                    0 <= t < k ==> children@[t] == self.tree.children_of(e)[t].accesskit_id(),
            decreases n - k,
        {
            let c = self.tree.get_child(e, k).unwrap();
            children.push(c.accesskit_id());
            k += 1;
        }
        assert(children@ =~= crate::accessibility::ids_of(self.tree.children_of(e)));
        crate::access::NodeEntry {
            id: e.accesskit_id(),
            data: crate::accessibility::base_node(&self.style, &self.cache, e),
            children,
        }
    }

    /// Where an event of the mouse goes: to the entity that has captured the
    /// mouse, if there is one, and else to the entity under the cursor.
    pub fn mouse_target(&self) -> (e: Entity)
        ensures
            e == (if self.captured.is_null() {
                self.hovered
            } else {
                self.captured
            }),
    {
        if self.captured.is_null() {
            self.hovered
        } else {
            self.captured
        }
    }

    /// Records the box that layout has given to the entity. Because the box
    /// shows and is told to assistive technology, drawing becomes due and the
    /// accessibility node of the entity is marked. Returns whether the entity
    /// is in the tree; if it is not, nothing changes.
    pub fn set_bounds(&mut self, e: Entity, bounds: BoundingBox) -> (set: bool)
        requires
            old(self).wf(),
        ensures
            final(self).wf(),
            set == old(self).tree.contains(e),
            !set ==> *final(self) == *old(self),
            set ==> {
                &&& final(self).cache@ == old(self).cache@.insert(e, bounds)
                &&& final(self).style.reaccess@ == old(self).style.reaccess@.insert(e, ())
                &&& final(self).style.needs_redraw
                &&& final(self).style.needs_restyle == old(self).style.needs_restyle
                &&& final(self).style.needs_relayout == old(self).style.needs_relayout
                &&& final(self).style.data == old(self).style.data
                &&& final(self).style.computed == old(self).style.computed
                &&& final(self).style.rules == old(self).style.rules
                &&& final(self).style.default_font == old(self).style.default_font
                &&& *final(self) == (Context {
                    cache: final(self).cache,
                    style: final(self).style,
                    ..*old(self)
                })
            },
    {
        if !self.tree.has(e) {
            return false;
        }
        proof {
            assert forall|k: Entity| self.cache@.contains_key(k) && k.index == e.index implies k
                == e by {
                assert(self.tree.contains(k));
                self.tree.lemma_indices(e, k);
            }
            assert forall|k: Entity| self.style.reaccess@.contains_key(k) && k.index
                == e.index implies k == e by {
                assert(self.tree.contains(k));
                self.tree.lemma_indices(e, k);
            }
            self.tree.lemma_indices(e, e);
            lemma_map_with_insert(self.cache@, e, bounds);
            lemma_map_with_insert(self.style.reaccess@, e, ());
        }
        self.cache.insert(e, bounds);
        self.style.reaccess.insert(e, ());
        self.style.needs_redraw = true;
        true
    }
}

} // verus!
