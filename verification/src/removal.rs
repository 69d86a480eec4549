//! Removal of an entity with everything below it.

use crate::context::Context;
use crate::entity::{Entity, IdModel};
use crate::focus::focus_data;
use crate::sparse_set::lemma_map_with_insert;
use crate::style::StyleData;
use crate::tree::Tree;
use crate::tree_lemmas::{
    lemma_ancestors, lemma_subtree_is_within, lemma_subtree_no_duplicates, lemma_within_contains,
};
use vstd::prelude::*;

verus! {

/// The entity that gets the focus when the entity that has it is removed
/// with `e`: the latest entity on the stack that is in the tree and does not
/// go with `e`; `None` if there is no such entity.
pub open spec fn restored_focus(tree: &Tree, stack: Seq<Entity>, e: Entity) -> Option<Entity>
    decreases stack.len(),
{
    if stack.len() == 0 {
        None
    } else if tree.contains(stack.last()) && !tree.is_within(e, stack.last()) {
        Some(stack.last())
    } else {
        restored_focus(tree, stack.drop_last(), e)
    }
}

/// The entity that gets the focus is in the tree and does not go with `e`.
pub proof fn lemma_restored_focus(tree: &Tree, stack: Seq<Entity>, e: Entity)
    ensures
        restored_focus(tree, stack, e) matches Some(c) ==> tree.contains(c) && !tree.is_within(e, c),
    decreases stack.len(),
{
    if stack.len() > 0 && !(tree.contains(stack.last()) && !tree.is_within(e, stack.last())) {
        lemma_restored_focus(tree, stack.drop_last(), e);
    }
}

/// The stack after the focus was restored: the entity that got the focus and
/// those above it are gone.
pub open spec fn stack_after_restore(tree: &Tree, stack: Seq<Entity>, e: Entity) -> Seq<Entity>
    decreases stack.len(),
{
    if stack.len() == 0 {
        stack
    } else if tree.contains(stack.last()) && !tree.is_within(e, stack.last()) {
        stack.drop_last()
    } else {
        stack_after_restore(tree, stack.drop_last(), e)
    }
}

/// The state of the identifiers after the entities of `order` were destroyed
/// one after the other.
pub open spec fn destroyed_all(m: IdModel, order: Seq<Entity>) -> IdModel
    decreases order.len(),
{
    if order.len() == 0 {
        m
    } else {
        destroyed_all(m, order.drop_last()).after_destroy(order.last())
    }
}

impl<V, M, E, G> Context<V, M, E, G> {
    /// The entities that go when `e` is removed: `e` and everything below
    /// it.
    pub open spec fn doomed(&self, e: Entity) -> Set<Entity> {
        Set::new(|x: Entity| self.tree.is_within(e, x))
    }

    /// Whether removing `e` removes anything: `e` is in the tree and is not
    /// the root, which is never destroyed.
    pub open spec fn removes(&self, e: Entity) -> bool {
        self.tree.contains(e) && e != Entity::root()
    }

    /// What is said of a surviving entity `x` after `e` was removed. Nothing
    /// changes unless the focus was on an entity that went; then the
    /// pseudo-classes of the focus are cleared where it was and set where it
    /// is now.
    pub open spec fn data_after_removal(&self, e: Entity, x: Entity) -> StyleData {
        let d = self.style.data@[x];
        if !self.tree.is_within(e, self.focused) {
            d
        } else {
            let visible = self.focus_is_visible();
            let cleared = focus_data(&self.tree, self.focused, false, visible, x, d);
            match restored_focus(&self.tree, self.focus_stack@, e) {
                Some(c) => focus_data(&self.tree, c, true, visible, x, cleared),
                None => cleared,
            }
        }
    }

    /// Whether the removal of `e` marks the accessibility node of the
    /// surviving entity `x`: it does for the parent of `e`, whose children
    /// change, and for every entity whose pseudo-classes of the focus it
    /// touches.
    pub open spec fn marked_by_removal(&self, e: Entity, x: Entity) -> bool {
        ||| self.tree.parent_of(e) == Some(x)
        ||| self.tree.is_within(e, self.focused) && self.style.data@.contains_key(x) && (
        self.tree.is_within(x, self.focused) || (restored_focus(
            &self.tree,
            self.focus_stack@,
            e,
        ) matches Some(c) && self.tree.is_within(x, c)))
    }

    /// The entities that go when `e` is removed, in the order in which they
    /// are destroyed: children before their parents.
    pub fn removal_order(&self, e: Entity) -> (order: Vec<Entity>)
        requires
            self.wf(),
        ensures
            order@ == self.tree.subtree(e).reverse(),
    {
        let list = self.tree.branch_iter(e);
        let mut order: Vec<Entity> = Vec::new();
        let mut i: usize = list.len();
        while i > 0
            invariant
                i <= list.len(),
                order@.len() == list.len() - i,
                forall|k: int| 0 <= k < order@.len() ==> order@[k] == list@[list.len() - 1 - k],
            decreases i,
        {
            i -= 1;
            order.push(list[i]);
        }
        assert(order@ =~= list@.reverse());
        order
    }

    /// Takes the focus out of `e`. If the entity that has the focus is `e` or
    /// lies below it, the focus passes to the latest entity on the focus
    /// stack that is in the tree and outside `e`, as `focus` would give it
    /// with that entity as the current one; if there is none, the
    /// pseudo-classes of the focus are cleared and nothing has the focus. All
    /// three passes become due. Returns whether the focus was within `e`; if
    /// it was not, nothing changes.
    pub fn release_focus(&mut self, e: Entity) -> (moved: bool)
        requires
            old(self).wf(),
        ensures
            final(self).wf(),
            moved == old(self).tree.is_within(e, old(self).focused),
            !moved ==> *final(self) == *old(self),
            moved ==> {
                &&& final(self).focused == (match restored_focus(
                    &old(self).tree,
                    old(self).focus_stack@,
                    e,
                ) {
                    Some(c) => c,
                    None => Entity::null(),
                })
                &&& final(self).focused.is_null() || (final(self).tree.contains(final(self).focused)
                    && !final(self).tree.is_within(e, final(self).focused))
                &&& final(self).focus_stack@ == stack_after_restore(
                    &old(self).tree,
                    old(self).focus_stack@,
                    e,
                )
                &&& final(self).event_queue@ == (match restored_focus(
                    &old(self).tree,
                    old(self).focus_stack@,
                    e,
                ) {
                    Some(c) => old(self).event_queue@.push(
                        Self::focus_out_event(c, old(self).focused),
                    ).push(Self::focus_in_event(c, c)),
                    None => old(self).event_queue@,
                })
                &&& final(self).style.data@.dom() == old(self).style.data@.dom()
                &&& forall|x: Entity|
                    #[trigger] old(self).style.data@.contains_key(x) ==> final(self).style.data@[x]
                        == old(self).data_after_removal(e, x)
                &&& forall|x: Entity|
                    #[trigger] final(self).style.reaccess@.contains_key(x) <==> old(self).style.reaccess@.contains_key(x) || (old(self).style.data@.contains_key(x) && (
                    old(self).tree.is_within(x, old(self).focused) || (restored_focus(
                        &old(self).tree,
                        old(self).focus_stack@,
                        e,
                    ) matches Some(c) && old(self).tree.is_within(x, c))))
                &&& final(self).style.needs_restyle
                &&& final(self).style.needs_relayout
                &&& final(self).style.needs_redraw
                &&& final(self).style.computed == old(self).style.computed
                &&& final(self).style.rules == old(self).style.rules
                &&& final(self).style.default_font == old(self).style.default_font
                &&& *final(self) == (Context {
                    style: final(self).style,
                    event_queue: final(self).event_queue,
                    focused: final(self).focused,
                    focus_stack: final(self).focus_stack,
                    ..*old(self)
                })
            },
    {
        if self.tree.is_descendant_of(self.focused, e) {
            proof {
                lemma_restored_focus(&self.tree, self.focus_stack@, e);
            }
            self.restore_focus(e);
            true
        } else {
            false
        }
    }

    /// Gives the focus to the latest entity on the stack that survives the
    /// removal of `e`, or to none.
    fn restore_focus(&mut self, e: Entity)
        requires
            old(self).wf(),
            old(self).tree.is_within(e, old(self).focused),
        ensures
            final(self).wf(),
            final(self).focused == (match restored_focus(
                &old(self).tree,
                old(self).focus_stack@,
                e,
            ) {
                Some(c) => c,
                None => Entity::null(),
            }),
            final(self).focus_stack@ == stack_after_restore(
                &old(self).tree,
                old(self).focus_stack@,
                e,
            ),
            final(self).event_queue@ == (match restored_focus(
                &old(self).tree,
                old(self).focus_stack@,
                e,
            ) {
                Some(c) => old(self).event_queue@.push(
                    Self::focus_out_event(c, old(self).focused),
                ).push(Self::focus_in_event(c, c)),
                None => old(self).event_queue@,
            }),
            final(self).style.data@.dom() == old(self).style.data@.dom(),
            forall|x: Entity|
                #[trigger] old(self).style.data@.contains_key(x) ==> final(self).style.data@[x]
                    == old(self).data_after_removal(e, x),
            forall|x: Entity|
                #[trigger] final(self).style.reaccess@.contains_key(x) <==> old(self).style.reaccess@.contains_key(x) || (old(self).style.data@.contains_key(x) && (old(self).tree.is_within(x, old(self).focused) || (restored_focus(
                    &old(self).tree,
                    old(self).focus_stack@,
                    e,
                ) matches Some(c) && old(self).tree.is_within(x, c)))),
            final(self).style.needs_restyle,
            final(self).style.needs_relayout,
            final(self).style.needs_redraw,
            final(self).style.computed == old(self).style.computed,
            final(self).style.rules == old(self).style.rules,
            final(self).style.default_font == old(self).style.default_font,
            *final(self) == (Context {
                style: final(self).style,
                event_queue: final(self).event_queue,
                focused: final(self).focused,
                focus_stack: final(self).focus_stack,
                ..*old(self)
            }),
    {
        let visible = match self.style.data.get(self.focused) {
            Some(d) => d.pseudo_classes.contains(crate::flags::PseudoClass::FocusVisible),
            None => false,
        };
        let mut found: Option<Entity> = None;
        let mut searching = true;
        while searching
            invariant
                old(self).wf(),
                self.wf(),
                *self == (Context { focus_stack: self.focus_stack, ..*old(self) }),
                searching ==> found is None,
                found matches Some(c) ==> self.tree.contains(c) && !self.tree.is_within(e, c),
                searching ==> restored_focus(&self.tree, self.focus_stack@, e) == restored_focus(
                    &old(self).tree,
                    old(self).focus_stack@,
                    e,
                ),
                searching ==> stack_after_restore(&self.tree, self.focus_stack@, e)
                    == stack_after_restore(&old(self).tree, old(self).focus_stack@, e),
                !searching ==> found == restored_focus(
                    &old(self).tree,
                    old(self).focus_stack@,
                    e,
                ),
                !searching ==> self.focus_stack@ == stack_after_restore(
                    &old(self).tree,
                    old(self).focus_stack@,
                    e,
                ),
            decreases self.focus_stack@.len() + (if searching { 1nat } else { 0nat }),
        {
            let ghost stack = self.focus_stack@;
            match self.focus_stack.pop() {
                None => {
                    searching = false;
                },
                Some(c) => {
                    assert(c == stack.last());
                    assert(self.focus_stack@ == stack.drop_last());
                    if self.tree.has(c) && !self.tree.is_descendant_of(c, e) {
                        found = Some(c);
                        searching = false;
                    }
                },
            }
        }
        match found {
            Some(c) => {
                assert(c != self.focused);
                let previous = self.current;
                self.current = c;
                self.focus();
                self.current = previous;
            },
            None => {
                let focused = self.focused;
                self.set_focus_pseudo_classes(focused, false, visible);
                self.focused = Entity::null();
                self.style.needs_restyle = true;
                self.style.needs_relayout = true;
                self.style.needs_redraw = true;
            },
        }
    }

    /// Erases what the stores hold of the entities of `order` and destroys
    /// their identifiers, one entity after the other.
    fn erase_components(&mut self, order: &Vec<Entity>)
        requires
            old(self).entity_manager.wf(),
            old(self).style.wf(),
            old(self).views.wf(),
            old(self).data.wf(),
            old(self).listeners.wf(),
            old(self).cache.wf(),
            old(self).draw_cache.wf(),
            order@.no_duplicates(),
            forall|k: int| 0 <= k < order@.len() ==> old(self).entity_manager@.is_alive(order@[k]),
        ensures
            final(self).entity_manager.wf(),
            final(self).style.wf(),
            final(self).views.wf(),
            final(self).data.wf(),
            final(self).listeners.wf(),
            final(self).cache.wf(),
            final(self).draw_cache.wf(),
            final(self).entity_manager@ == destroyed_all(old(self).entity_manager@, order@),
            forall|x: Entity|
                #[trigger] final(self).entity_manager@.is_alive(x) <==> old(self).entity_manager@.is_alive(x) && !order@.contains(x),
            forall|x: Entity|
                old(self).entity_manager@.is_stale(x) || order@.contains(x) ==> #[trigger] final(self).entity_manager@.is_stale(x),
            final(self).style.data@ == old(self).style.data@.remove_keys(order@.to_set()),
            final(self).style.computed@ == old(self).style.computed@.remove_keys(order@.to_set()),
            final(self).style.reaccess@ == old(self).style.reaccess@.remove_keys(order@.to_set()),
            final(self).cache@ == old(self).cache@.remove_keys(order@.to_set()),
            final(self).draw_cache@ == old(self).draw_cache@.remove_keys(order@.to_set()),
            final(self).views@ == old(self).views@.remove_keys(order@.to_set()),
            final(self).data@ == old(self).data@.remove_keys(order@.to_set()),
            final(self).listeners@ == old(self).listeners@.remove_keys(order@.to_set()),
            final(self).style.rules == old(self).style.rules,
            final(self).style.default_font == old(self).style.default_font,
            final(self).style.needs_restyle == old(self).style.needs_restyle,
            final(self).style.needs_relayout == old(self).style.needs_relayout,
            final(self).style.needs_redraw == old(self).style.needs_redraw,
            *final(self) == (Context {
                entity_manager: final(self).entity_manager,
                style: final(self).style,
                views: final(self).views,
                data: final(self).data,
                listeners: final(self).listeners,
                cache: final(self).cache,
                draw_cache: final(self).draw_cache,
                ..*old(self)
            }),
    {
        let mut i: usize = 0;
        proof {
            let none = order@.take(0).to_set();
            assert(none =~= Set::<Entity>::empty());
            assert(self.style.data@.remove_keys(none) =~= self.style.data@);
            assert(self.style.computed@.remove_keys(none) =~= self.style.computed@);
            assert(self.style.reaccess@.remove_keys(none) =~= self.style.reaccess@);
            assert(self.cache@.remove_keys(none) =~= self.cache@);
            assert(self.draw_cache@.remove_keys(none) =~= self.draw_cache@);
            assert(self.views@.remove_keys(none) =~= self.views@);
            assert(self.data@.remove_keys(none) =~= self.data@);
            assert(self.listeners@.remove_keys(none) =~= self.listeners@);
            assert(order@.take(0) =~= Seq::<Entity>::empty());
        }
        while i < order.len()
            invariant
                i <= order.len(),
                order@.no_duplicates(),
                forall|k: int|
                    0 <= k < order@.len() ==> old(self).entity_manager@.is_alive(order@[k]),
                self.entity_manager.wf(),
                self.style.wf(),
                self.views.wf(),
                self.data.wf(),
                self.listeners.wf(),
                self.cache.wf(),
                self.draw_cache.wf(),
                self.entity_manager@ == destroyed_all(
                    old(self).entity_manager@,
                    order@.take(i as int),
                ),
                forall|x: Entity|
                    #[trigger] self.entity_manager@.is_alive(x) <==> old(self).entity_manager@.is_alive(x) && !order@.take(i as int).contains(x),
                forall|x: Entity|
                    old(self).entity_manager@.is_stale(x) || order@.take(i as int).contains(x)
                        ==> #[trigger] self.entity_manager@.is_stale(x),
                self.style.data@ == old(self).style.data@.remove_keys(
                    order@.take(i as int).to_set(),
                ),
                self.style.computed@ == old(self).style.computed@.remove_keys(
                    order@.take(i as int).to_set(),
                ),
                self.style.reaccess@ == old(self).style.reaccess@.remove_keys(
                    order@.take(i as int).to_set(),
                ),
                self.cache@ == old(self).cache@.remove_keys(order@.take(i as int).to_set()),
                self.draw_cache@ == old(self).draw_cache@.remove_keys(
                    order@.take(i as int).to_set(),
                ),
                self.views@ == old(self).views@.remove_keys(order@.take(i as int).to_set()),
                self.data@ == old(self).data@.remove_keys(order@.take(i as int).to_set()),
                self.listeners@ == old(self).listeners@.remove_keys(
                    order@.take(i as int).to_set(),
                ),
                self.style.rules == old(self).style.rules,
                self.style.default_font == old(self).style.default_font,
                self.style.needs_restyle == old(self).style.needs_restyle,
                self.style.needs_relayout == old(self).style.needs_relayout,
                self.style.needs_redraw == old(self).style.needs_redraw,
                *self == (Context {
                    entity_manager: self.entity_manager,
                    style: self.style,
                    views: self.views,
                    data: self.data,
                    listeners: self.listeners,
                    cache: self.cache,
                    draw_cache: self.draw_cache,
                    ..*old(self)
                }),
            decreases order.len() - i,
        {
            let x = order[i];
            proof {
                let done = order@.take(i as int);
                let next = order@.take(i + 1);
                assert(next.drop_last() =~= done);
                assert(next.last() == x);
                assert(!done.contains(x)) by {
                    if done.contains(x) {
                        let j = choose|j: int| 0 <= j < done.len() && done[j] == x;
                        assert(order@[j] == order@[i as int]);
                    }
                }
                crate::seq_lemmas::lemma_take_insert(order@, i as int);
                assert(self.entity_manager@.is_alive(x));
            }
            let ghost before = *self;
            self.style.remove(x);
            self.cache.remove(x);
            self.draw_cache.remove(x);
            self.views.remove(x);
            self.data.remove(x);
            self.listeners.remove(x);
            let was_alive = self.entity_manager.destroy(x);
            i += 1;
            proof {
                let done = order@.take(i - 1);
                let next = order@.take(i as int);
                assert(was_alive);
                assert(self.style.data@ =~= old(self).style.data@.remove_keys(next.to_set()));
                assert(self.style.computed@ =~= old(self).style.computed@.remove_keys(
                    next.to_set(),
                ));
                assert(self.style.reaccess@ =~= old(self).style.reaccess@.remove_keys(
                    next.to_set(),
                ));
                assert(self.cache@ =~= old(self).cache@.remove_keys(next.to_set()));
                assert(self.draw_cache@ =~= old(self).draw_cache@.remove_keys(next.to_set()));
                assert(self.views@ =~= old(self).views@.remove_keys(next.to_set()));
                assert(self.data@ =~= old(self).data@.remove_keys(next.to_set()));
                assert(self.listeners@ =~= old(self).listeners@.remove_keys(next.to_set()));
                assert forall|y: Entity| #[trigger]
                    self.entity_manager@.is_alive(y) <==> old(self).entity_manager@.is_alive(y)
                        && !next.contains(y) by {
                    assert(before.entity_manager@.is_alive(y) <==> old(self).entity_manager@.is_alive(y) && !done.contains(y));
                }
                assert forall|y: Entity|
                    old(self).entity_manager@.is_stale(y) || next.contains(y) implies #[trigger] self.entity_manager@.is_stale(
                    y,
                ) by {
                    if y != x {
                        assert(before.entity_manager@.is_stale(y));
                    }
                }
            }
        }
        proof {
            assert(order@.take(i as int) =~= order@);
        }
    }

    /// Removes the entity with everything below it, children before their
    /// parents. Nothing changes if the entity is not in the tree, or is the
    /// root, which is never destroyed.
    ///
    /// Of an entity that goes, the tree and the stores keep nothing, and its
    /// identifier is stale for good. If the focus was on an entity that goes,
    /// it passes to the latest entity on the focus stack that stays, as
    /// `focus` would give it; if there is none, nothing has the focus. If the
    /// mouse was captured by an entity that goes, nothing has captured it.
    /// All three passes become due, and the accessibility node of the parent
    /// is marked.
    #[verifier::rlimit(50)]
    pub fn remove(&mut self, e: Entity)
        requires
            old(self).wf(),
        ensures
            final(self).wf(),
            !old(self).removes(e) ==> *final(self) == *old(self),
            old(self).removes(e) ==> {
                &&& final(self).tree.is_subtree_removal(&old(self).tree, e)
                &&& final(self).entity_manager@ == destroyed_all(
                    old(self).entity_manager@,
                    old(self).tree.subtree(e).reverse(),
                )
                &&& forall|x: Entity|
                    #[trigger] old(self).tree.is_within(e, x) ==> !final(self).tree.contains(x)
                        && !final(self).stores_mention(x) && final(self).entity_manager@.is_stale(x)
                &&& forall|x: Entity|
                    old(self).entity_manager@.is_stale(x) ==> #[trigger] final(self).entity_manager@.is_stale(x)
                &&& final(self).style.computed@ == old(self).style.computed@.remove_keys(
                    old(self).doomed(e),
                )
                &&& final(self).cache@ == old(self).cache@.remove_keys(old(self).doomed(e))
                &&& final(self).draw_cache@ == old(self).draw_cache@.remove_keys(
                    old(self).doomed(e),
                )
                &&& final(self).views@ == old(self).views@.remove_keys(old(self).doomed(e))
                &&& final(self).data@ == old(self).data@.remove_keys(old(self).doomed(e))
                &&& final(self).listeners@ == old(self).listeners@.remove_keys(old(self).doomed(e))
                &&& final(self).resource_manager.themes == old(self).resource_manager.themes
                &&& final(self).resource_manager.stylesheets == old(self).resource_manager.stylesheets
                &&& final(self).resource_manager.fonts == old(self).resource_manager.fonts
                &&& final(self).resource_manager.images@.len() == old(self).resource_manager.images@.len()
                &&& forall|i: int|
                    0 <= i < final(self).resource_manager.images@.len() ==> {
                        &&& (#[trigger] final(self).resource_manager.images@[i]).path == old(self).resource_manager.images@[i].path
                        &&& final(self).resource_manager.images@[i].retention_policy == old(self).resource_manager.images@[i].retention_policy
                        &&& final(self).resource_manager.images@[i].used == old(self).resource_manager.images@[i].used
                        &&& final(self).resource_manager.images@[i].dirty == old(self).resource_manager.images@[i].dirty
                        &&& final(self).resource_manager.images@[i].observers@ == old(self).resource_manager.images@[i].observers@.remove_keys(old(self).doomed(e))
                    }
                &&& forall|x: Entity|
                    #[trigger] old(self).tree.is_within(e, x) ==> !final(self).resource_manager.observes(x)
                &&& final(self).style.data@.dom() == old(self).style.data@.dom().difference(
                    old(self).doomed(e),
                )
                &&& forall|x: Entity|
                    #[trigger] final(self).style.data@.contains_key(x) ==> final(self).style.data@[x] == old(self).data_after_removal(e, x)
                &&& forall|x: Entity|
                    #[trigger] final(self).style.reaccess@.contains_key(x) <==> !old(self).tree.is_within(e, x) && (old(self).style.reaccess@.contains_key(x) || old(self).marked_by_removal(e, x))
                &&& final(self).style.needs_restyle
                &&& final(self).style.needs_relayout
                &&& final(self).style.needs_redraw
                &&& final(self).style.rules == old(self).style.rules
                &&& final(self).style.default_font == old(self).style.default_font
                &&& final(self).captured == (if old(self).tree.is_within(e, old(self).captured) {
                    Entity::null()
                } else {
                    old(self).captured
                })
            },
            old(self).removes(e) && !old(self).tree.is_within(e, old(self).focused) ==> {
                &&& final(self).focused == old(self).focused
                &&& final(self).focus_stack == old(self).focus_stack
                &&& final(self).event_queue == old(self).event_queue
            },
            old(self).removes(e) && old(self).tree.is_within(e, old(self).focused) ==> {
                &&& final(self).focused == (match restored_focus(
                    &old(self).tree,
                    old(self).focus_stack@,
                    e,
                ) {
                    Some(c) => c,
                    None => Entity::null(),
                })
                &&& final(self).focused.is_null() || final(self).tree.contains(final(self).focused)
                &&& final(self).focus_stack@ == stack_after_restore(
                    &old(self).tree,
                    old(self).focus_stack@,
                    e,
                )
                &&& final(self).event_queue@ == (match restored_focus(
                    &old(self).tree,
                    old(self).focus_stack@,
                    e,
                ) {
                    Some(c) => old(self).event_queue@.push(
                        Self::focus_out_event(c, old(self).focused),
                    ).push(Self::focus_in_event(c, c)),
                    None => old(self).event_queue@,
                })
            },
            *final(self) == (Context {
                entity_manager: final(self).entity_manager,
                tree: final(self).tree,
                style: final(self).style,
                views: final(self).views,
                data: final(self).data,
                listeners: final(self).listeners,
                cache: final(self).cache,
                draw_cache: final(self).draw_cache,
                event_queue: final(self).event_queue,
                focused: final(self).focused,
                focus_stack: final(self).focus_stack,
                captured: final(self).captured,
                resource_manager: final(self).resource_manager,
                ..*old(self)
            }),
    {
        if !self.tree.has(e) || e == Entity::root() {
            return ;
        }
        let focus_goes = self.tree.is_descendant_of(self.focused, e);
        if focus_goes {
            proof {
                lemma_restored_focus(&self.tree, self.focus_stack@, e);
            }
            self.restore_focus(e);
        }
        let ghost mid = *self;
        let captured_goes = self.tree.is_descendant_of(self.captured, e);
        let parent = self.tree.get_parent(e).unwrap();
        let order = self.removal_order(e);
        proof {
            lemma_subtree_no_duplicates(self.tree, e);
            lemma_subtree_is_within(self.tree, e);
            let list = self.tree.subtree(e);
            assert(order@.no_duplicates()) by {
                assert forall|a: int, b: int|
                    0 <= a < order@.len() && 0 <= b < order@.len() && a != b implies order@[a]
                    != order@[b] by {
                    assert(order@[a] == list[list.len() - 1 - a]);
                    assert(order@[b] == list[list.len() - 1 - b]);
                }
            }
            assert forall|x: Entity| order@.contains(x) <==> self.tree.is_within(e, x) by {
                if order@.contains(x) {
                    let k = choose|k: int| 0 <= k < order@.len() && order@[k] == x;
                    assert(list[list.len() - 1 - k] == x);
                    assert(list.contains(x));
                }
                if list.contains(x) {
                    let k = choose|k: int| 0 <= k < list.len() && list[k] == x;
                    assert(order@[list.len() - 1 - k] == x);
                }
            }
            assert forall|k: int| 0 <= k < order@.len() implies self.entity_manager@.is_alive(
                order@[k],
            ) by {
                assert(order@.contains(order@[k]));
                lemma_within_contains(self.tree, e, order@[k]);
            }
            assert(order@.to_set() =~= old(self).doomed(e));
            lemma_ancestors(self.tree, e);
            assert(self.tree.contains(parent));
            assert(!self.tree.is_within(e, parent)) by {
                if self.tree.is_within(e, parent) {
                    lemma_within_contains(self.tree, e, parent);
                }
            }
        }
        self.erase_components(&order);
        self.resource_manager.remove_observers(&order);
        let removed = self.tree.remove_subtree(e);
        if captured_goes {
            self.captured = Entity::null();
        }
        proof {
            assert(self.tree.contains(parent));
            assert forall|k: Entity| self.style.reaccess@.contains_key(k) && k.index
                == parent.index implies k == parent by {
                assert(mid.style.reaccess@.contains_key(k));
                assert(mid.tree.contains(k));
                mid.tree.lemma_indices(parent, k);
            }
            mid.tree.lemma_indices(parent, parent);
            lemma_map_with_insert(self.style.reaccess@, parent, ());
        }
        self.style.reaccess.insert(parent, ());
        self.style.needs_restyle = true;
        self.style.needs_relayout = true;
        self.style.needs_redraw = true;
        proof {
            assert(self.style.data@.dom() =~= old(self).style.data@.dom().difference(
                old(self).doomed(e),
            ));
            assert forall|x: Entity| #[trigger]
                self.tree.contains(x) <==> self.entity_manager@.is_alive(x) by {
                assert(mid.tree.contains(x) <==> mid.entity_manager@.is_alive(x));
            }
        }
    }
}

} // verus!
