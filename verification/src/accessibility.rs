//! The accessibility synchroniser: the nodes that assistive technology is
//! told of, made from the tree, the style and the boxes of the entities and
//! from what their views add.

use crate::access::{AccessNode, ExtraNode, NodeData, NodeEntry, Rect, TreeInfo, TreeUpdate};
use crate::context::{BoundingBox, Context};
use crate::entity::{lemma_accesskit_id_injective, Entity};
use crate::flags::{Ability, PseudoClass};
use crate::sparse_set::SparseSet;
use crate::style::{Role, Style};
use crate::tree::Tree;
use vstd::prelude::*;

verus! {

/// What a view sees of the context while it adds to the node of its entity.
pub struct AccessContext<'a> {
    pub current: Entity,
    pub tree: &'a Tree,
    pub cache: &'a SparseSet<BoundingBox>,
    pub style: &'a Style,
}

/// The part of a view that the synchroniser calls.
pub trait ViewHandler {
    /// Lets the view change the data of the node of its entity and add nodes
    /// for parts of the view that are no entities of their own. Nothing is
    /// asked of what the view does to the node.
    fn accessibility(&self, cx: &AccessContext, node: &mut AccessNode);
}

/// Whether `id` is the identifier of an entity of the tree.
pub open spec fn is_tree_id(tree: &Tree, id: u64) -> bool {
    exists|x: Entity| tree.contains(x) && #[trigger] x.accesskit_id() == id
}

/// Whether `id` is the identifier of an entity of the tree.
pub fn tree_has_id(tree: &Tree, id: u64) -> (b: bool)
    requires
        tree.wf(),
    ensures
        b == is_tree_id(tree, id),
{
    match Entity::from_accesskit_id(id) {
        Some(e) => {
            let b = tree.has(e);
            proof {
                if is_tree_id(tree, id) {
                    let x = choose|x: Entity| tree.contains(x) && #[trigger] x.accesskit_id() == id;
                    lemma_accesskit_id_injective(x, e);
                }
            }
            b
        },
        None => {
            proof {
                if is_tree_id(tree, id) {
                    let x = choose|x: Entity| tree.contains(x) && #[trigger] x.accesskit_id() == id;
                    assert(x.is_null());
                }
            }
            false
        },
    }
}

/// The identifiers of the entities of a sequence.
pub open spec fn ids_of(entities: Seq<Entity>) -> Seq<u64> {
    Seq::new(entities.len(), |i: int| entities[i].accesskit_id())
}

/// The corners of the box of an entity, or of an empty box at the origin if
/// layout has given it none.
pub open spec fn spec_bounds(cache: Map<Entity, BoundingBox>, e: Entity) -> Rect {
    if cache.contains_key(e) {
        Rect {
            x0: cache[e].x as i64,
            y0: cache[e].y as i64,
            x1: (cache[e].x + cache[e].w) as i64,
            y1: (cache[e].y + cache[e].h) as i64,
        }
    } else {
        Rect { x0: 0, y0: 0, x1: 0, y1: 0 }
    }
}

/// The data of the node of an entity as the style and the box of the entity
/// give it, before the view of the entity has its say.
pub open spec fn spec_base_node(style: &Style, cache: Map<Entity, BoundingBox>, e: Entity) -> NodeData {
    let p = style.properties_of(e);
    let has = style.data@.contains_key(e);
    let d = style.data@[e];
    NodeData {
        role: if p.role is Some { p.role.unwrap() } else { Role::Unknown },
        bounds: Some(spec_bounds(cache, e)),
        disabled: p.disabled == Some(true),
        hidden: p.hidden == Some(true),
        focusable: has && d.abilities.has(Ability::Navigable),
        name: if has { d.name } else { None },
        value: if has { d.text_value } else { None },
        numeric_value: if has { d.numeric_value } else { None },
        min_numeric_value: if has { d.min_numeric_value } else { None },
        max_numeric_value: if has { d.max_numeric_value } else { None },
        numeric_value_step: if has { d.numeric_value_step } else { None },
        live: p.live,
        labelled_by: if has && d.labelled_by is Some {
            Some(d.labelled_by.unwrap().accesskit_id())
        } else {
            None
        },
        toggled: if has && d.abilities.has(Ability::Checkable) {
            Some(d.pseudo_classes.has(PseudoClass::Checked))
        } else {
            None
        },
    }
}

/// A copy of a text that may be missing.
fn clone_text(text: &Option<String>) -> (r: Option<String>)
    ensures
        r == *text,
{
    match text {
        Some(s) => Some(s.clone()),
        None => None,
    }
}

/// The data of the node of an entity as the style and the box of the entity
/// give it.
pub fn base_node(style: &Style, cache: &SparseSet<BoundingBox>, e: Entity) -> (n: NodeData)
    requires
        style.wf(),
        cache.wf(),
    ensures
        n == spec_base_node(style, cache@, e),
{
    let p = style.properties(e);
    let bounds = match cache.get(e) {
        Some(b) => Rect {
            x0: b.x as i64,
            y0: b.y as i64,
            x1: b.x as i64 + b.w as i64,
            y1: b.y as i64 + b.h as i64,
        },
        None => Rect { x0: 0, y0: 0, x1: 0, y1: 0 },
    };
    let mut n = NodeData::new();
    n.role = match p.role {
        Some(r) => r,
        None => Role::Unknown,
    };
    n.bounds = Some(bounds);
    n.disabled = match p.disabled {
        Some(b) => b,
        None => false,
    };
    n.hidden = match p.hidden {
        Some(b) => b,
        None => false,
    };
    n.live = p.live;
    match style.data.get(e) {
        Some(d) => {
            n.focusable = d.abilities.contains(Ability::Navigable);
            n.name = clone_text(&d.name);
            n.value = clone_text(&d.text_value);
            n.numeric_value = d.numeric_value;
            n.min_numeric_value = d.min_numeric_value;
            n.max_numeric_value = d.max_numeric_value;
            n.numeric_value_step = d.numeric_value_step;
            n.labelled_by = match d.labelled_by {
                Some(l) => Some(l.accesskit_id()),
                None => None,
            };
            if d.abilities.contains(Ability::Checkable) {
                n.toggled = Some(d.pseudo_classes.contains(PseudoClass::Checked));
            }
        },
        None => {},
    }
    n
}

/// Whether a node that a view added goes out: it does unless its identifier
/// is that of an entity of the tree, whose node it would overwrite.
pub open spec fn extra_is_kept(tree: &Tree, id: u64) -> bool {
    !is_tree_id(tree, id)
}

/// The nodes that go out for the entity `x`, in `g`: first the node of the
/// entity, then the nodes that its view added. The children of the node of
/// the entity are the added nodes and then the children of the entity in the
/// tree; the added nodes have no children, and none of them has the
/// identifier of an entity of the tree.
pub open spec fn is_group(tree: &Tree, x: Entity, g: Seq<NodeEntry>) -> bool {
    &&& g.len() >= 1
    &&& g[0].id == x.accesskit_id()
    &&& g[0].children@ == Seq::new((g.len() - 1) as nat, |t: int| g[t + 1].id) + ids_of(
        tree.children_of(x),
    )
    &&& forall|t: int|
        1 <= t < g.len() ==> (#[trigger] g[t]).children@.len() == 0 && extra_is_kept(tree, g[t].id)
}

/// The added nodes of `extras` that go out, in their order.
pub open spec fn kept_extras(tree: &Tree, extras: Seq<ExtraNode>) -> Seq<ExtraNode>
    decreases extras.len(),
{
    if extras.len() == 0 {
        Seq::empty()
    } else if extra_is_kept(tree, extras.last().node_id) {
        kept_extras(tree, extras.drop_last()).push(extras.last())
    } else {
        kept_extras(tree, extras.drop_last())
    }
}

/// Turns the node of an entity, as its view has left it, into the nodes that
/// go out: the node of the entity with the given data, then those of the
/// added nodes that are kept, each with its data.
pub fn node_entries(tree: &Tree, x: Entity, node: AccessNode) -> (g: Vec<NodeEntry>)
    requires
        tree.wf(),
    ensures
        is_group(tree, x, g@),
        g@[0].data == node.node_builder,
        g@.len() == 1 + kept_extras(tree, node.children@).len(),
        forall|t: int|
            0 <= t < kept_extras(tree, node.children@).len() ==> (#[trigger] g@[t + 1]).id
                == kept_extras(tree, node.children@)[t].node_id && g@[t + 1].data == kept_extras(
                tree,
                node.children@,
            )[t].data,
{
    let AccessNode { node_id: _, node_builder, children: extras } = node;
    let mut child_ids: Vec<u64> = Vec::new();
    let mut kept: Vec<NodeEntry> = Vec::new();
    let ghost all = extras@;
    let mut extras = extras;
    // The added nodes are taken from the back, so they are collected in
    // reverse and put in order afterwards.
    let mut reversed: Vec<ExtraNode> = Vec::new();
    while extras.len() > 0
        invariant
            extras@.len() <= all.len(),
            extras@ == all.take(extras@.len() as int),
            reversed@.len() == all.len() - extras@.len(),
            forall|k: int|
                0 <= k < reversed@.len() ==> reversed@[k] == all[all.len() - 1 - k],
        decreases extras.len(),
    {
        let last = extras.pop().unwrap();
        reversed.push(last);
        proof {
            assert(extras@ =~= all.take(extras@.len() as int));
        }
    }
    while reversed.len() > 0
        invariant
            tree.wf(),
            reversed@.len() <= all.len(),
            forall|k: int|
                0 <= k < reversed@.len() ==> reversed@[k] == all[all.len() - 1 - k],
            kept@.len() == child_ids@.len(),
            kept@.len() == kept_extras(tree, all.take(all.len() - reversed@.len())).len(),
            forall|t: int|
                0 <= t < kept@.len() ==> (#[trigger] kept@[t]).id == kept_extras(
                    tree,
                    all.take(all.len() - reversed@.len()),
                )[t].node_id && kept@[t].data == kept_extras(
                    tree,
                    all.take(all.len() - reversed@.len()),
                )[t].data && kept@[t].children@.len() == 0 && extra_is_kept(tree, kept@[t].id)
                    && child_ids@[t] == kept@[t].id,
        decreases reversed.len(),
    {
        let ghost done = all.len() - reversed@.len();
        let extra = reversed.pop().unwrap();
        proof {
            assert(extra == all[done]);
            let next = all.take(done + 1);
            assert(next.drop_last() =~= all.take(done));
            assert(next.last() == extra);
        }
        if !tree_has_id(tree, extra.node_id) {
            child_ids.push(extra.node_id);
            kept.push(NodeEntry { id: extra.node_id, data: extra.data, children: Vec::new() });
        }
    }
    proof {
        assert(all.take(all.len() as int) =~= all);
    }
    let ghost extra_count = child_ids@.len();
    let n = tree.get_num_children(x);
    let mut k: usize = 0;
    while k < n
        invariant
            tree.wf(),
            n == tree.children_of(x).len(),
            k <= n,
            child_ids@.len() == extra_count + k,
            forall|t: int| 0 <= t < extra_count ==> child_ids@[t] == kept@[t].id,
            forall|t: int|
                0 <= t < k ==> child_ids@[extra_count + t] == tree.children_of(x)[t].accesskit_id(),
        decreases n - k,
    {
        let c = tree.get_child(x, k).unwrap();
        child_ids.push(c.accesskit_id());
        k += 1;
    }
    let mut g: Vec<NodeEntry> = Vec::new();
    let ghost ids = child_ids@;
    g.push(NodeEntry { id: x.accesskit_id(), data: node_builder, children: child_ids });
    let ghost tail = kept@;
    g.append(&mut kept);
    proof {
        assert(g@ =~= seq![g@[0]] + tail);
        assert forall|t: int| 1 <= t < g@.len() implies (#[trigger] g@[t]).children@.len() == 0
            && extra_is_kept(tree, g@[t].id) by {
            assert(g@[t] == tail[t - 1]);
        }
        assert(g@[0].children@ =~= Seq::new((g@.len() - 1) as nat, |t: int| g@[t + 1].id) + ids_of(
            tree.children_of(x),
        )) by {
            assert forall|t: int| 0 <= t < ids.len() implies ids[t] == (Seq::new(
                (g@.len() - 1) as nat,
                |t: int| g@[t + 1].id,
            ) + ids_of(tree.children_of(x)))[t] by {
                if t < extra_count {
                    assert(g@[t + 1] == tail[t]);
                }
            }
        }
        assert forall|t: int| 0 <= t < kept_extras(tree, node.children@).len() implies (
        #[trigger] g@[t + 1]).id == kept_extras(tree, node.children@)[t].node_id && g@[t + 1].data
            == kept_extras(tree, node.children@)[t].data by {
            assert(g@[t + 1] == tail[t]);
        }
    }
    g
}

/// Whether the entity has a view that can be asked: it has one, and the
/// view is not away.
pub open spec fn has_view_at_hand<V, M, E, G>(cx: &Context<V, M, E, G>, x: Entity) -> bool {
    cx.views@.contains_key(x) && cx.views@[x].view is Some
}

/// The nodes that go out for the entity `x`, in `g`, as the context stands:
/// they are a group, and if the entity has no view that can be asked, the
/// group is the node of the entity alone, with the data that the style and
/// the box of the entity give it.
pub open spec fn is_group_of<V, M, E, G>(cx: &Context<V, M, E, G>, x: Entity, g: Seq<NodeEntry>) -> bool {
    &&& is_group(&cx.tree, x, g)
    &&& !has_view_at_hand(cx, x) ==> g.len() == 1 && g[0].data == spec_base_node(
        &cx.style,
        cx.cache@,
        x,
    )
}

/// `nodes` holds the groups of the entities of `entities`, one after the
/// other.
pub open spec fn is_groups<V, M, E, G>(
    cx: &Context<V, M, E, G>,
    entities: Seq<Entity>,
    nodes: Seq<NodeEntry>,
) -> bool
    decreases entities.len(),
{
    if entities.len() == 0 {
        nodes.len() == 0
    } else {
        exists|k: int|
            1 <= k <= nodes.len() && #[trigger] is_group_of(
                cx,
                entities.last(),
                nodes.skip(nodes.len() - k),
            ) && is_groups(cx, entities.drop_last(), nodes.take(nodes.len() - k))
    }
}

/// Makes the node of an entity: the data that the style and the box of the
/// entity give, changed and added to by the view of the entity if it has one
/// that can be asked.
pub fn get_access_node<V: ViewHandler, M, E, G>(cx: &Context<V, M, E, G>, entity: Entity) -> (node:
    AccessNode)
    requires
        cx.wf(),
    ensures
        node.node_id == entity.accesskit_id(),
        !has_view_at_hand(cx, entity) ==> node.children@.len() == 0 && node.node_builder
            == spec_base_node(&cx.style, cx.cache@, entity),
{
    let mut node = AccessNode {
        node_id: entity.accesskit_id(),
        node_builder: base_node(&cx.style, &cx.cache, entity),
        children: Vec::new(),
    };
    match cx.views.get(entity) {
        Some(slot) => match &slot.view {
            Some(view) => {
                let access = AccessContext {
                    current: entity,
                    tree: &cx.tree,
                    cache: &cx.cache,
                    style: &cx.style,
                };
                view.accessibility(&access, &mut node);
                node.node_id = entity.accesskit_id();
            },
            None => {},
        },
        None => {},
    }
    node
}

/// The identifier that a batch gives for the focus: that of the entity that
/// has the focus, or zero if the window does not have it.
pub open spec fn focus_id<V, M, E, G>(cx: &Context<V, M, E, G>) -> u64 {
    if cx.window_has_focus {
        cx.focused.accesskit_id()
    } else {
        0
    }
}

/// Builds the accessibility tree: one batch with the nodes of all entities
/// in the order of layout, each followed by the nodes that its view added.
/// The batch names the node of the root as the root of the tree, and gives
/// the focus as it stands.
pub fn initial_accessibility_system<V: ViewHandler, M, E, G>(cx: &Context<V, M, E, G>) -> (update:
    TreeUpdate)
    requires
        cx.wf(),
    ensures
        update.tree == Some(TreeInfo { root: Entity::root().accesskit_id() }),
        update.focus == focus_id(cx),
        is_groups(cx, cx.tree.layout_order(), update.nodes@),
{
    let order = cx.tree.layout_iter();
    let mut nodes: Vec<NodeEntry> = Vec::new();
    let mut i: usize = 0;
    proof {
        assert(order@.take(0) =~= Seq::<Entity>::empty());
    }
    while i < order.len()
        invariant
            cx.wf(),
            i <= order.len(),
            order@ == cx.tree.layout_order(),
            is_groups(cx, order@.take(i as int), nodes@),
        decreases order.len() - i,
    {
        let x = order[i];
        let node = get_access_node(cx, x);
        let mut g = node_entries(&cx.tree, x, node);
        let ghost before = nodes@;
        let ghost group = g@;
        proof {
            if !has_view_at_hand(cx, x) {
                assert(kept_extras(&cx.tree, node.children@) =~= Seq::<ExtraNode>::empty());
            }
        }
        nodes.append(&mut g);
        proof {
            let next = order@.take(i + 1);
            assert(next.drop_last() =~= order@.take(i as int));
            assert(next.last() == x);
            let k = group.len() as int;
            assert(nodes@.skip(nodes@.len() - k) =~= group);
            assert(nodes@.take(nodes@.len() - k) =~= before);
            assert(is_group_of(cx, next.last(), nodes@.skip(nodes@.len() - k)));
        }
        i += 1;
    }
    proof {
        assert(order@.take(i as int) =~= order@);
    }
    let focus = if cx.window_has_focus {
        cx.focused.accesskit_id()
    } else {
        0
    };
    TreeUpdate { nodes, tree: Some(TreeInfo { root: Entity::root().accesskit_id() }), focus }
}

/// Whether the entity can be reached by keyboard navigation.
pub open spec fn is_navigable<V, M, E, G>(cx: &Context<V, M, E, G>, x: Entity) -> bool {
    cx.style.data@.contains_key(x) && cx.style.data@[x].abilities.has(Ability::Navigable)
}

/// Whether a node with this role says nothing to assistive technology: its
/// role is unknown and its entity cannot be navigated to.
pub open spec fn is_silent<V, M, E, G>(cx: &Context<V, M, E, G>, x: Entity, role: Role) -> bool {
    role == Role::Unknown && !is_navigable(cx, x)
}

/// `b` is the batch that an update sends for the marked entity `x`: the
/// group of the entity, no word on the tree as a whole, the focus as it
/// stands, and a node that is not silent.
pub open spec fn is_batch_of<V, M, E, G>(cx: &Context<V, M, E, G>, x: Entity, b: &TreeUpdate) -> bool {
    &&& b.tree is None
    &&& b.focus == focus_id(cx)
    &&& is_group_of(cx, x, b.nodes@)
    &&& !is_silent(cx, x, b.nodes@[0].data.role)
}

/// The batch that an update sends for the entity `x`, whose node a view has
/// left as `node`: none if the node is silent, and else the group of the
/// entity, with the data of the node and the added nodes that are kept, no
/// word on the tree as a whole, and the focus as it stands.
pub fn update_for<V, M, E, G>(cx: &Context<V, M, E, G>, x: Entity, node: AccessNode) -> (r: Option<
    TreeUpdate,
>)
    requires
        cx.wf(),
    ensures
        r is None <==> is_silent(cx, x, node.node_builder.role),
        r matches Some(b) ==> {
            &&& b.tree is None
            &&& b.focus == focus_id(cx)
            &&& is_group(&cx.tree, x, b.nodes@)
            &&& b.nodes@[0].data == node.node_builder
            &&& b.nodes@.len() == 1 + kept_extras(&cx.tree, node.children@).len()
            &&& forall|t: int|
                0 <= t < kept_extras(&cx.tree, node.children@).len() ==> (
                #[trigger] b.nodes@[t + 1]).id == kept_extras(&cx.tree, node.children@)[t].node_id
                    && b.nodes@[t + 1].data == kept_extras(&cx.tree, node.children@)[t].data
        },
{
    let navigable = match cx.style.data.get(x) {
        Some(d) => d.abilities.contains(Ability::Navigable),
        None => false,
    };
    if node.node_builder.role == Role::Unknown && !navigable {
        return None;
    }
    let nodes = node_entries(&cx.tree, x, node);
    let focus = if cx.window_has_focus {
        cx.focused.accesskit_id()
    } else {
        0
    };
    Some(TreeUpdate { nodes, tree: None, focus })
}

/// Whether an update may pass over the entity: the entity is not marked, or
/// its node is silent, which is known of an entity without a view at hand
/// and open for one whose view has a say.
pub open spec fn may_pass_over<V, M, E, G>(cx: &Context<V, M, E, G>, x: Entity) -> bool {
    ||| !cx.style.reaccess@.contains_key(x)
    ||| has_view_at_hand(cx, x)
    ||| is_silent(cx, x, spec_base_node(&cx.style, cx.cache@, x).role)
}

/// `batches` are the batches that an update sends for the entities of
/// `entities`: for each entity in turn one batch or none, one only if the
/// entity is marked, and none only if the update may pass over the entity.
pub open spec fn is_batches<V, M, E, G>(
    cx: &Context<V, M, E, G>,
    entities: Seq<Entity>,
    batches: Seq<TreeUpdate>,
) -> bool
    decreases entities.len(),
{
    if entities.len() == 0 {
        batches.len() == 0
    } else {
        ||| may_pass_over(cx, entities.last()) && is_batches(cx, entities.drop_last(), batches)
        ||| batches.len() > 0 && cx.style.reaccess@.contains_key(entities.last()) && is_batch_of(
            cx,
            entities.last(),
            &batches.last(),
        ) && is_batches(cx, entities.drop_last(), batches.drop_last())
    }
}

/// Where no entity is marked, an update sends nothing.
proof fn lemma_nothing_marked<V, M, E, G>(cx: &Context<V, M, E, G>, entities: Seq<Entity>)
    requires
        cx.style.reaccess@ == Map::<Entity, ()>::empty(),
    ensures
        is_batches(cx, entities, Seq::<TreeUpdate>::empty()),
    decreases entities.len(),
{
    if entities.len() > 0 {
        lemma_nothing_marked(cx, entities.drop_last());
        assert(may_pass_over(cx, entities.last()));
    }
}

/// Sends a batch for each marked entity whose node is not silent, in the
/// order of layout, and clears the marks. The node of each marked entity is
/// made by `get_access_node`, and `update_for` says what is sent for it. The
/// batches are added to those that wait to be sent; nothing else changes.
/// Where no entity is marked, the tree is not walked.
pub fn accessibility_system<V: ViewHandler, M, E, G>(cx: &mut Context<V, M, E, G>)
    requires
        old(cx).wf(),
    ensures
        final(cx).wf(),
        final(cx).style.reaccess@ == Map::<Entity, ()>::empty(),
        final(cx).style.data == old(cx).style.data,
        final(cx).style.computed == old(cx).style.computed,
        final(cx).style.rules == old(cx).style.rules,
        final(cx).style.default_font == old(cx).style.default_font,
        final(cx).style.needs_restyle == old(cx).style.needs_restyle,
        final(cx).style.needs_relayout == old(cx).style.needs_relayout,
        final(cx).style.needs_redraw == old(cx).style.needs_redraw,
        *final(cx) == (Context {
            style: final(cx).style,
            tree_updates: final(cx).tree_updates,
            ..*old(cx)
        }),
        final(cx).tree_updates@.len() >= old(cx).tree_updates@.len(),
        final(cx).tree_updates@.take(old(cx).tree_updates@.len() as int) == old(cx).tree_updates@,
        is_batches(
            old(cx),
            old(cx).tree.layout_order(),
            final(cx).tree_updates@.skip(old(cx).tree_updates@.len() as int),
        ),
{
    if cx.style.reaccess.is_empty() {
        proof {
            lemma_nothing_marked(cx, cx.tree.layout_order());
            assert(cx.tree_updates@.skip(cx.tree_updates@.len() as int) =~= Seq::<
                TreeUpdate,
            >::empty());
            assert(cx.tree_updates@.take(cx.tree_updates@.len() as int) =~= cx.tree_updates@);
        }
        return ;
    }
    let ghost pre = *cx;
    let ghost start = cx.tree_updates@.len() as int;
    let order = cx.tree.layout_iter();
    let mut i: usize = 0;
    proof {
        assert(order@.take(0) =~= Seq::<Entity>::empty());
        assert(cx.tree_updates@.skip(start) =~= Seq::<TreeUpdate>::empty());
        assert(cx.tree_updates@.take(start) =~= pre.tree_updates@);
    }
    while i < order.len()
        invariant
            pre == *old(cx),
            pre.wf(),
            cx.wf(),
            *cx == (Context { tree_updates: cx.tree_updates, ..pre }),
            start == pre.tree_updates@.len(),
            i <= order.len(),
            order@ == pre.tree.layout_order(),
            cx.tree_updates@.len() >= start,
            cx.tree_updates@.take(start) == pre.tree_updates@,
            is_batches(&pre, order@.take(i as int), cx.tree_updates@.skip(start)),
        decreases order.len() - i,
    {
        let x = order[i];
        let ghost batches = cx.tree_updates@.skip(start);
        proof {
            let next = order@.take(i + 1);
            assert(next.drop_last() =~= order@.take(i as int));
            assert(next.last() == x);
        }
        if cx.style.reaccess.contains(x) {
            let node = get_access_node(cx, x);
            proof {
                if !has_view_at_hand(&pre, x) {
                    assert(kept_extras(&cx.tree, node.children@) =~= Seq::<ExtraNode>::empty());
                }
            }
            match update_for(cx, x, node) {
                Some(update) => {
                    proof {
                        assert(is_batch_of(&pre, x, &update));
                    }
                    cx.tree_updates.push(update);
                    proof {
                        let now = cx.tree_updates@.skip(start);
                        assert(now.drop_last() =~= batches);
                        assert(now.last() == update);
                        assert(cx.tree_updates@.take(start) =~= pre.tree_updates@);
                    }
                },
                None => {
                    proof {
                        assert(may_pass_over(&pre, x));
                    }
                },
            }
        } else {
            proof {
                assert(may_pass_over(&pre, x));
            }
        }
        i += 1;
    }
    proof {
        assert(order@.take(i as int) =~= order@);
    }
    cx.style.reaccess.clear();
}

/// The identifiers, in order, of the nodes of `nodes` that are nodes of
/// entities of the tree.
pub open spec fn tree_ids(tree: &Tree, nodes: Seq<NodeEntry>) -> Seq<u64>
    decreases nodes.len(),
{
    if nodes.len() == 0 {
        Seq::empty()
    } else if is_tree_id(tree, nodes.last().id) {
        tree_ids(tree, nodes.drop_last()).push(nodes.last().id)
    } else {
        tree_ids(tree, nodes.drop_last())
    }
}

/// The identifiers of entities among the nodes of two sequences laid end to
/// end are those of the first followed by those of the second.
proof fn lemma_tree_ids_concat(tree: &Tree, a: Seq<NodeEntry>, b: Seq<NodeEntry>)
    ensures
        tree_ids(tree, a + b) == tree_ids(tree, a) + tree_ids(tree, b),
    decreases b.len(),
{
    if b.len() == 0 {
        assert(a + b =~= a);
        assert(tree_ids(tree, a) + tree_ids(tree, b) =~= tree_ids(tree, a));
    } else {
        lemma_tree_ids_concat(tree, a, b.drop_last());
        assert((a + b).drop_last() =~= a + b.drop_last());
        assert((a + b).last() == b.last());
        assert(tree_ids(tree, a + b) =~= tree_ids(tree, a) + tree_ids(tree, b));
    }
}

/// Nodes of which none carries the identifier of an entity of the tree
/// contribute nothing.
proof fn lemma_tree_ids_none(tree: &Tree, g: Seq<NodeEntry>)
    requires
        forall|t: int| 0 <= t < g.len() ==> !is_tree_id(tree, (#[trigger] g[t]).id),
    ensures
        tree_ids(tree, g) == Seq::<u64>::empty(),
    decreases g.len(),
{
    if g.len() > 0 {
        assert(!is_tree_id(tree, g[g.len() - 1].id));
        lemma_tree_ids_none(tree, g.drop_last());
    }
}

/// Of the nodes of the group of an entity of the tree, the first alone
/// carries the identifier of an entity of the tree.
proof fn lemma_tree_ids_group(tree: &Tree, x: Entity, g: Seq<NodeEntry>)
    requires
        is_group(tree, x, g),
        tree.contains(x),
    ensures
        tree_ids(tree, g) == seq![x.accesskit_id()],
{
    let head = seq![g[0]];
    let tail = g.skip(1);
    assert(g =~= head + tail);
    lemma_tree_ids_concat(tree, head, tail);
    assert forall|t: int| 0 <= t < tail.len() implies !is_tree_id(tree, (#[trigger] tail[t]).id) by {
        assert(tail[t] == g[t + 1]);
    }
    lemma_tree_ids_none(tree, tail);
    assert(is_tree_id(tree, g[0].id));
    assert(head.drop_last() =~= Seq::<NodeEntry>::empty());
    assert(tree_ids(tree, Seq::<NodeEntry>::empty()) =~= Seq::<u64>::empty());
    assert(head.last() == g[0]);
    assert(tree_ids(tree, head) == tree_ids(tree, head.drop_last()).push(head.last().id));
    assert(tree_ids(tree, head) =~= seq![x.accesskit_id()]);
    assert(tree_ids(tree, g) =~= seq![x.accesskit_id()]);
}

/// One node for each entity. In the batch that builds the tree, the nodes
/// that carry the identifier of an entity of the tree are the nodes of the
/// entities in the order of layout, one for each.
pub proof fn lemma_groups_tree_ids<V, M, E, G>(
    cx: &Context<V, M, E, G>,
    entities: Seq<Entity>,
    nodes: Seq<NodeEntry>,
)
    requires
        is_groups(cx, entities, nodes),
        forall|i: int| 0 <= i < entities.len() ==> cx.tree.contains(#[trigger] entities[i]),
    ensures
        tree_ids(&cx.tree, nodes) == ids_of(entities),
    decreases entities.len(),
{
    if entities.len() == 0 {
        assert(ids_of(entities) =~= Seq::<u64>::empty());
    } else {
        let x = entities.last();
        let k = choose|k: int|
            1 <= k <= nodes.len() && #[trigger] is_group_of(cx, x, nodes.skip(nodes.len() - k))
                && is_groups(cx, entities.drop_last(), nodes.take(nodes.len() - k));
        let g = nodes.skip(nodes.len() - k);
        let front = nodes.take(nodes.len() - k);
        assert forall|i: int| 0 <= i < entities.drop_last().len() implies cx.tree.contains(
            #[trigger] entities.drop_last()[i],
        ) by {
            assert(entities.drop_last()[i] == entities[i]);
        }
        lemma_groups_tree_ids(cx, entities.drop_last(), front);
        assert(nodes =~= front + g);
        lemma_tree_ids_concat(&cx.tree, front, g);
        assert(cx.tree.contains(entities[entities.len() - 1]));
        assert(is_group(&cx.tree, x, g));
        lemma_tree_ids_group(&cx.tree, x, g);
        assert(ids_of(entities) =~= ids_of(entities.drop_last()).push(x.accesskit_id()));
    }
}

/// No node is told of an entity that was not marked. Whatever the views add,
/// no node of a batch of an update carries the identifier of an entity of
/// the tree that was not marked.
pub proof fn lemma_batches_untouched<V, M, E, G>(
    cx: &Context<V, M, E, G>,
    entities: Seq<Entity>,
    batches: Seq<TreeUpdate>,
    u: Entity,
)
    requires
        is_batches(cx, entities, batches),
        cx.tree.contains(u),
        !cx.style.reaccess@.contains_key(u),
    ensures
        forall|b: int, n: int|
            0 <= b < batches.len() && 0 <= n < batches[b].nodes@.len() ==> (
            #[trigger] batches[b].nodes@[n]).id != u.accesskit_id(),
    decreases entities.len(),
{
    if entities.len() > 0 {
        let x = entities.last();
        if may_pass_over(cx, x) && is_batches(cx, entities.drop_last(), batches) {
            lemma_batches_untouched(cx, entities.drop_last(), batches, u);
        } else {
            lemma_batches_untouched(cx, entities.drop_last(), batches.drop_last(), u);
            let last = batches.last();
            assert forall|b: int, n: int|
                0 <= b < batches.len() && 0 <= n < batches[b].nodes@.len() implies (
            #[trigger] batches[b].nodes@[n]).id != u.accesskit_id() by {
                if b < batches.len() - 1 {
                    assert(batches[b] == batches.drop_last()[b]);
                } else {
                    if n == 0 {
                        if last.nodes@[0].id == u.accesskit_id() {
                            lemma_accesskit_id_injective(x, u);
                        }
                    } else {
                        assert(extra_is_kept(&cx.tree, last.nodes@[n].id));
                    }
                }
            }
        }
    }
}

/// Whether one of the nodes has the identifier.
pub open spec fn has_node(nodes: Seq<NodeEntry>, id: u64) -> bool {
    exists|m: int| 0 <= m < nodes.len() && (#[trigger] nodes[m]).id == id
}

/// Whether the identifier is that of a child of one of the entities.
pub open spec fn is_child_id(tree: &Tree, entities: Seq<Entity>, id: u64) -> bool {
    exists|i: int, t: int|
        0 <= i < entities.len() && 0 <= t < tree.children_of(entities[i]).len()
            && #[trigger] tree.children_of(entities[i])[t].accesskit_id() == id
}

/// In a sequence of groups every entity has a node, and every identifier
/// that a node names as a child is that of a node of the sequence or of a
/// child of one of the entities.
proof fn lemma_groups_members<V, M, E, G>(
    cx: &Context<V, M, E, G>,
    entities: Seq<Entity>,
    nodes: Seq<NodeEntry>,
)
    requires
        is_groups(cx, entities, nodes),
    ensures
        forall|i: int|
            0 <= i < entities.len() ==> has_node(nodes, (#[trigger] entities[i]).accesskit_id()),
        forall|j: int, c: int|
            0 <= j < nodes.len() && 0 <= c < nodes[j].children@.len() ==> has_node(
                nodes,
                #[trigger] nodes[j].children@[c],
            ) || is_child_id(&cx.tree, entities, nodes[j].children@[c]),
    decreases entities.len(),
{
    if entities.len() > 0 {
        let x = entities.last();
        let k = choose|k: int|
            1 <= k <= nodes.len() && #[trigger] is_group_of(cx, x, nodes.skip(nodes.len() - k))
                && is_groups(cx, entities.drop_last(), nodes.take(nodes.len() - k));
        let cut = nodes.len() - k;
        let g = nodes.skip(cut);
        let front = nodes.take(cut);
        let before = entities.drop_last();
        lemma_groups_members(cx, before, front);
        assert forall|id: u64| has_node(front, id) implies has_node(nodes, id) by {
            let m = choose|m: int| 0 <= m < front.len() && (#[trigger] front[m]).id == id;
            assert(nodes[m] == front[m]);
        }
        assert forall|id: u64| is_child_id(&cx.tree, before, id) implies is_child_id(
            &cx.tree,
            entities,
            id,
        ) by {
            let (i, t) = choose|i: int, t: int|
                0 <= i < before.len() && 0 <= t < cx.tree.children_of(before[i]).len()
                    && #[trigger] cx.tree.children_of(before[i])[t].accesskit_id() == id;
            assert(entities[i] == before[i]);
            assert(cx.tree.children_of(entities[i])[t].accesskit_id() == id);
        }
        assert forall|i: int| 0 <= i < entities.len() implies has_node(
            nodes,
            (#[trigger] entities[i]).accesskit_id(),
        ) by {
            if i < entities.len() - 1 {
                assert(before[i] == entities[i]);
                assert(has_node(front, before[i].accesskit_id()));
            } else {
                assert(nodes[cut] == g[0]);
            }
        }
        assert forall|j: int, c: int|
            0 <= j < nodes.len() && 0 <= c < nodes[j].children@.len() implies has_node(
            nodes,
            #[trigger] nodes[j].children@[c],
        ) || is_child_id(&cx.tree, entities, nodes[j].children@[c]) by {
            let id = nodes[j].children@[c];
            if j < cut {
                assert(nodes[j] == front[j]);
                assert(has_node(front, front[j].children@[c]) || is_child_id(
                    &cx.tree,
                    before,
                    front[j].children@[c],
                ));
            } else {
                assert(nodes[j] == g[j - cut]);
                if j == cut {
                    let extras = Seq::new((g.len() - 1) as nat, |t: int| g[t + 1].id);
                    let kids = ids_of(cx.tree.children_of(x));
                    assert(g[0].children@ == extras + kids);
                    if c < extras.len() {
                        assert(id == g[c + 1].id);
                        assert(nodes[cut + c + 1] == g[c + 1]);
                    } else {
                        let t = c - extras.len();
                        assert(id == kids[t]);
                        assert(entities[entities.len() - 1] == x);
                        assert(cx.tree.children_of(entities[entities.len() - 1])[t].accesskit_id()
                            == id);
                    }
                }
            }
        }
    }
}

/// No child without a node. In the batch that builds the tree, every
/// identifier that a node names as a child is the identifier of a node of
/// the batch.
pub proof fn lemma_groups_closed<V, M, E, G>(cx: &Context<V, M, E, G>, nodes: Seq<NodeEntry>)
    requires
        cx.tree.structure(),
        is_groups(cx, cx.tree.layout_order(), nodes),
    ensures
        forall|j: int, c: int|
            0 <= j < nodes.len() && 0 <= c < nodes[j].children@.len() ==> has_node(
                nodes,
                #[trigger] nodes[j].children@[c],
            ),
{
    let order = cx.tree.layout_order();
    lemma_groups_members(cx, order, nodes);
    crate::tree_lemmas::lemma_layout_order(cx.tree);
    assert forall|j: int, c: int|
        0 <= j < nodes.len() && 0 <= c < nodes[j].children@.len() implies has_node(
        nodes,
        #[trigger] nodes[j].children@[c],
    ) by {
        let id = nodes[j].children@[c];
        if is_child_id(&cx.tree, order, id) {
            let (i, t) = choose|i: int, t: int|
                0 <= i < order.len() && 0 <= t < cx.tree.children_of(order[i]).len()
                    && #[trigger] cx.tree.children_of(order[i])[t].accesskit_id() == id;
            let child = cx.tree.children_of(order[i])[t];
            assert(cx.tree.contains(child));
            assert(order.contains(child));
            let m = choose|m: int| 0 <= m < order.len() && order[m] == child;
            assert(has_node(nodes, order[m].accesskit_id()));
        }
    }
}

/// What the batch that builds the tree holds, whatever the views add. The
/// nodes that carry the identifier of an entity of the tree are the nodes of
/// the entities of the tree in the order of layout, one for each entity and
/// no two for the same; and every identifier that a node names as a child is
/// the identifier of a node of the batch.
pub proof fn lemma_initial_build<V, M, E, G>(cx: &Context<V, M, E, G>, nodes: Seq<NodeEntry>)
    requires
        cx.tree.structure(),
        is_groups(cx, cx.tree.layout_order(), nodes),
    ensures
        tree_ids(&cx.tree, nodes) == ids_of(cx.tree.layout_order()),
        cx.tree.layout_order().no_duplicates(),
        ids_of(cx.tree.layout_order()).no_duplicates(),
        forall|x: Entity| #[trigger] cx.tree.layout_order().contains(x) <==> cx.tree.contains(x),
        forall|j: int, c: int|
            0 <= j < nodes.len() && 0 <= c < nodes[j].children@.len() ==> has_node(
                nodes,
                #[trigger] nodes[j].children@[c],
            ),
{
    let order = cx.tree.layout_order();
    crate::tree_lemmas::lemma_layout_order(cx.tree);
    assert forall|i: int| 0 <= i < order.len() implies cx.tree.contains(#[trigger] order[i]) by {
        assert(order.contains(order[i]));
    }
    lemma_groups_tree_ids(cx, order, nodes);
    lemma_groups_closed(cx, nodes);
    assert forall|i: int, j: int| 0 <= i < order.len() && 0 <= j < order.len() && i
        != j implies ids_of(order)[i] != ids_of(order)[j] by {
        if ids_of(order)[i] == ids_of(order)[j] {
            lemma_accesskit_id_injective(order[i], order[j]);
        }
    }
}

} // verus!
