use vizia_core::access::{AccessNode, ExtraNode, NodeData, NodeEntry, Rect, TreeInfo};
use vizia_core::accessibility::{
    accessibility_system, base_node, get_access_node, initial_accessibility_system, node_entries,
    tree_has_id, update_for, AccessContext, ViewHandler,
};
use vizia_core::context::{BoundingBox, Context};
use vizia_core::entity::Entity;
use vizia_core::flags::{Ability, PseudoClass};
use vizia_core::style::{Live, Role};

/// A view that says what role its node has and adds nodes with the given
/// identifiers.
struct Composite {
    role: Option<Role>,
    parts: Vec<u64>,
}

impl ViewHandler for Composite {
    fn accessibility(&self, cx: &AccessContext, node: &mut AccessNode) {
        assert!(cx.tree.has(cx.current));
        if let Some(role) = self.role {
            node.node_builder.role = role;
        }
        for id in &self.parts {
            let mut data = NodeData::new();
            data.role = Role::Label;
            node.add_child(ExtraNode { node_id: *id, data });
        }
        // A view cannot give its node another identifier.
        node.node_id = 4242;
    }
}

type Cx = Context<Composite, u32, u32, &'static str>;

fn ids(nodes: &[NodeEntry]) -> Vec<u64> {
    nodes.iter().map(|n| n.id).collect()
}

fn entry(nodes: &[NodeEntry], e: Entity) -> &NodeEntry {
    nodes.iter().find(|n| n.id == e.accesskit_id()).unwrap()
}

#[test]
fn base_node_reads_style_and_box() {
    let mut cx = Cx::new();
    let a = cx.create(Entity::root(), 0).unwrap();
    let b = cx.create(Entity::root(), 1).unwrap();
    cx.cache.insert(a, BoundingBox { x: 10, y: -20, w: 30, h: 40 });
    {
        let d = cx.style.modify(a).unwrap();
        d.inline.role = Some(Role::CheckBox);
        d.inline.disabled = Some(true);
        d.inline.live = Some(Live::Polite);
        d.abilities.set(Ability::Navigable, true);
        d.abilities.set(Ability::Checkable, true);
        d.pseudo_classes.set(PseudoClass::Checked, true);
        d.name = Some(String::from("agree"));
        d.text_value = Some(String::from("yes"));
        d.numeric_value = Some(3);
        d.min_numeric_value = Some(0);
        d.max_numeric_value = Some(10);
        d.numeric_value_step = Some(1);
        d.labelled_by = Some(b);
    }
    let n = base_node(&cx.style, &cx.cache, a);
    assert_eq!(n.role, Role::CheckBox);
    assert_eq!(n.bounds, Some(Rect { x0: 10, y0: -20, x1: 40, y1: 20 }));
    assert!(n.disabled);
    assert!(!n.hidden);
    assert!(n.focusable);
    assert_eq!(n.name, Some(String::from("agree")));
    assert_eq!(n.value, Some(String::from("yes")));
    assert_eq!(n.numeric_value, Some(3));
    assert_eq!(n.min_numeric_value, Some(0));
    assert_eq!(n.max_numeric_value, Some(10));
    assert_eq!(n.numeric_value_step, Some(1));
    assert_eq!(n.live, Some(Live::Polite));
    assert_eq!(n.labelled_by, Some(b.accesskit_id()));
    assert_eq!(n.toggled, Some(true));

    let plain = base_node(&cx.style, &cx.cache, b);
    assert_eq!(plain.role, Role::Unknown);
    assert_eq!(plain.bounds, Some(Rect { x0: 0, y0: 0, x1: 0, y1: 0 }));
    assert!(!plain.disabled && !plain.hidden && !plain.focusable);
    assert_eq!(plain.toggled, None);
    assert_eq!(plain.labelled_by, None);
    assert_eq!(plain.value, None);
}

#[test]
fn bounds_do_not_overflow() {
    let mut cx = Cx::new();
    cx.cache.insert(Entity::root(), BoundingBox { x: i32::MAX, y: i32::MIN, w: i32::MAX, h: i32::MIN });
    let n = base_node(&cx.style, &cx.cache, Entity::root());
    assert_eq!(
        n.bounds,
        Some(Rect {
            x0: i32::MAX as i64,
            y0: i32::MIN as i64,
            x1: 2 * (i32::MAX as i64),
            y1: 2 * (i32::MIN as i64),
        })
    );
}

#[test]
fn unchecked_checkable_is_toggled_off() {
    let mut cx = Cx::new();
    cx.style.modify(Entity::root()).unwrap().abilities.set(Ability::Checkable, true);
    assert_eq!(base_node(&cx.style, &cx.cache, Entity::root()).toggled, Some(false));
}

#[test]
fn get_node_lists_the_children() {
    let mut cx = Cx::new();
    let a = cx.create(Entity::root(), 0).unwrap();
    let b = cx.create(Entity::root(), 1).unwrap();
    let n = cx.get_node(Entity::root());
    assert_eq!(n.id, 1);
    assert_eq!(n.children, vec![a.accesskit_id(), b.accesskit_id()]);
    assert_eq!(n.data.role, Role::Unknown);
    assert_eq!(cx.get_node(a).children, Vec::<u64>::new());
}

#[test]
fn tree_ids_are_recognised() {
    let mut cx = Cx::new();
    let a = cx.create(Entity::root(), 0).unwrap();
    assert!(tree_has_id(&cx.tree, 1));
    assert!(tree_has_id(&cx.tree, a.accesskit_id()));
    assert!(!tree_has_id(&cx.tree, 0));
    assert!(!tree_has_id(&cx.tree, 77));
    assert!(!tree_has_id(&cx.tree, Entity::new(a.index, 1).accesskit_id()));
}

#[test]
fn view_adds_nodes_but_cannot_rename_its_own() {
    let mut cx = Cx::new();
    let a = cx.create(Entity::root(), 0).unwrap();
    let child = cx.create(a, 0).unwrap();
    cx.add_view(a, 1, Composite { role: Some(Role::Slider), parts: vec![900, 901] });
    let node = get_access_node(&cx, a);
    assert_eq!(node.node_id(), a.accesskit_id());
    assert_eq!(node.node_builder.role, Role::Slider);
    assert_eq!(node.children.len(), 2);

    let group = node_entries(&cx.tree, a, node);
    assert_eq!(ids(&group), vec![a.accesskit_id(), 900, 901]);
    assert_eq!(group[0].children, vec![900, 901, child.accesskit_id()]);
    assert_eq!(group[0].data.role, Role::Slider);
    assert_eq!(group[1].data.role, Role::Label);
    assert!(group[1].children.is_empty() && group[2].children.is_empty());
}

#[test]
fn added_nodes_with_taken_identifiers_are_dropped() {
    let mut cx = Cx::new();
    let a = cx.create(Entity::root(), 0).unwrap();
    let b = cx.create(Entity::root(), 1).unwrap();
    cx.add_view(
        a,
        1,
        Composite { role: None, parts: vec![0, 900, b.accesskit_id(), a.accesskit_id(), 1, 901] },
    );
    let group = node_entries(&cx.tree, a, get_access_node(&cx, a));
    assert_eq!(ids(&group), vec![a.accesskit_id(), 0, 900, 901]);
    assert_eq!(group[0].children, vec![0, 900, 901]);
}

#[test]
fn added_node_with_identifier_zero_goes_out() {
    let mut cx = Cx::new();
    let a = cx.create(Entity::root(), 0).unwrap();
    let child = cx.create(a, 0).unwrap();
    cx.add_view(a, 1, Composite { role: None, parts: vec![0] });
    let group = node_entries(&cx.tree, a, get_access_node(&cx, a));
    assert_eq!(ids(&group), vec![a.accesskit_id(), 0]);
    assert_eq!(group[0].children, vec![0, child.accesskit_id()]);
    assert_eq!(group[1].data.role, Role::Label);
    assert!(group[1].children.is_empty());
}

#[test]
fn update_for_sends_nothing_for_a_silent_node() {
    let (cx, a, _a1, d) = sample();
    // The view of `a` has left the role unknown and `a` cannot be navigated
    // to: nothing is sent, whatever the view added.
    let mut node = get_access_node(&cx, a);
    node.node_builder.role = Role::Unknown;
    assert!(update_for(&cx, a, node).is_none());
    // An entity without a view, without a role, that cannot be navigated to.
    assert!(update_for(&cx, d, get_access_node(&cx, d)).is_none());
}

#[test]
fn update_for_sends_the_group_of_a_node_that_is_not_silent() {
    let (mut cx, a, a1, d) = sample();
    let update = update_for(&cx, a, get_access_node(&cx, a)).unwrap();
    assert_eq!(update.tree, None);
    assert_eq!(update.focus, 1);
    assert_eq!(ids(&update.nodes), vec![a.accesskit_id(), 900, 901]);
    assert_eq!(update.nodes[0].children, vec![900, 901, a1.accesskit_id()]);
    assert_eq!(update.nodes[0].data.role, Role::Slider);
    assert_eq!(update.nodes[1].data.role, Role::Label);
    // Unknown role, but the entity can be navigated to.
    cx.style.modify(d).unwrap().abilities.set(Ability::Navigable, true);
    cx.window_has_focus = false;
    let update = update_for(&cx, d, get_access_node(&cx, d)).unwrap();
    assert_eq!(ids(&update.nodes), vec![d.accesskit_id()]);
    assert_eq!(update.nodes[0].data.role, Role::Unknown);
    assert_eq!(update.focus, 0);
}

#[test]
fn view_that_is_away_is_not_asked() {
    let mut cx = Cx::new();
    cx.add_view(Entity::root(), 1, Composite { role: Some(Role::Window), parts: vec![900] });
    let _away = cx.take_view(Entity::root());
    let node = get_access_node(&cx, Entity::root());
    assert_eq!(node.node_builder.role, Role::Unknown);
    assert!(node.children.is_empty());
}

/// root ─ a(view with two parts) ─ a1
///      └ d (no class, no role, not navigable)
fn sample() -> (Cx, Entity, Entity, Entity) {
    let mut cx = Cx::new();
    let a = cx.create(Entity::root(), 0).unwrap();
    let d = cx.create(Entity::root(), 1).unwrap();
    let a1 = cx.create(a, 0).unwrap();
    cx.style.modify(Entity::root()).unwrap().inline.role = Some(Role::Window);
    cx.style.modify(a1).unwrap().inline.role = Some(Role::Button);
    cx.add_view(a, 1, Composite { role: Some(Role::Slider), parts: vec![900, 901] });
    (cx, a, a1, d)
}

#[test]
fn initial_build_has_one_node_per_entity_in_layout_order() {
    let (cx, a, a1, d) = sample();
    let update = initial_accessibility_system(&cx);
    assert_eq!(update.tree, Some(TreeInfo { root: 1 }));
    assert_eq!(update.focus, 1);
    assert_eq!(
        ids(&update.nodes),
        vec![1, a.accesskit_id(), 900, 901, a1.accesskit_id(), d.accesskit_id()]
    );
    assert_eq!(entry(&update.nodes, Entity::root()).children, vec![a.accesskit_id(), d.accesskit_id()]);
    assert_eq!(entry(&update.nodes, a).children, vec![900, 901, a1.accesskit_id()]);
    assert_eq!(entry(&update.nodes, Entity::root()).data.role, Role::Window);
    assert_eq!(entry(&update.nodes, a).data.role, Role::Slider);
    assert_eq!(entry(&update.nodes, a1).data.role, Role::Button);
    // Every child that is named has a node in the batch.
    for n in &update.nodes {
        for c in &n.children {
            assert!(update.nodes.iter().any(|m| m.id == *c));
        }
    }
    // The initial build does not consume the marks.
    assert!(cx.style.reaccess.contains(a));
}

#[test]
fn initial_build_gives_the_focus_as_it_stands() {
    let (mut cx, _a, a1, _d) = sample();
    cx.set_current(a1);
    cx.focus_with_visibility(true);
    assert_eq!(initial_accessibility_system(&cx).focus, a1.accesskit_id());
    cx.window_has_focus = false;
    let update = initial_accessibility_system(&cx);
    assert_eq!(update.focus, 0);
    assert_eq!(update.tree, Some(TreeInfo { root: 1 }));
}

#[test]
fn silent_entity_is_built_initially_but_not_updated() {
    // Entity D has no class, id or pseudo-class matches, is not navigable and
    // has an unknown role.
    let (mut cx, _a, _a1, d) = sample();
    let update = initial_accessibility_system(&cx);
    let node = entry(&update.nodes, d);
    assert_eq!(node.data.role, Role::Unknown);
    assert!(!node.data.focusable);

    cx.style.reaccess.clear();
    cx.style.mark_reaccess(d);
    accessibility_system(&mut cx);
    assert!(cx.tree_updates.is_empty());
    assert_eq!(cx.style.reaccess.len(), 0);
}

#[test]
fn update_sends_one_batch_per_marked_entity_in_layout_order() {
    let (mut cx, a, a1, d) = sample();
    cx.style.reaccess.clear();
    cx.style.mark_reaccess(d);
    cx.style.mark_reaccess(a1);
    cx.style.mark_reaccess(a);
    cx.set_current(a1);
    cx.focus_with_visibility(false);
    cx.style.reaccess.remove(Entity::root());

    accessibility_system(&mut cx);

    assert_eq!(cx.tree_updates.len(), 2);
    let first = &cx.tree_updates[0];
    assert_eq!(ids(&first.nodes), vec![a.accesskit_id(), 900, 901]);
    assert_eq!(first.nodes[0].children, vec![900, 901, a1.accesskit_id()]);
    assert_eq!(first.tree, None);
    assert_eq!(first.focus, a1.accesskit_id());
    let second = &cx.tree_updates[1];
    assert_eq!(ids(&second.nodes), vec![a1.accesskit_id()]);
    assert_eq!(second.nodes[0].data.role, Role::Button);
    // No node of an entity that was not marked went out.
    for update in &cx.tree_updates {
        for n in &update.nodes {
            assert_ne!(n.id, Entity::root().accesskit_id());
            assert_ne!(n.id, d.accesskit_id());
        }
    }
    assert_eq!(cx.style.reaccess.len(), 0);

    // Nothing marked: nothing sent.
    accessibility_system(&mut cx);
    assert_eq!(cx.tree_updates.len(), 2);
}

#[test]
fn navigable_entity_with_unknown_role_is_updated() {
    let (mut cx, _a, _a1, d) = sample();
    cx.style.modify(d).unwrap().abilities.set(Ability::Navigable, true);
    cx.style.reaccess.clear();
    cx.style.mark_reaccess(d);
    accessibility_system(&mut cx);
    assert_eq!(cx.tree_updates.len(), 1);
    assert_eq!(ids(&cx.tree_updates[0].nodes), vec![d.accesskit_id()]);
    assert_eq!(cx.tree_updates[0].nodes[0].data.role, Role::Unknown);
    assert!(cx.tree_updates[0].nodes[0].data.focusable);
}

#[test]
fn view_can_silence_or_voice_its_node() {
    let (mut cx, a, _a1, d) = sample();
    // A view that leaves the role unknown on an entity that is not
    // navigable: nothing is sent.
    cx.add_view(a, 1, Composite { role: Some(Role::Unknown), parts: vec![900] });
    // A view that gives a role to an entity that has none.
    cx.add_view(d, 1, Composite { role: Some(Role::Image), parts: vec![] });
    cx.style.reaccess.clear();
    cx.style.mark_reaccess(a);
    cx.style.mark_reaccess(d);
    accessibility_system(&mut cx);
    assert_eq!(cx.tree_updates.len(), 1);
    assert_eq!(ids(&cx.tree_updates[0].nodes), vec![d.accesskit_id()]);
    assert_eq!(cx.tree_updates[0].nodes[0].data.role, Role::Image);
}

#[test]
fn focus_is_zero_when_the_window_has_none() {
    let (mut cx, _a, a1, _d) = sample();
    cx.window_has_focus = false;
    cx.style.reaccess.clear();
    cx.style.mark_reaccess(a1);
    accessibility_system(&mut cx);
    assert_eq!(cx.tree_updates.len(), 1);
    assert_eq!(cx.tree_updates[0].focus, 0);
}
