use vizia_core::access::AccessNode;
use vizia_core::accessibility::{AccessContext, ViewHandler};
use vizia_core::context::{BoundingBox, Context, CreateError, DrawData};
use vizia_core::entity::{Entity, IdManager};
use vizia_core::events::{Event, Message, Propagation, WindowEvent};
use vizia_core::flags::PseudoClass;

struct Plain;

impl ViewHandler for Plain {
    fn accessibility(&self, _cx: &AccessContext, _node: &mut AccessNode) {}
}

type Cx = Context<Plain, u32, u32, &'static str>;

/// root ─ a ─ a1
///      │   └ a2 ─ a21
///      └ b
struct Family {
    cx: Cx,
    a: Entity,
    a1: Entity,
    a2: Entity,
    a21: Entity,
    b: Entity,
}

fn family() -> Family {
    let mut cx = Cx::new();
    let a = cx.create(Entity::root(), 0).unwrap();
    let b = cx.create(Entity::root(), 1).unwrap();
    let a1 = cx.create(a, 0).unwrap();
    let a2 = cx.create(a, 1).unwrap();
    let a21 = cx.create(a2, 0).unwrap();
    Family { cx, a, a1, a2, a21, b }
}

fn has(cx: &Cx, e: Entity, state: PseudoClass) -> bool {
    cx.style.data.get(e).map(|d| d.pseudo_classes.contains(state)).unwrap_or(false)
}

fn is_focus_out(ev: &Event<u32>) -> bool {
    matches!(ev.message, Message::Window(WindowEvent::FocusOut))
}

fn is_focus_in(ev: &Event<u32>) -> bool {
    matches!(ev.message, Message::Window(WindowEvent::FocusIn))
}

#[test]
fn new_context_holds_the_root() {
    let cx = Cx::new();
    assert!(cx.tree.has(Entity::root()));
    assert!(cx.entity_manager.is_alive(Entity::root()));
    assert!(cx.style.data.contains(Entity::root()));
    assert_eq!(cx.cache.get(Entity::root()), Some(&BoundingBox { x: 0, y: 0, w: 0, h: 0 }));
    assert_eq!(cx.current(), Entity::root());
    assert_eq!(cx.focused, Entity::root());
    assert_eq!(cx.hovered, Entity::root());
    assert!(cx.captured.is_null());
    assert!(cx.window_has_focus);
    assert!(!cx.style.needs_restyle && !cx.style.needs_relayout && !cx.style.needs_redraw);
}

#[test]
fn flags_are_set_one_by_one() {
    let mut cx = Cx::new();
    cx.need_redraw();
    assert!(cx.style.needs_redraw && !cx.style.needs_restyle && !cx.style.needs_relayout);
    cx.need_restyle();
    assert!(cx.style.needs_restyle && !cx.style.needs_relayout);
    cx.need_relayout();
    assert!(cx.style.needs_relayout);
    cx.set_current(Entity::new(4, 0));
    assert_eq!(cx.current(), Entity::new(4, 0));
}

#[test]
fn create_inserts_at_position_and_marks_everything_due() {
    let mut cx = Cx::new();
    let a = cx.create(Entity::root(), 0).unwrap();
    assert_eq!(a, Entity::new(1, 0));
    assert!(cx.style.needs_restyle && cx.style.needs_relayout && cx.style.needs_redraw);
    assert!(cx.style.reaccess.contains(a));
    assert!(cx.style.reaccess.contains(Entity::root()));
    let b = cx.create(Entity::root(), 0).unwrap();
    let c = cx.create(Entity::root(), 1).unwrap();
    assert_eq!(cx.tree.layout_iter(), vec![Entity::root(), b, c, a]);
    assert!(cx.style.data.contains(c));
    assert_eq!(cx.cache.get(c), Some(&BoundingBox { x: 0, y: 0, w: 0, h: 0 }));
    assert!(cx.entity_manager.is_alive(c));
}

#[test]
fn create_refuses_without_side_effects() {
    let mut cx = Cx::new();
    assert_eq!(cx.create(Entity::new(5, 0), 0), Err(CreateError::InvalidParent));
    assert_eq!(cx.create(Entity::root(), 1), Err(CreateError::InvalidPosition));
    assert!(!cx.style.needs_restyle);
    assert_eq!(cx.create(Entity::root(), 0), Ok(Entity::new(1, 0)));

    let mut small = Cx::new();
    small.entity_manager = IdManager::with_limit(2);
    assert_eq!(small.entity_manager.create(), Some(Entity::root()));
    assert_eq!(small.create(Entity::root(), 0), Ok(Entity::new(1, 0)));
    assert_eq!(small.create(Entity::root(), 0), Err(CreateError::Exhausted));
    assert_eq!(small.tree.get_num_children(Entity::root()), 1);
    // A bad parent is reported before exhaustion.
    assert_eq!(small.create(Entity::new(9, 0), 0), Err(CreateError::InvalidParent));
}

#[test]
fn emit_queues_in_order_with_the_right_routes() {
    let mut cx = Cx::new();
    cx.set_current(Entity::new(3, 0));
    cx.emit(Message::Custom(1));
    cx.emit_to(Entity::new(4, 0), Message::Custom(2));
    cx.emit_custom(Event::new(Message::Custom(3)).propagate(Propagation::Subtree));
    let first = cx.next_event().unwrap();
    assert!(matches!(first.message, Message::Custom(1)));
    assert_eq!(first.target, Entity::new(3, 0));
    assert_eq!(first.origin, Entity::new(3, 0));
    assert_eq!(first.propagation, Propagation::Up);
    assert!(!first.consumed);
    let second = cx.next_event().unwrap();
    assert!(matches!(second.message, Message::Custom(2)));
    assert_eq!(second.target, Entity::new(4, 0));
    assert_eq!(second.origin, Entity::new(3, 0));
    assert_eq!(second.propagation, Propagation::Direct);
    let third = cx.next_event().unwrap();
    assert!(matches!(third.message, Message::Custom(3)));
    assert_eq!(third.propagation, Propagation::Subtree);
    assert!(third.target.is_null());
    assert!(cx.next_event().is_none());
}

#[test]
fn focus_moves_from_a_to_b() {
    // focus entity A, then focus entity B (A != B)
    let mut f = family();
    let (a21, b) = (f.a21, f.b);
    f.cx.set_current(a21);
    f.cx.focus_with_visibility(true);
    while f.cx.next_event().is_some() {}
    assert_eq!(f.cx.focused, a21);
    assert!(has(&f.cx, a21, PseudoClass::Focus));
    assert!(has(&f.cx, a21, PseudoClass::FocusVisible));
    for e in [a21, f.a2, f.a, Entity::root()] {
        assert!(has(&f.cx, e, PseudoClass::FocusWithin));
    }
    assert!(!has(&f.cx, f.a1, PseudoClass::FocusWithin));
    f.cx.style.needs_restyle = false;
    f.cx.style.needs_relayout = false;
    f.cx.style.needs_redraw = false;

    f.cx.set_current(b);
    f.cx.focus_with_visibility(true);

    assert_eq!(f.cx.focused, b);
    let out = f.cx.next_event().unwrap();
    assert!(is_focus_out(&out));
    assert_eq!(out.target, a21);
    assert_eq!(out.propagation, Propagation::Direct);
    let into = f.cx.next_event().unwrap();
    assert!(is_focus_in(&into));
    assert_eq!(into.target, b);
    assert_eq!(into.propagation, Propagation::Direct);
    assert!(f.cx.next_event().is_none());

    assert!(!has(&f.cx, a21, PseudoClass::Focus));
    assert!(!has(&f.cx, a21, PseudoClass::FocusVisible));
    assert!(has(&f.cx, b, PseudoClass::Focus));
    assert!(has(&f.cx, b, PseudoClass::FocusVisible));
    assert!(has(&f.cx, b, PseudoClass::FocusWithin));
    assert!(has(&f.cx, Entity::root(), PseudoClass::FocusWithin));
    for e in [a21, f.a2, f.a, f.a1] {
        assert!(!has(&f.cx, e, PseudoClass::FocusWithin));
    }
    assert!(f.cx.style.needs_restyle && f.cx.style.needs_relayout && f.cx.style.needs_redraw);
}

#[test]
fn focus_on_the_focused_entity_sends_no_events() {
    let mut f = family();
    f.cx.set_current(f.a);
    f.cx.focus_with_visibility(false);
    while f.cx.next_event().is_some() {}
    f.cx.style.needs_redraw = false;
    f.cx.focus_with_visibility(false);
    assert!(f.cx.next_event().is_none());
    assert_eq!(f.cx.focused, f.a);
    assert!(has(&f.cx, f.a, PseudoClass::Focus));
    assert!(!has(&f.cx, f.a, PseudoClass::FocusVisible));
    assert!(has(&f.cx, Entity::root(), PseudoClass::FocusWithin));
    assert!(f.cx.style.needs_redraw);
}

#[test]
fn focus_keeps_the_visibility_of_the_old_focus() {
    let mut f = family();
    f.cx.set_current(f.a);
    f.cx.focus_with_visibility(true);
    f.cx.set_current(f.b);
    f.cx.focus();
    assert!(has(&f.cx, f.b, PseudoClass::FocusVisible));
    assert!(!has(&f.cx, f.a, PseudoClass::FocusVisible));

    let mut g = family();
    g.cx.set_current(g.a);
    g.cx.focus_with_visibility(false);
    g.cx.set_current(g.b);
    g.cx.focus();
    assert!(has(&g.cx, g.b, PseudoClass::Focus));
    assert!(!has(&g.cx, g.b, PseudoClass::FocusVisible));
}

#[test]
fn set_selected_touches_the_current_entity_only() {
    let mut f = family();
    f.cx.style.reaccess.clear();
    f.cx.style.needs_restyle = false;
    f.cx.set_current(f.a1);
    f.cx.set_selected(true);
    assert!(has(&f.cx, f.a1, PseudoClass::Selected));
    assert!(!has(&f.cx, f.a, PseudoClass::Selected));
    assert!(f.cx.style.reaccess.contains(f.a1));
    assert!(!f.cx.style.reaccess.contains(f.a));
    assert!(f.cx.style.needs_restyle && f.cx.style.needs_relayout && f.cx.style.needs_redraw);
    f.cx.set_selected(false);
    assert!(!has(&f.cx, f.a1, PseudoClass::Selected));
    // An entity of which nothing is said: only the flags change.
    f.cx.style.needs_restyle = false;
    f.cx.set_current(Entity::new(99, 0));
    f.cx.set_selected(true);
    assert!(f.cx.style.needs_restyle);
}

#[test]
fn remove_erases_the_subtree_everywhere() {
    let mut f = family();
    for e in [f.a, f.a1, f.a2, f.a21, f.b] {
        f.cx.draw_cache.insert(e, DrawData { z_index: 1, opacity: 255 });
        assert!(f.cx.add_view(e, 7, Plain));
        f.cx.set_current(e);
        assert!(f.cx.add_model(1, 10));
        assert!(f.cx.add_listener(7));
    }
    f.cx.restyle();
    f.cx.style.needs_restyle = false;
    f.cx.style.needs_relayout = false;
    f.cx.style.needs_redraw = false;
    assert_eq!(f.cx.removal_order(f.a), vec![f.a21, f.a2, f.a1, f.a]);

    f.cx.remove(f.a);

    for gone in [f.a, f.a1, f.a2, f.a21] {
        assert!(!f.cx.tree.has(gone));
        assert!(!f.cx.entity_manager.is_alive(gone));
        assert!(!f.cx.style.data.contains(gone));
        assert!(!f.cx.style.computed.contains(gone));
        assert!(!f.cx.style.reaccess.contains(gone));
        assert!(!f.cx.cache.contains(gone));
        assert!(!f.cx.draw_cache.contains(gone));
        assert!(!f.cx.views.contains(gone));
        assert!(!f.cx.data.contains(gone));
        assert!(!f.cx.listeners.contains(gone));
    }
    for stays in [Entity::root(), f.b] {
        assert!(f.cx.tree.has(stays));
        assert!(f.cx.entity_manager.is_alive(stays));
        assert!(f.cx.style.data.contains(stays));
        assert!(f.cx.cache.contains(stays));
    }
    assert!(f.cx.views.contains(f.b));
    assert_eq!(f.cx.tree.layout_iter(), vec![Entity::root(), f.b]);
    assert!(f.cx.style.needs_restyle && f.cx.style.needs_relayout && f.cx.style.needs_redraw);
    assert!(f.cx.style.reaccess.contains(Entity::root()));
}

#[test]
fn removed_identifiers_come_back_with_a_new_generation() {
    let mut f = family();
    let gone = [f.a, f.a1, f.a2, f.a21];
    f.cx.remove(f.a);
    for _ in 0..6 {
        let fresh = f.cx.create(Entity::root(), 0).unwrap();
        assert!(!gone.contains(&fresh));
        if gone.iter().any(|g| g.index == fresh.index) {
            assert_eq!(fresh.generation, 1);
        }
    }
    for g in gone {
        assert!(!f.cx.tree.has(g));
        assert!(!f.cx.entity_manager.is_alive(g));
        assert!(!f.cx.style.data.contains(g));
    }
}

#[test]
fn removing_nothing_changes_nothing() {
    let mut f = family();
    f.cx.remove(f.a1);
    f.cx.style.needs_restyle = false;
    f.cx.style.needs_relayout = false;
    f.cx.style.needs_redraw = false;
    f.cx.style.reaccess.clear();
    // Already removed, never there, and the root.
    f.cx.remove(f.a1);
    f.cx.remove(Entity::new(77, 0));
    f.cx.remove(Entity::root());
    assert!(!f.cx.style.needs_restyle && !f.cx.style.needs_relayout && !f.cx.style.needs_redraw);
    assert_eq!(f.cx.style.reaccess.len(), 0);
    assert_eq!(f.cx.tree.layout_iter(), vec![Entity::root(), f.a, f.a2, f.a21, f.b]);
    assert_eq!(f.cx.removal_order(f.a1), Vec::<Entity>::new());
}

#[test]
fn removing_the_focused_entity_restores_focus_from_the_stack() {
    let mut f = family();
    f.cx.set_current(f.a21);
    f.cx.focus_with_visibility(true);
    while f.cx.next_event().is_some() {}
    // The stack holds, oldest first: b, an entity that goes with a, and an
    // entity that is long gone.
    f.cx.focus_stack = vec![f.b, f.a1, Entity::new(50, 0)];
    f.cx.set_current(Entity::root());

    f.cx.remove(f.a);

    assert_eq!(f.cx.focused, f.b);
    assert!(f.cx.tree.has(f.cx.focused));
    assert_eq!(f.cx.focus_stack, Vec::<Entity>::new());
    assert_eq!(f.cx.current(), Entity::root());
    assert!(has(&f.cx, f.b, PseudoClass::Focus));
    assert!(has(&f.cx, f.b, PseudoClass::FocusVisible));
    assert!(has(&f.cx, f.b, PseudoClass::FocusWithin));
    assert!(has(&f.cx, Entity::root(), PseudoClass::FocusWithin));
    let out = f.cx.next_event().unwrap();
    assert!(is_focus_out(&out));
    assert_eq!(out.target, f.a21);
    assert_eq!(out.origin, f.b);
    let into = f.cx.next_event().unwrap();
    assert!(is_focus_in(&into));
    assert_eq!(into.target, f.b);
    assert!(f.cx.next_event().is_none());
}

#[test]
fn removing_the_focused_entity_with_empty_stack_leaves_no_focus() {
    let mut f = family();
    f.cx.set_current(f.a2);
    f.cx.focus_with_visibility(true);
    while f.cx.next_event().is_some() {}
    f.cx.focus_stack = vec![f.a21];

    f.cx.remove(f.a2);

    assert!(f.cx.focused.is_null());
    assert_eq!(f.cx.focus_stack, Vec::<Entity>::new());
    assert!(f.cx.next_event().is_none());
    assert!(!has(&f.cx, f.a, PseudoClass::FocusWithin));
    assert!(!has(&f.cx, Entity::root(), PseudoClass::FocusWithin));
}

#[test]
fn removing_another_entity_leaves_focus_and_stack_alone() {
    let mut f = family();
    f.cx.set_current(f.b);
    f.cx.focus_with_visibility(false);
    while f.cx.next_event().is_some() {}
    f.cx.focus_stack = vec![f.a1];
    f.cx.remove(f.a);
    assert_eq!(f.cx.focused, f.b);
    assert_eq!(f.cx.focus_stack, vec![f.a1]);
    assert!(f.cx.next_event().is_none());
    assert!(has(&f.cx, f.b, PseudoClass::Focus));
}

#[test]
fn removing_the_capturing_entity_clears_capture() {
    let mut f = family();
    f.cx.captured = f.a21;
    f.cx.remove(f.a2);
    assert!(f.cx.captured.is_null());

    let mut g = family();
    g.cx.captured = g.b;
    g.cx.remove(g.a2);
    assert_eq!(g.cx.captured, g.b);
}

#[test]
fn set_bounds_marks_the_entity() {
    let mut f = family();
    f.cx.style.reaccess.clear();
    f.cx.style.needs_redraw = false;
    f.cx.style.needs_restyle = false;
    f.cx.style.needs_relayout = false;
    let b = BoundingBox { x: 1, y: 2, w: 3, h: 4 };
    assert!(f.cx.set_bounds(f.a1, b));
    assert_eq!(f.cx.cache.get(f.a1), Some(&b));
    assert!(f.cx.style.reaccess.contains(f.a1));
    assert!(!f.cx.style.reaccess.contains(f.a));
    assert!(f.cx.style.needs_redraw && !f.cx.style.needs_restyle && !f.cx.style.needs_relayout);
    f.cx.style.needs_redraw = false;
    assert!(!f.cx.set_bounds(Entity::new(60, 0), b));
    assert!(!f.cx.style.needs_redraw);
    assert!(!f.cx.cache.contains(Entity::new(60, 0)));
}

#[test]
fn mouse_goes_to_the_capturing_entity() {
    let mut f = family();
    f.cx.hovered = f.a1;
    assert_eq!(f.cx.mouse_target(), f.a1);
    f.cx.captured = f.b;
    assert_eq!(f.cx.mouse_target(), f.b);
    f.cx.remove(f.b);
    assert_eq!(f.cx.mouse_target(), f.a1);
}

#[test]
fn release_focus_takes_the_focus_out_of_a_branch() {
    let mut f = family();
    f.cx.set_current(f.a21);
    f.cx.focus_with_visibility(true);
    while f.cx.next_event().is_some() {}
    f.cx.focus_stack = vec![f.b, f.a1];
    f.cx.style.needs_restyle = false;
    f.cx.style.needs_relayout = false;
    f.cx.style.needs_redraw = false;

    // The focus is not within b: nothing changes.
    assert!(!f.cx.release_focus(f.b));
    assert_eq!(f.cx.focused, f.a21);
    assert_eq!(f.cx.focus_stack, vec![f.b, f.a1]);
    assert!(!f.cx.style.needs_restyle);

    // It is within a: a1 goes with a, so b gets the focus.
    assert!(f.cx.release_focus(f.a));
    assert_eq!(f.cx.focused, f.b);
    assert_eq!(f.cx.focus_stack, Vec::<Entity>::new());
    assert!(f.cx.tree.has(f.a21));
    assert!(!has(&f.cx, f.a21, PseudoClass::Focus));
    assert!(!has(&f.cx, f.a, PseudoClass::FocusWithin));
    assert!(has(&f.cx, f.b, PseudoClass::Focus));
    assert!(has(&f.cx, f.b, PseudoClass::FocusVisible));
    assert!(f.cx.style.needs_restyle && f.cx.style.needs_relayout && f.cx.style.needs_redraw);
    let out = f.cx.next_event().unwrap();
    assert!(is_focus_out(&out));
    assert_eq!(out.target, f.a21);
    let into = f.cx.next_event().unwrap();
    assert!(is_focus_in(&into));
    assert_eq!(into.target, f.b);

    // Nothing is left on the stack: nothing has the focus.
    f.cx.style.needs_redraw = false;
    assert!(f.cx.release_focus(f.b));
    assert!(f.cx.focused.is_null());
    assert!(!has(&f.cx, f.b, PseudoClass::Focus));
    assert!(f.cx.style.needs_redraw);
    assert!(f.cx.next_event().is_none());
}
