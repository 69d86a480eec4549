use vizia_core::access::AccessNode;
use vizia_core::accessibility::{AccessContext, ViewHandler};
use vizia_core::components::{DataContext, DataRef};
use vizia_core::context::Context;
use vizia_core::entity::Entity;
use vizia_core::events::{Event, Message, Propagation, Step};

#[derive(Debug, PartialEq)]
struct Named(&'static str);

impl ViewHandler for Named {
    fn accessibility(&self, _cx: &AccessContext, _node: &mut AccessNode) {}
}

type Cx = Context<Named, &'static str, u32, &'static str>;

const BUTTON: u64 = 1;
const LABEL: u64 = 2;
const SETTINGS: u64 = 100;
const THEME: u64 = 101;

fn model<'a>(r: Option<DataRef<'a, Named, &'static str>>) -> Option<&'static str> {
    match r {
        Some(DataRef::Model(m)) => Some(*m),
        _ => None,
    }
}

fn view<'a>(r: Option<DataRef<'a, Named, &'static str>>) -> Option<&'a Named> {
    match r {
        Some(DataRef::View(v)) => Some(v),
        _ => None,
    }
}

#[test]
fn views_can_be_taken_and_restored() {
    let mut cx = Cx::new();
    let a = cx.create(Entity::root(), 0).unwrap();
    assert!(cx.add_view(a, BUTTON, Named("a")));
    assert!(!cx.add_view(Entity::new(9, 0), BUTTON, Named("nobody")));
    let taken = cx.take_view(a);
    assert_eq!(taken, Some(Named("a")));
    // The entity still counts as having a view.
    assert!(cx.views.contains(a));
    assert_eq!(cx.take_view(a), None);
    assert_eq!(cx.restore_view(a, taken.unwrap()), None);
    assert_eq!(cx.take_view(a), Some(Named("a")));
    assert_eq!(cx.take_view(Entity::root()), None);
}

#[test]
fn restore_hands_the_view_back_when_it_has_no_place() {
    let mut cx = Cx::new();
    let a = cx.create(Entity::root(), 0).unwrap();
    cx.add_view(a, BUTTON, Named("a"));
    let taken = cx.take_view(a).unwrap();
    cx.remove(a);
    assert_eq!(cx.restore_view(a, taken), Some(Named("a")));

    let b = cx.create(Entity::root(), 0).unwrap();
    cx.add_view(b, BUTTON, Named("b"));
    assert_eq!(cx.restore_view(b, Named("other")), Some(Named("other")));
    assert_eq!(cx.take_view(b), Some(Named("b")));
}

#[test]
fn data_is_found_at_the_nearest_ancestor() {
    let mut cx = Cx::new();
    let a = cx.create(Entity::root(), 0).unwrap();
    let a1 = cx.create(a, 0).unwrap();
    cx.set_current(Entity::root());
    assert!(cx.add_model(SETTINGS, "root settings"));
    assert!(cx.add_model(THEME, "dark"));
    cx.set_current(a);
    assert!(cx.add_model(SETTINGS, "a settings"));
    cx.add_view(a, BUTTON, Named("a view"));

    cx.set_current(a1);
    assert_eq!(model(cx.data(SETTINGS)), Some("a settings"));
    assert_eq!(model(cx.data(THEME)), Some("dark"));
    assert_eq!(view(cx.data(BUTTON)), Some(&Named("a view")));
    assert!(cx.data(LABEL).is_none());
    cx.set_current(Entity::root());
    assert_eq!(model(cx.data(SETTINGS)), Some("root settings"));
    assert!(cx.data(BUTTON).is_none());
    cx.set_current(Entity::new(9, 0));
    assert!(cx.data(SETTINGS).is_none());
}

#[test]
fn a_model_takes_the_place_of_the_model_with_its_key() {
    let mut cx = Cx::new();
    assert!(cx.add_model(SETTINGS, "one"));
    assert!(cx.add_model(THEME, "dark"));
    assert!(cx.add_model(SETTINGS, "two"));
    assert_eq!(model(cx.data(SETTINGS)), Some("two"));
    assert_eq!(model(cx.data(THEME)), Some("dark"));
    assert_eq!(cx.data.get(Entity::root()).unwrap().len(), 2);
    cx.set_current(Entity::new(9, 0));
    assert!(!cx.add_model(SETTINGS, "lost"));
}

#[test]
fn a_model_goes_before_a_view_with_the_same_key() {
    let mut cx = Cx::new();
    cx.add_view(Entity::root(), BUTTON, Named("view"));
    assert_eq!(view(cx.data(BUTTON)), Some(&Named("view")));
    cx.add_model(BUTTON, "model");
    assert_eq!(model(cx.data(BUTTON)), Some("model"));
    // A view that is away is not found.
    let mut other = Cx::new();
    other.add_view(Entity::root(), BUTTON, Named("view"));
    let _away = other.take_view(Entity::root());
    assert!(other.data(BUTTON).is_none());
}

#[test]
fn global_listeners_are_numbered_in_order() {
    let mut cx = Cx::new();
    assert!(cx.global_listeners.is_empty());
    assert_eq!(cx.add_global_listener("first"), 0);
    assert_eq!(cx.add_global_listener("second"), 1);
    assert_eq!(cx.add_global_listener("third"), 2);
    // Those that were registered keep their places; the new one is last.
    assert_eq!(cx.global_listeners, vec!["first", "second", "third"]);
    assert!(cx.listeners.is_empty());
    assert!(cx.next_event().is_none());
}

#[test]
fn environment_model_is_found_from_every_entity() {
    let mut cx = Cx::with_environment(SETTINGS, "environment");
    assert_eq!(model(cx.data(SETTINGS)), Some("environment"));
    assert_eq!(cx.data.get(Entity::root()).unwrap().len(), 1);
    let a = cx.create(Entity::root(), 0).unwrap();
    cx.set_current(a);
    assert_eq!(model(cx.data(SETTINGS)), Some("environment"));
    assert!(cx.data(THEME).is_none());
    assert_eq!(cx.focused, Entity::root());
    // Without the environment nothing is found.
    let bare = Cx::new();
    assert!(bare.data(SETTINGS).is_none());
}

fn steps(cx: &Cx, event: &Event<u32>) -> Vec<Step> {
    let mut d = cx.begin_dispatch(event);
    let mut out = Vec::new();
    while let Some(step) = d.next(false) {
        out.push(step);
    }
    out
}

/// root ─ a(BUTTON) ─ a1(LABEL)
///      └ b
fn listening() -> (Cx, Entity, Entity, Entity) {
    let mut cx = Cx::new();
    let a = cx.create(Entity::root(), 0).unwrap();
    let b = cx.create(Entity::root(), 1).unwrap();
    let a1 = cx.create(a, 0).unwrap();
    cx.add_view(a, BUTTON, Named("a"));
    cx.add_view(a1, LABEL, Named("a1"));
    cx.add_global_listener("first");
    cx.add_global_listener("second");
    (cx, a, a1, b)
}

#[test]
fn dispatch_up_visits_target_then_ancestors() {
    let (mut cx, a, a1, _b) = listening();
    cx.set_current(a);
    assert!(cx.add_listener(BUTTON));
    cx.set_current(a1);
    let event = Event::new(Message::Custom(1)).target(a1);
    assert_eq!(cx.route(a1, Propagation::Up), vec![a1, a, Entity::root()]);
    assert_eq!(
        steps(&cx, &event),
        vec![Step::Global(0), Step::Global(1), Step::View(a1), Step::Listener(a), Step::View(a)]
    );
}

#[test]
fn listener_for_another_view_type_is_not_called() {
    let (mut cx, a, a1, b) = listening();
    cx.set_current(a);
    cx.add_listener(LABEL);
    cx.set_current(a1);
    cx.add_listener(LABEL);
    cx.set_current(b);
    // No view at all: the listener has nothing to be handed.
    cx.add_listener(BUTTON);
    let up = Event::new(Message::Custom(1)).target(a1);
    assert_eq!(
        steps(&cx, &up),
        vec![Step::Global(0), Step::Global(1), Step::Listener(a1), Step::View(a1), Step::View(a)]
    );
    let direct = Event::new(Message::Custom(1)).target(b).propagate(Propagation::Direct);
    assert_eq!(steps(&cx, &direct), vec![Step::Global(0), Step::Global(1)]);
    cx.set_current(Entity::new(40, 0));
    assert!(!cx.add_listener(BUTTON));
}

#[test]
fn dispatch_direct_and_subtree() {
    let (cx, a, a1, b) = listening();
    let direct = Event::new(Message::Custom(1)).target(a).propagate(Propagation::Direct);
    assert_eq!(steps(&cx, &direct), vec![Step::Global(0), Step::Global(1), Step::View(a)]);
    let down = Event::new(Message::Custom(1)).target(Entity::root()).propagate(Propagation::Subtree);
    assert_eq!(cx.route(Entity::root(), Propagation::Subtree), vec![Entity::root(), a, a1, b]);
    assert_eq!(
        steps(&cx, &down),
        vec![Step::Global(0), Step::Global(1), Step::View(a), Step::View(a1)]
    );
}

#[test]
fn global_listeners_hear_events_for_targets_that_are_gone() {
    let (mut cx, a, _a1, _b) = listening();
    cx.remove(a);
    for propagation in [Propagation::Direct, Propagation::Up, Propagation::Subtree] {
        let event = Event::new(Message::Custom(1)).target(a).propagate(propagation);
        assert_eq!(cx.route(a, propagation), Vec::<Entity>::new());
        assert_eq!(steps(&cx, &event), vec![Step::Global(0), Step::Global(1)]);
    }
    let nowhere: Event<u32> = Event::new(Message::Custom(1));
    assert_eq!(steps(&cx, &nowhere), vec![Step::Global(0), Step::Global(1)]);
}
