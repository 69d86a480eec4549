use vizia_core::entity::Entity;
use vizia_core::events::{Delivery, Event, Message, Propagation, Step, Visit, WindowEvent};

fn e(i: u32) -> Entity {
    Entity::new(i, 0)
}

fn visit(i: u32, listener: bool, view: bool) -> Visit {
    Visit { entity: e(i), listener, view }
}

/// Runs a delivery; `consume_at` says after which hand-over (counted from 0)
/// the event becomes consumed.
fn run(mut d: Delivery, consume_at: Option<usize>) -> Vec<Step> {
    let mut out = Vec::new();
    let mut consumed = false;
    loop {
        match d.next(consumed) {
            Some(step) => {
                out.push(step);
                if Some(out.len() - 1) == consume_at {
                    consumed = true;
                }
            }
            None => break,
        }
    }
    assert!(d.is_done());
    assert_eq!(d.next(consumed), None);
    out
}

#[test]
fn new_event_travels_up_from_nowhere() {
    let ev: Event<u32> = Event::new(Message::Custom(7));
    assert!(ev.origin.is_null());
    assert!(ev.target.is_null());
    assert_eq!(ev.propagation, Propagation::Up);
    assert!(!ev.consumed);
    let mut ev = ev.target(e(3)).origin(e(4)).propagate(Propagation::Subtree);
    assert_eq!(ev.target, e(3));
    assert_eq!(ev.origin, e(4));
    assert_eq!(ev.propagation, Propagation::Subtree);
    ev.consume();
    assert!(ev.consumed);
    assert!(matches!(ev.message, Message::Custom(7)));
    let w: Event<u32> = Event::new(Message::Window(WindowEvent::FocusIn));
    assert!(matches!(w.message, Message::Window(WindowEvent::FocusIn)));
}

#[test]
fn plan_lists_globals_then_listener_then_view_per_entity() {
    let route = vec![visit(5, true, true), visit(2, false, true), visit(0, true, false)];
    let d = Delivery::plan(2, &route, Propagation::Up);
    assert_eq!(
        run(d, None),
        vec![
            Step::Global(0),
            Step::Global(1),
            Step::Listener(e(5)),
            Step::View(e(5)),
            Step::View(e(2)),
            Step::Listener(e(0)),
        ]
    );
}

#[test]
fn empty_plan_is_done_at_once() {
    let mut d = Delivery::plan(0, &vec![], Propagation::Up);
    assert!(d.is_done());
    assert_eq!(d.next(false), None);
    let d = Delivery::plan(0, &vec![visit(1, false, false)], Propagation::Direct);
    assert_eq!(run(d, None), vec![]);
}

#[test]
fn consumed_up_event_stops_before_the_next_ancestor() {
    let route = vec![visit(5, true, true), visit(2, true, true), visit(0, true, true)];
    // Consumed by the listener of entity 2 (hand-over 3): the view of 2 still
    // gets it, the root does not.
    let d = Delivery::plan(1, &route, Propagation::Up);
    assert_eq!(
        run(d, Some(3)),
        vec![
            Step::Global(0),
            Step::Listener(e(5)),
            Step::View(e(5)),
            Step::Listener(e(2)),
            Step::View(e(2)),
        ]
    );
    // Consumed by the view of the target: no ancestor gets it.
    let d = Delivery::plan(1, &route, Propagation::Up);
    assert_eq!(
        run(d, Some(2)),
        vec![Step::Global(0), Step::Listener(e(5)), Step::View(e(5))]
    );
}

#[test]
fn consumed_by_global_listener_still_reaches_the_target() {
    let route = vec![visit(5, false, true), visit(2, false, true)];
    let d = Delivery::plan(2, &route, Propagation::Up);
    assert_eq!(run(d, Some(0)), vec![Step::Global(0), Step::Global(1), Step::View(e(5))]);
}

#[test]
fn consumed_before_dispatch_still_reaches_globals_and_target() {
    let route = vec![visit(5, false, true), visit(2, false, true)];
    let mut d = Delivery::plan(1, &route, Propagation::Up);
    assert_eq!(d.next(true), Some(Step::Global(0)));
    assert_eq!(d.next(true), Some(Step::View(e(5))));
    assert_eq!(d.next(true), None);
    assert!(d.is_done());
}

#[test]
fn consumption_does_not_stop_subtree_or_direct_delivery() {
    let route = vec![visit(1, false, true), visit(3, false, true), visit(4, true, true)];
    let d = Delivery::plan(0, &route, Propagation::Subtree);
    assert_eq!(
        run(d, Some(0)),
        vec![Step::View(e(1)), Step::View(e(3)), Step::Listener(e(4)), Step::View(e(4))]
    );
    let d = Delivery::plan(1, &vec![visit(1, true, true)], Propagation::Direct);
    assert_eq!(run(d, Some(0)), vec![Step::Global(0), Step::Listener(e(1)), Step::View(e(1))]);
}

#[test]
fn target_without_handlers_does_not_shield_ancestors() {
    // The target has neither listener nor view; the event is consumed by a
    // global listener, so the first ancestor is not reached.
    let route = vec![visit(5, false, false), visit(2, false, true)];
    let d = Delivery::plan(1, &route, Propagation::Up);
    assert_eq!(run(d, Some(0)), vec![Step::Global(0)]);
    let d = Delivery::plan(1, &route, Propagation::Up);
    assert_eq!(run(d, None), vec![Step::Global(0), Step::View(e(2))]);
}
