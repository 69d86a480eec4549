//! The route of an event through the tree.

use crate::context::Context;
use crate::entity::Entity;
use crate::delivery_laws::{
    lemma_consumed_stops_above, lemma_global_listeners_first, lemma_stop_index, trace,
};
use crate::events::{
    lemma_plan_wf, lemma_route, plan_levels, plan_steps, route_levels, route_steps, Delivery,
    DeliveryModel, Event, Propagation, Step, Visit,
};
use vstd::prelude::*;

verus! {

impl<V, M, E, G> Context<V, M, E, G> {
    /// The entities that an event visits, in order: the target alone, the
    /// target and its ancestors, or the target and everything below it. A
    /// target that is not in the tree is not visited.
    pub open spec fn route_of(&self, target: Entity, propagation: Propagation) -> Seq<Entity> {
        match propagation {
            Propagation::Direct => if self.tree.contains(target) {
                seq![target]
            } else {
                Seq::empty()
            },
            Propagation::Up => self.tree.ancestors(target),
            Propagation::Subtree => self.tree.subtree(target),
        }
    }

    /// Whether the listener registered for the entity is called: there is
    /// one, and it was registered for the type of view that the entity has.
    pub open spec fn listener_fires(&self, e: Entity) -> bool {
        self.listeners@.contains_key(e) && self.views@.contains_key(e) && self.listeners@[e]
            == self.views@[e].type_key
    }

    /// What is known of an entity on the route when the event sets out.
    pub open spec fn visit_of(&self, e: Entity) -> Visit {
        Visit { entity: e, listener: self.listener_fires(e), view: self.views@.contains_key(e) }
    }

    /// The route of an event with what is known of each entity on it.
    pub open spec fn visits_of(&self, target: Entity, propagation: Propagation) -> Seq<Visit> {
        Seq::new(
            self.route_of(target, propagation).len(),
            |i: int| self.visit_of(self.route_of(target, propagation)[i]),
        )
    }

    /// The entities that an event visits, in order.
    pub fn route(&self, target: Entity, propagation: Propagation) -> (r: Vec<Entity>)
        requires
            self.wf(),
        ensures
            r@ == self.route_of(target, propagation),
    {
        match propagation {
            Propagation::Direct => {
                let mut r: Vec<Entity> = Vec::new();
                if self.tree.has(target) {
                    r.push(target);
                    assert(r@ =~= seq![target]);
                }
                r
            },
            Propagation::Up => self.tree.parent_iter(target),
            Propagation::Subtree => self.tree.branch_iter(target),
        }
    }

    /// Plans the delivery of an event as the tree, the views and the
    /// listeners stand now. What those who are handed the event do to them
    /// does not change the plan.
    pub fn begin_dispatch(&self, event: &Event<E>) -> (d: Delivery)
        requires
            self.wf(),
        ensures
            d.wf(),
            d@.cursor == 0,
            d@.halting == (event.propagation == Propagation::Up),
            d@.steps == plan_steps(
                self.global_listeners@.len(),
                self.visits_of(event.target, event.propagation),
            ),
            d@.levels == plan_levels(
                self.global_listeners@.len(),
                self.visits_of(event.target, event.propagation),
            ),
    {
        let route = self.route(event.target, event.propagation);
        let mut visits: Vec<Visit> = Vec::new();
        let mut i: usize = 0;
        while i < route.len()
            invariant
                self.wf(),
                i <= route.len(),
                visits@.len() == i,
                forall|k: int| 0 <= k < i ==> visits@[k] == self.visit_of(route@[k]),
            decreases route.len() - i,
        {
            let e = route[i];
            let view_type = match self.views.get(e) {
                Some(slot) => Some(slot.type_key),
                None => None,
            };
            let listener = match (self.listeners.get(e), view_type) {
                (Some(wanted), Some(actual)) => *wanted == actual,
                _ => false,
            };
            visits.push(Visit { entity: e, listener, view: view_type.is_some() });
            i += 1;
        }
        assert(visits@ =~= self.visits_of(event.target, event.propagation));
        Delivery::plan(self.global_listeners.len(), &visits, event.propagation)
    }
}

/// The delivery of an event that travels upwards from `target`, before its
/// first hand-over.
pub open spec fn up_delivery<V, M, E, G>(cx: &Context<V, M, E, G>, target: Entity) -> DeliveryModel {
    DeliveryModel {
        steps: plan_steps(cx.global_listeners@.len(), cx.visits_of(target, Propagation::Up)),
        levels: plan_levels(cx.global_listeners@.len(), cx.visits_of(target, Propagation::Up)),
        halting: true,
        cursor: 0,
    }
}

/// An event that is consumed at an ancestor goes no higher. Let an event
/// travel upwards from `target`, and let the hand-over with number `k`, at
/// the target or at one of its ancestors, be the first to leave the event
/// consumed. Call that entity A; it stands at place `a` in the chain of
/// ancestors of the target. Then every hand-over that happens is to a global
/// listener or at an entity of the chain at or below A, and every hand-over
/// of the plan at or below A happens, once.
pub proof fn lemma_up_event_stops_at_consumer<V, M, E, G>(
    cx: &Context<V, M, E, G>,
    target: Entity,
    marks: Seq<bool>,
    k: int,
)
    requires
        cx.wf(),
        marks.len() == up_delivery(cx, target).steps.len() + 1,
        0 <= k < up_delivery(cx, target).steps.len(),
        up_delivery(cx, target).levels[k] >= 1,
        forall|i: int| 0 <= i <= k ==> !marks[i],
        forall|i: int| k < i < marks.len() ==> marks[i],
    ensures
        ({
            let d = up_delivery(cx, target);
            let chain = cx.tree.ancestors(target);
            let a = d.levels[k] - 1;
            let happened = trace(d, marks);
            &&& 0 <= a < chain.len()
            &&& happened == d.steps.take(happened.len() as int)
            &&& forall|i: int|
                0 <= i < d.steps.len() ==> (i < happened.len() <==> (#[trigger] d.levels[i]) <= a + 1)
            &&& forall|i: int|
                0 <= i < happened.len() ==> (#[trigger] happened[i]) is Global || exists|l: int|
                    0 <= l <= a && (happened[i] == Step::Listener(chain[l]) || happened[i]
                        == Step::View(chain[l]))
        }),
{
    let d = up_delivery(cx, target);
    let chain = cx.tree.ancestors(target);
    let visits = cx.visits_of(target, Propagation::Up);
    let globals = cx.global_listeners@.len();
    assert(globals == cx.global_listeners.len());
    lemma_plan_wf(globals, visits);
    lemma_route(visits);
    lemma_consumed_stops_above(d, marks, k);
    lemma_stop_index(d, marks, 0);
    let happened = trace(d, marks);
    let stop = d.stop_index(marks, 0);
    assert(happened.len() == stop);
    assert(d.steps.subrange(0, stop as int) =~= d.steps.take(stop as int));
    assert(d.steps.len() == globals + route_steps(visits).len());
    let a = d.levels[k] - 1;
    assert(k >= globals) by {
        if k < globals {
            assert(d.levels[k] == 0);
        }
    }
    assert(d.levels[k] == route_levels(visits)[k - globals]);
    assert forall|i: int| 0 <= i < happened.len() implies (#[trigger] happened[i]) is Global
        || exists|l: int|
        0 <= l <= a && (happened[i] == Step::Listener(chain[l]) || happened[i] == Step::View(
            chain[l],
        )) by {
        assert(happened[i] == d.steps[i]);
        if i >= globals {
            let r = i - globals;
            assert(d.steps[i] == route_steps(visits)[r]);
            assert(d.levels[i] == route_levels(visits)[r]);
            let l = route_levels(visits)[r] - 1;
            assert(visits[l].entity == chain[l]);
            assert(d.levels[i] <= a + 1);
            assert(0 <= l <= a && (happened[i] == Step::Listener(chain[l]) || happened[i]
                == Step::View(chain[l])));
        } else {
            assert(d.levels[i] == 0);
        }
    }
}

/// Every event reaches every global listener first. Whatever the target of
/// an event is, however the event travels and whoever consumes it, its
/// hand-overs begin with one to each global listener of the context, in the
/// order in which `add_global_listener` registered them, and every hand-over
/// to a listener of an entity or to a view comes after all of them.
pub proof fn lemma_global_listeners_hear_every_event<V, M, E, G>(
    cx: &Context<V, M, E, G>,
    target: Entity,
    propagation: Propagation,
    marks: Seq<bool>,
)
    ensures
        ({
            let d = DeliveryModel {
                steps: plan_steps(cx.global_listeners@.len(), cx.visits_of(target, propagation)),
                levels: plan_levels(cx.global_listeners@.len(), cx.visits_of(target, propagation)),
                halting: propagation == Propagation::Up,
                cursor: 0,
            };
            let happened = trace(d, marks);
            &&& cx.global_listeners@.len() <= happened.len()
            &&& forall|i: int|
                0 <= i < cx.global_listeners@.len() ==> (#[trigger] happened[i]) == Step::Global(
                    i as usize,
                )
            &&& forall|i: int|
                cx.global_listeners@.len() <= i < happened.len() ==> !((
                #[trigger] happened[i]) is Global)
        }),
{
    let globals = cx.global_listeners@.len();
    assert(globals == cx.global_listeners.len());
    lemma_global_listeners_first(
        globals,
        cx.visits_of(target, propagation),
        propagation == Propagation::Up,
        marks,
    );
}

} // verus!
