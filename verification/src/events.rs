//! Events, and the order in which an event is handed to those who listen.
//!
//! An event goes first to every global listener, in the order in which they
//! were registered. It then visits the entities on its route: the target
//! alone, the target and its ancestors, or the target and everything below
//! it. At each entity it goes to the listener that was registered for the
//! entity, if the view is of the type the listener was registered for, and
//! then to the view. An event that travels upwards and is found consumed when
//! it is about to move on to the next ancestor stops there.

use crate::entity::Entity;
use vstd::prelude::*;

verus! {

/// Which entities an event visits.
#[derive(Clone, Copy, Debug, PartialEq, Eq, Structural)]
pub enum Propagation {
    /// The target alone.
    Direct,
    /// The target, then each of its ancestors in turn, up to the root or
    /// until the event is consumed.
    Up,
    /// The target, then everything below it.
    Subtree,
}

/// What the core itself tells an entity.
#[derive(Clone, Copy, Debug, PartialEq, Eq, Structural)]
pub enum WindowEvent {
    /// The entity has got the focus.
    FocusIn,
    /// The entity has lost the focus.
    FocusOut,
}

/// What an event carries: a message of the core or one of the application.
pub enum Message<M> {
    Window(WindowEvent),
    Custom(M),
}

/// A message on its way.
pub struct Event<M> {
    pub message: Message<M>,
    /// The entity that raised the event.
    pub origin: Entity,
    /// The entity that is to get the event first.
    pub target: Entity,
    pub propagation: Propagation,
    /// Set by whoever handles the event to keep it from travelling on.
    pub consumed: bool,
}

impl<M> Event<M> {
    /// An event that carries `message`, has no origin and no target yet, and
    /// travels upwards.
    pub fn new(message: Message<M>) -> (ev: Event<M>)
        ensures
            ev.message == message,
            ev.origin == Entity::null(),
            ev.target == Entity::null(),
            ev.propagation == Propagation::Up,
            !ev.consumed,
    {
        Event {
            message,
            origin: Entity::null(),
            target: Entity::null(),
            propagation: Propagation::Up,
            consumed: false,
        }
    }

    /// The event with another target.
    pub fn target(self, entity: Entity) -> (ev: Event<M>)
        ensures
            ev == (Event { target: entity, ..self }),
    {
        let mut ev = self;
        ev.target = entity;
        ev
    }

    /// The event with another origin.
    pub fn origin(self, entity: Entity) -> (ev: Event<M>)
        ensures
            ev == (Event { origin: entity, ..self }),
    {
        let mut ev = self;
        ev.origin = entity;
        ev
    }

    /// The event with another way to travel.
    pub fn propagate(self, propagation: Propagation) -> (ev: Event<M>)
        ensures
            ev == (Event { propagation, ..self }),
    {
        let mut ev = self;
        ev.propagation = propagation;
        ev
    }

    /// Marks the event as consumed.
    pub fn consume(&mut self)
        ensures
            *final(self) == (Event { consumed: true, ..*old(self) }),
    {
        self.consumed = true;
    }
}

/// One hand-over of an event.
#[derive(Clone, Copy, Debug, PartialEq, Eq, Structural)]
pub enum Step {
    /// To the global listener with this number.
    Global(usize),
    /// To the listener registered for this entity.
    Listener(Entity),
    /// To the view of this entity.
    View(Entity),
}

/// An entity on the route of an event, with what is known of it when the
/// event sets out.
#[derive(Clone, Copy, Debug, PartialEq, Eq, Structural)]
pub struct Visit {
    pub entity: Entity,
    /// A listener is registered for the entity and for the type of its view.
    pub listener: bool,
    /// The entity has a view.
    pub view: bool,
}

/// The hand-overs at one entity: to the listener, then to the view.
pub open spec fn visit_steps(v: Visit) -> Seq<Step> {
    (if v.listener {
        seq![Step::Listener(v.entity)]
    } else {
        Seq::empty()
    }) + (if v.view {
        seq![Step::View(v.entity)]
    } else {
        Seq::empty()
    })
}

/// The hand-overs at the entities of a route, in the order of the route.
pub open spec fn route_steps(route: Seq<Visit>) -> Seq<Step>
    decreases route.len(),
{
    if route.len() == 0 {
        Seq::empty()
    } else {
        route_steps(route.drop_last()) + visit_steps(route.last())
    }
}

/// For each hand-over of `route_steps`, the place on the route of the entity
/// it happens at, counted from 1.
pub open spec fn route_levels(route: Seq<Visit>) -> Seq<nat>
    decreases route.len(),
{
    if route.len() == 0 {
        Seq::empty()
    } else {
        route_levels(route.drop_last()) + Seq::new(
            visit_steps(route.last()).len(),
            |i: int| route.len(),
        )
    }
}

/// The hand-overs to `n` global listeners in the order of registration.
pub open spec fn global_steps(n: nat) -> Seq<Step> {
    Seq::new(n, |i: int| Step::Global(i as usize))
}

/// All hand-overs of an event: the global listeners, then the route.
pub open spec fn plan_steps(globals: nat, route: Seq<Visit>) -> Seq<Step> {
    global_steps(globals) + route_steps(route)
}

/// The level of each hand-over of `plan_steps`: 0 for a global listener, and
/// else the place of the entity on the route, counted from 1.
pub open spec fn plan_levels(globals: nat, route: Seq<Visit>) -> Seq<nat> {
    Seq::new(globals, |i: int| 0nat) + route_levels(route)
}

/// The state of a delivery as plain mathematical values.
pub struct DeliveryModel {
    /// All hand-overs that can happen, in order.
    pub steps: Seq<Step>,
    /// The level of each.
    pub levels: Seq<nat>,
    /// Whether the event stops at the next ancestor once it is consumed.
    pub halting: bool,
    /// How many hand-overs have been given out.
    pub cursor: nat,
}

impl DeliveryModel {
    /// The invariant of a delivery: the levels never fall, and the
    /// hand-overs at level 0 are exactly those to the global listeners,
    /// numbered as they stand.
    pub open spec fn wf(self) -> bool {
        &&& self.steps.len() == self.levels.len()
        &&& self.cursor <= self.steps.len()
        &&& forall|i: int, j: int|
            0 <= i <= j < self.levels.len() ==> self.levels[i] <= self.levels[j]
        &&& forall|i: int|
            0 <= i < self.steps.len() ==> ((#[trigger] self.levels[i]) == 0 <==> self.steps[i]
                == Step::Global(i as usize))
        &&& forall|i: int|
            0 <= i < self.steps.len() ==> ((#[trigger] self.levels[i]) == 0 <==> self.steps[i] is Global)
    }

    /// Hand-over `i` is the first at an ancestor of the target.
    pub open spec fn at_boundary(self, i: int) -> bool {
        self.levels[i] >= 2 && (i == 0 || self.levels[i - 1] < self.levels[i])
    }

    /// The delivery ends before hand-over `i` if the event is found in the
    /// state `consumed` there.
    pub open spec fn halts(self, i: int, consumed: bool) -> bool {
        self.halting && consumed && self.at_boundary(i)
    }

    /// The hand-over that `next` gives out.
    pub open spec fn next_step(self, consumed: bool) -> Option<Step> {
        if self.cursor < self.steps.len() && !self.halts(self.cursor as int, consumed) {
            Some(self.steps[self.cursor as int])
        } else {
            None
        }
    }

    /// The state after `next`.
    pub open spec fn after_next(self, consumed: bool) -> DeliveryModel {
        if self.cursor < self.steps.len() && !self.halts(self.cursor as int, consumed) {
            DeliveryModel { cursor: self.cursor + 1, ..self }
        } else {
            DeliveryModel { cursor: self.steps.len(), ..self }
        }
    }

    /// How many hand-overs happen in all, from hand-over `i` on, if the event
    /// is found in state `marks[k]` after `k` hand-overs.
    pub open spec fn stop_index(self, marks: Seq<bool>, i: nat) -> nat
        decreases self.steps.len() - i,
    {
        if i >= self.steps.len() {
            self.steps.len()
        } else if self.halts(i as int, marks[i as int]) {
            i
        } else {
            self.stop_index(marks, i + 1)
        }
    }
}

/// Levels as they are stored, read as numbers.
pub open spec fn as_levels(levels: Seq<usize>) -> Seq<nat> {
    Seq::new(levels.len(), |i: int| levels[i] as nat)
}

/// The delivery of one event: which hand-over comes next.
pub struct Delivery {
    steps: Vec<Step>,
    levels: Vec<usize>,
    halting: bool,
    cursor: usize,
}

impl View for Delivery {
    type V = DeliveryModel;

    closed spec fn view(&self) -> DeliveryModel {
        DeliveryModel {
            steps: self.steps@,
            levels: as_levels(self.levels@),
            halting: self.halting,
            cursor: self.cursor as nat,
        }
    }
}

impl Delivery {
    /// The invariant of a delivery.
    pub open spec fn wf(&self) -> bool {
        self@.wf()
    }

    /// Plans the delivery of an event to `globals` global listeners and along
    /// `route`.
    pub fn plan(globals: usize, route: &Vec<Visit>, propagation: Propagation) -> (d: Delivery)
        ensures
            d.wf(),
            d@.steps == plan_steps(globals as nat, route@),
            d@.levels == plan_levels(globals as nat, route@),
            d@.halting == (propagation == Propagation::Up),
            d@.cursor == 0,
    {
        let mut steps: Vec<Step> = Vec::new();
        let mut levels: Vec<usize> = Vec::new();
        let mut g: usize = 0;
        while g < globals
            invariant
                g <= globals,
                steps@ == global_steps(g as nat),
                levels@.len() == g,
                forall|i: int| 0 <= i < g ==> levels@[i] == 0,
            decreases globals - g,
        {
            steps.push(Step::Global(g));
            levels.push(0);
            g += 1;
            proof {
                assert(steps@ =~= global_steps(g as nat));
            }
        }
        let mut k: usize = 0;
        proof {
            assert(route@.take(0) =~= Seq::<Visit>::empty());
            assert(steps@ =~= plan_steps(globals as nat, route@.take(0)));
            assert(as_levels(levels@) =~= plan_levels(
                globals as nat,
                route@.take(0),
            ));
        }
        while k < route.len()
            invariant
                k <= route.len(),
                steps@ == plan_steps(globals as nat, route@.take(k as int)),
                as_levels(levels@) == plan_levels(
                    globals as nat,
                    route@.take(k as int),
                ),
            decreases route.len() - k,
        {
            let v = route[k];
            let ghost before_steps = steps@;
            let ghost before_levels = as_levels(levels@);
            proof {
                let next = route@.take(k + 1);
                assert(next.drop_last() =~= route@.take(k as int));
                assert(next.last() == v);
            }
            if v.listener {
                steps.push(Step::Listener(v.entity));
                levels.push(k + 1);
            }
            if v.view {
                steps.push(Step::View(v.entity));
                levels.push(k + 1);
            }
            proof {
                assert(steps@ =~= before_steps + visit_steps(v));
                assert(as_levels(levels@) =~= before_levels + Seq::new(
                    visit_steps(v).len(),
                    |i: int| (k + 1) as nat,
                ));
                assert(steps@ =~= plan_steps(globals as nat, route@.take(k + 1)));
                assert(as_levels(levels@) =~= plan_levels(
                    globals as nat,
                    route@.take(k + 1),
                ));
            }
            k += 1;
        }
        proof {
            assert(route@.take(k as int) =~= route@);
            lemma_plan_wf(globals as nat, route@);
        }
        Delivery { steps, levels, halting: propagation == Propagation::Up, cursor: 0 }
    }

    /// Gives out the next hand-over of the event, which is said to be
    /// `consumed` or not as it stands now; `None` when the delivery is over.
    pub fn next(&mut self, consumed: bool) -> (r: Option<Step>)
        requires
            old(self).wf(),
        ensures
            final(self).wf(),
            r == old(self)@.next_step(consumed),
            final(self)@ == old(self)@.after_next(consumed),
    {
        if self.cursor >= self.steps.len() {
            self.cursor = self.steps.len();
            return None;
        }
        let i = self.cursor;
        let boundary = self.levels[i] >= 2 && (i == 0 || self.levels[i - 1] < self.levels[i]);
        if self.halting && consumed && boundary {
            self.cursor = self.steps.len();
            None
        } else {
            self.cursor = i + 1;
            Some(self.steps[i])
        }
    }

    /// Whether every hand-over has been given out or the delivery was
    /// stopped.
    pub fn is_done(&self) -> (b: bool)
        requires
            self.wf(),
        ensures
            b == (self@.cursor == self@.steps.len()),
    {
        self.cursor == self.steps.len()
    }
}

/// The levels of the hand-overs on a route lie between 1 and the length of
/// the route and never fall, and none of the hand-overs is to a global
/// listener.
pub proof fn lemma_route(route: Seq<Visit>)
    ensures
        route_steps(route).len() == route_levels(route).len(),
        forall|i: int|
            0 <= i < route_levels(route).len() ==> 1 <= (#[trigger] route_levels(route)[i])
                <= route.len(),
        forall|i: int, j: int|
            0 <= i <= j < route_levels(route).len() ==> route_levels(route)[i] <= route_levels(
                route,
            )[j],
        forall|i: int|
            0 <= i < route_steps(route).len() ==> !((#[trigger] route_steps(route)[i]) is Global),
        forall|i: int|
            0 <= i < route_steps(route).len() ==> {
                let v = route[route_levels(route)[i] - 1];
                (#[trigger] route_steps(route)[i]) == Step::Listener(v.entity) && v.listener
                    || route_steps(route)[i] == Step::View(v.entity) && v.view
            },
    decreases route.len(),
{
    if route.len() > 0 {
        let front = route.drop_last();
        lemma_route(front);
        let a = route_steps(front);
        let b = visit_steps(route.last());
        let la = route_levels(front);
        let lb = Seq::new(b.len(), |i: int| route.len());
        assert(route_steps(route) == a + b);
        assert(route_levels(route) == la + lb);
        assert forall|i: int| 0 <= i < route_levels(route).len() implies 1 <= (
        #[trigger] route_levels(route)[i]) <= route.len() by {
            if i < la.len() {
                assert(route_levels(route)[i] == la[i]);
            } else {
                assert(route_levels(route)[i] == lb[i - la.len()]);
            }
        }
        assert forall|i: int, j: int| 0 <= i <= j < route_levels(route).len() implies route_levels(
            route,
        )[i] <= route_levels(route)[j] by {
            if j < la.len() {
                assert(route_levels(route)[i] == la[i]);
                assert(route_levels(route)[j] == la[j]);
            } else {
                assert(route_levels(route)[j] == lb[j - la.len()]);
                if i < la.len() {
                    assert(route_levels(route)[i] == la[i]);
                } else {
                    assert(route_levels(route)[i] == lb[i - la.len()]);
                }
            }
        }
        assert forall|i: int| 0 <= i < route_steps(route).len() implies !((
        #[trigger] route_steps(route)[i]) is Global) by {
            if i < a.len() {
                assert(route_steps(route)[i] == a[i]);
            } else {
                assert(route_steps(route)[i] == b[i - a.len()]);
            }
        }
        assert forall|i: int| 0 <= i < route_steps(route).len() implies {
            let v = route[route_levels(route)[i] - 1];
            (#[trigger] route_steps(route)[i]) == Step::Listener(v.entity) && v.listener
                || route_steps(route)[i] == Step::View(v.entity) && v.view
        } by {
            if i < a.len() {
                assert(route_steps(route)[i] == a[i]);
                assert(route_levels(route)[i] == la[i]);
                assert(front[la[i] - 1] == route[la[i] - 1]);
            } else {
                assert(route_steps(route)[i] == b[i - a.len()]);
                assert(route_levels(route)[i] == lb[i - la.len()]);
            }
        }
    }
}

/// A plan is a well-formed delivery that has not begun.
pub proof fn lemma_plan_wf(globals: nat, route: Seq<Visit>)
    requires
        globals <= usize::MAX,
    ensures
        (DeliveryModel {
            steps: plan_steps(globals, route),
            levels: plan_levels(globals, route),
            halting: true,
            cursor: 0,
        }).wf(),
        (DeliveryModel {
            steps: plan_steps(globals, route),
            levels: plan_levels(globals, route),
            halting: false,
            cursor: 0,
        }).wf(),
{
    lemma_route(route);
    let steps = plan_steps(globals, route);
    let levels = plan_levels(globals, route);
    assert forall|i: int, j: int| 0 <= i <= j < levels.len() implies levels[i] <= levels[j] by {
        if i >= globals {
            assert(levels[i] == route_levels(route)[i - globals]);
            assert(levels[j] == route_levels(route)[j - globals]);
        }
    }
    assert forall|i: int| 0 <= i < steps.len() implies ((#[trigger] levels[i]) == 0 <==> steps[i]
        == Step::Global(i as usize)) by {
        if i >= globals {
            assert(levels[i] == route_levels(route)[i - globals]);
            assert(steps[i] == route_steps(route)[i - globals]);
            assert(!(route_steps(route)[i - globals] is Global));
        }
    }
    assert forall|i: int| 0 <= i < steps.len() implies ((#[trigger] levels[i]) == 0 <==> steps[i] is Global) by {
        if i >= globals {
            assert(levels[i] == route_levels(route)[i - globals]);
            assert(steps[i] == route_steps(route)[i - globals]);
            assert(!(route_steps(route)[i - globals] is Global));
        }
    }
}

} // verus!
