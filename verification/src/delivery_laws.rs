//! What holds of every delivery, whatever the listeners do.

use crate::events::{
    global_steps, lemma_plan_wf, lemma_route, plan_levels, plan_steps, route_levels, route_steps,
    DeliveryModel, Step, Visit,
};
use vstd::prelude::*;

verus! {

/// The hand-overs that happen, one after the other, if the event is found in
/// state `marks[k]` after `k` hand-overs: what a caller gets who calls `next`
/// until it answers `None`.
pub open spec fn trace(m: DeliveryModel, marks: Seq<bool>) -> Seq<Step>
    decreases m.steps.len() - m.cursor,
{
    if m.cursor < m.steps.len() && m.next_step(marks[m.cursor as int]) is Some {
        seq![m.next_step(marks[m.cursor as int]).unwrap()] + trace(
            m.after_next(marks[m.cursor as int]),
            marks,
        )
    } else {
        Seq::empty()
    }
}

/// Where a delivery stops: between the hand-over it starts from and the end,
/// at the first hand-over that the state of the event forbids.
pub proof fn lemma_stop_index(m: DeliveryModel, marks: Seq<bool>, i: nat)
    requires
        i <= m.steps.len(),
    ensures
        i <= m.stop_index(marks, i) <= m.steps.len(),
        forall|j: int| i <= j < m.stop_index(marks, i) ==> !m.halts(j, marks[j]),
        m.stop_index(marks, i) < m.steps.len() ==> m.halts(
            m.stop_index(marks, i) as int,
            marks[m.stop_index(marks, i) as int],
        ),
    decreases m.steps.len() - i,
{
    if i < m.steps.len() && !m.halts(i as int, marks[i as int]) {
        lemma_stop_index(m, marks, i + 1);
    }
}

/// Where a delivery stops does not depend on how far it has come.
proof fn lemma_stop_index_cursor(m: DeliveryModel, c: nat, marks: Seq<bool>, i: nat)
    ensures
        (DeliveryModel { cursor: c, ..m }).stop_index(marks, i) == m.stop_index(marks, i),
    decreases m.steps.len() - i,
{
    let other = DeliveryModel { cursor: c, ..m };
    if i < m.steps.len() {
        assert(other.halts(i as int, marks[i as int]) == m.halts(i as int, marks[i as int]));
        if !m.halts(i as int, marks[i as int]) {
            lemma_stop_index_cursor(m, c, marks, i + 1);
        }
    }
}

/// Calling `next` until it answers `None` hands the event over exactly to
/// the hand-overs before the stop, each once and in order.
pub proof fn lemma_trace(m: DeliveryModel, marks: Seq<bool>)
    requires
        m.wf(),
    ensures
        trace(m, marks) == m.steps.subrange(
            m.cursor as int,
            m.stop_index(marks, m.cursor) as int,
        ),
    decreases m.steps.len() - m.cursor,
{
    lemma_stop_index(m, marks, m.cursor);
    if m.cursor < m.steps.len() && m.next_step(marks[m.cursor as int]) is Some {
        let after = m.after_next(marks[m.cursor as int]);
        lemma_trace(after, marks);
        lemma_stop_index(m, marks, m.cursor + 1);
        lemma_stop_index_cursor(m, m.cursor + 1, marks, m.cursor + 1);
        assert(after.stop_index(marks, after.cursor) == m.stop_index(marks, m.cursor + 1));
        assert(trace(m, marks) =~= m.steps.subrange(
            m.cursor as int,
            m.stop_index(marks, m.cursor) as int,
        ));
    } else {
        assert(trace(m, marks) =~= m.steps.subrange(
            m.cursor as int,
            m.stop_index(marks, m.cursor) as int,
        ));
    }
}

/// Global listeners come first. Whatever the target of an event, however it
/// travels and whoever consumes it, the delivery begins with one hand-over to
/// each global listener in the order of registration, and every hand-over to
/// a listener of an entity or to a view comes after all of them.
pub proof fn lemma_global_listeners_first(
    globals: nat,
    route: Seq<Visit>,
    halting: bool,
    marks: Seq<bool>,
)
    requires
        globals <= usize::MAX,
    ensures
        ({
            let m = DeliveryModel {
                steps: plan_steps(globals, route),
                levels: plan_levels(globals, route),
                halting,
                cursor: 0,
            };
            &&& globals <= trace(m, marks).len()
            &&& forall|i: int|
                0 <= i < globals ==> (#[trigger] trace(m, marks)[i]) == Step::Global(i as usize)
            &&& forall|i: int|
                globals <= i < trace(m, marks).len() ==> !((#[trigger] trace(m, marks)[i]) is Global)
        }),
{
    let m = DeliveryModel {
        steps: plan_steps(globals, route),
        levels: plan_levels(globals, route),
        halting,
        cursor: 0,
    };
    lemma_plan_wf(globals, route);
    lemma_route(route);
    lemma_trace(m, marks);
    lemma_stop_index(m, marks, 0);
    let stop = m.stop_index(marks, 0);
    assert(stop >= globals) by {
        if stop < globals {
            assert(m.levels[stop as int] == 0);
        }
    }
    assert forall|i: int| 0 <= i < globals implies (#[trigger] trace(m, marks)[i]) == Step::Global(
        i as usize,
    ) by {
        assert(trace(m, marks)[i] == m.steps[i]);
        assert(m.steps[i] == global_steps(globals)[i]);
    }
    assert forall|i: int| globals <= i < trace(m, marks).len() implies !((
    #[trigger] trace(m, marks)[i]) is Global) by {
        assert(trace(m, marks)[i] == m.steps[i]);
        assert(m.steps[i] == route_steps(route)[i - globals]);
    }
}

/// An event that travels upwards and is consumed at an entity goes no
/// higher. If the hand-over with number `k`, at the target or at one of its
/// ancestors, is the first to leave the event consumed, then exactly the
/// hand-overs up to the level of that entity happen, each once: those to the
/// global listeners, those at the entities below, and all of those at the
/// entity itself.
pub proof fn lemma_consumed_stops_above(m: DeliveryModel, marks: Seq<bool>, k: int)
    requires
        m.wf(),
        m.cursor == 0,
        m.halting,
        marks.len() == m.steps.len() + 1,
        0 <= k < m.steps.len(),
        m.levels[k] >= 1,
        forall|i: int| 0 <= i <= k ==> !marks[i],
        forall|i: int| k < i < marks.len() ==> marks[i],
    ensures
        trace(m, marks) == m.steps.subrange(0, m.stop_index(marks, 0) as int),
        forall|i: int|
            0 <= i < m.steps.len() ==> (i < m.stop_index(marks, 0) <==> (#[trigger] m.levels[i])
                <= m.levels[k]),
{
    lemma_trace(m, marks);
    lemma_stop_index(m, marks, 0);
    let stop = m.stop_index(marks, 0);
    assert forall|i: int| 0 <= i < m.steps.len() implies (i < stop <==> (#[trigger] m.levels[i])
        <= m.levels[k]) by {
        if m.levels[i] <= m.levels[k] && i >= stop {
            // The delivery would have stopped at or below the level of `k`.
            assert(m.halts(stop as int, marks[stop as int]));
            assert(m.levels[stop as int] <= m.levels[i]);
            if stop <= k {
                assert(!marks[stop as int]);
            } else {
                assert(m.levels[k] <= m.levels[stop - 1]);
            }
        }
        if m.levels[i] > m.levels[k] && i < stop {
            // Some hand-over between `k` and `i` is the first above the
            // level of `k`, and the delivery stops there.
            let j = lemma_first_above(m, k, i);
            assert(m.halts(j, marks[j]));
        }
    }
}

/// Between a hand-over and a later one at a higher level lies the first
/// hand-over above the level of the former.
proof fn lemma_first_above(m: DeliveryModel, k: int, i: int) -> (j: int)
    requires
        m.wf(),
        0 <= k < i < m.steps.len(),
        m.levels[k] >= 1,
        m.levels[i] > m.levels[k],
    ensures
        k < j <= i,
        m.levels[j] > m.levels[k],
        m.levels[j - 1] <= m.levels[k],
        m.at_boundary(j),
    decreases i - k,
{
    if m.levels[i - 1] <= m.levels[k] {
        assert(m.levels[k] <= m.levels[i - 1]);
        i
    } else {
        assert(i - 1 > k);
        lemma_first_above(m, k, i - 1)
    }
}

} // verus!
