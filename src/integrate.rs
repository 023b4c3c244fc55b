use std::collections::HashMap;
use vstd::prelude::*;
use crate::geometry::{Vec2i, round_div, div_round, lemma_round_div_le, spec_normalize, normalize, is_unit_bounded, near_unit, UNIT};
use crate::forces::{Agent, ApplyForceEvent, index_of_id, is_index, valid_snapshot, valid_agent, unique_ids, lemma_index_finds};

verus! {

broadcast use vstd::std_specs::hash::group_hash_axioms;

/// Simulation steps per second.
pub const FPS: i64 = 60;

/// Largest weight a force event may carry.
pub const MAX_FORCE_WEIGHT: i64 = 600;

pub open spec fn is_zero(v: Vec2i) -> bool {
    v.x == 0 && v.y == 0
}

/// Whether an event can be applied: a unit-bounded direction and a weight in range.
pub open spec fn valid_event(e: ApplyForceEvent) -> bool {
    is_unit_bounded(e.1) && 0 <= e.2 <= MAX_FORCE_WEIGHT
}

/// `h` moved toward `dir` by the factor `weight / FPS` (one step of the
/// weight's rate), then scaled back to unit length; `h` itself where the blend
/// vanishes.
pub open spec fn blend(h: Vec2i, dir: Vec2i, weight: i64) -> Vec2i {
    let bx = h.x + round_div((dir.x - h.x) * weight, FPS as int);
    let by = h.y + round_div((dir.y - h.y) * weight, FPS as int);
    match spec_normalize(bx, by) {
        Some(v) => v,
        None => h,
    }
}

/// The snapshot after one event: the named creature's heading is blended
/// toward the event's direction, unless the creature is unknown, has no
/// heading, or the event is malformed.
pub open spec fn apply_event(agents: Seq<Agent>, e: ApplyForceEvent) -> Seq<Agent> {
    match index_of_id(agents, e.0) {
        Some(j) => if is_zero(agents[j].heading) || !valid_event(e) {
            agents
        } else {
            agents.update(j, Agent { heading: blend(agents[j].heading, e.1, e.2), ..agents[j] })
        },
        None => agents,
    }
}

/// The snapshot after the events, applied one by one in their order.
pub open spec fn apply_events(agents: Seq<Agent>, events: Seq<ApplyForceEvent>) -> Seq<Agent>
    decreases events.len(),
{
    if events.len() == 0 {
        agents
    } else {
        apply_event(apply_events(agents, events.drop_last()), events.last())
    }
}

/// Blends heading `h` toward `dir` with factor `weight / FPS` and renormalizes.
pub fn blend_heading(h: Vec2i, dir: Vec2i, weight: i64) -> (r: Vec2i)
    requires
        is_unit_bounded(h),
        is_unit_bounded(dir),
        0 <= weight <= MAX_FORCE_WEIGHT,
    ensures
        r == blend(h, dir, weight),
        is_unit_bounded(r),
        near_unit(r) || r == h,
{
    let ex: i64 = dir.x - h.x;
    let ey: i64 = dir.y - h.y;
    let ghost lim = 2 * UNIT * MAX_FORCE_WEIGHT;
    assert(-lim <= ex * weight <= lim) by (nonlinear_arith)
        requires
            -2 * UNIT <= ex <= 2 * UNIT,
            0 <= weight <= MAX_FORCE_WEIGHT,
            lim == 2 * UNIT * MAX_FORCE_WEIGHT,
    ;
    assert(-lim <= ey * weight <= lim) by (nonlinear_arith)
        requires
            -2 * UNIT <= ey <= 2 * UNIT,
            0 <= weight <= MAX_FORCE_WEIGHT,
            lim == 2 * UNIT * MAX_FORCE_WEIGHT,
    ;
    let qx = div_round(ex * weight, FPS);
    let qy = div_round(ey * weight, FPS);
    proof {
        lemma_round_div_le(ex * weight, FPS as int, 20 * UNIT as int);
        lemma_round_div_le(ey * weight, FPS as int, 20 * UNIT as int);
    }
    let bx: i64 = h.x + qx;
    let by: i64 = h.y + qy;
    match normalize(bx, by) {
        Some(v) => v,
        None => h,
    }
}

/// Applies the frame's force events, in their order, to the creatures' headings.
pub fn apply_force_event_system(
    agents: &mut Vec<Agent>,
    index: &HashMap<u64, usize>,
    events: &Vec<ApplyForceEvent>,
)
    requires
        valid_snapshot(old(agents)@),
        is_index(index@, old(agents)@),
    ensures
        final(agents)@ == apply_events(old(agents)@, events@),
        valid_snapshot(final(agents)@),
        is_index(index@, final(agents)@),
{
    let ghost start = agents@;
    let mut t: usize = 0;
    assert(events@.take(0) =~= Seq::<ApplyForceEvent>::empty());
    while t < events.len()
        invariant
            t <= events@.len(),
            valid_snapshot(agents@),
            is_index(index@, agents@),
            agents@.len() == start.len(),
            agents@ == apply_events(start, events@.take(t as int)),
        decreases events@.len() - t,
    {
        let e = events[t];
        proof {
            lemma_index_finds(index@, agents@, e.0);
            assert(events@.take(t + 1).drop_last() =~= events@.take(t as int));
        }
        match index.get(&e.0) {
            Some(j) => {
                let j: usize = *j;
                let cur: Agent = agents[j];
                assert(valid_agent(cur));
                let bounded = -UNIT <= e.1.x && e.1.x <= UNIT && -UNIT <= e.1.y && e.1.y <= UNIT;
                if !(cur.heading.x == 0 && cur.heading.y == 0) && bounded && 0 <= e.2 && e.2
                    <= MAX_FORCE_WEIGHT {
                    let h = blend_heading(cur.heading, e.1, e.2);
                    let ghost before = agents@;
                    agents.set(j, Agent { heading: h, ..cur });
                    proof {
                        assert(agents@ =~= before.update(
                            j as int,
                            Agent { heading: blend(cur.heading, e.1, e.2), ..cur },
                        ));
                        assert forall|i: int| 0 <= i < agents@.len() implies valid_agent(
                            #[trigger] agents@[i],
                        ) by {
                            if i != j {
                                assert(agents@[i] == before[i]);
                            }
                        }
                        assert forall|a: int, b: int|
                            0 <= a < agents@.len() && 0 <= b < agents@.len() && a != b implies agents@[a].id
                            != agents@[b].id by {
                            assert(agents@[a].id == before[a].id);
                            assert(agents@[b].id == before[b].id);
                        }
                        assert forall|id: u64| #![trigger index@.contains_key(id)] index@.contains_key(id)
                            <==> exists|i: int| 0 <= i < agents@.len() && agents@[i].id == id by {
                            if index@.contains_key(id) {
                                let w = choose|i: int| 0 <= i < before.len() && before[i].id == id;
                                assert(agents@[w].id == id);
                            }
                            if exists|i: int| 0 <= i < agents@.len() && agents@[i].id == id {
                                let w = choose|i: int| 0 <= i < agents@.len() && agents@[i].id == id;
                                assert(before[w].id == id);
                            }
                        }
                        assert forall|id: u64| #![trigger index@[id]] index@.contains_key(id) implies index@[id]
                            < agents@.len() && agents@[index@[id] as int].id == id by {
                            assert(before[index@[id] as int].id == id);
                        }
                    }
                }
            },
            None => {},
        }
        t = t + 1;
    }
    proof {
        assert(events@.take(events@.len() as int) =~= events@);
    }
}

/// Applying an event keeps every creature's id in place.
pub proof fn lemma_apply_event_keeps_ids(agents: Seq<Agent>, e: ApplyForceEvent)
    ensures
        apply_event(agents, e).len() == agents.len(),
        forall|i: int| 0 <= i < agents.len() ==> (#[trigger] apply_event(agents, e)[i]).id == agents[i].id,
{
}

/// Applying events keeps every creature's id in place.
pub proof fn lemma_apply_events_keep_ids(agents: Seq<Agent>, events: Seq<ApplyForceEvent>)
    ensures
        apply_events(agents, events).len() == agents.len(),
        forall|i: int| 0 <= i < agents.len() ==> (#[trigger] apply_events(agents, events)[i]).id == agents[i].id,
    decreases events.len(),
{
    if events.len() > 0 {
        lemma_apply_events_keep_ids(agents, events.drop_last());
        lemma_apply_event_keeps_ids(apply_events(agents, events.drop_last()), events.last());
    }
}

/// Two snapshots with the same ids at every position find each id at the same place.
proof fn lemma_same_ids_same_index(s: Seq<Agent>, t: Seq<Agent>, id: u64)
    requires
        unique_ids(s),
        s.len() == t.len(),
        forall|i: int| 0 <= i < s.len() ==> #[trigger] t[i].id == s[i].id,
    ensures
        index_of_id(t, id) == index_of_id(s, id),
{
    if exists|i: int| 0 <= i < s.len() && s[i].id == id {
        let i = choose|i: int| 0 <= i < s.len() && s[i].id == id;
        assert(t[i].id == id);
        let j = choose|j: int| 0 <= j < t.len() && t[j].id == id;
        assert(s[j].id == id);
    } else {
        if exists|j: int| 0 <= j < t.len() && t[j].id == id {
            let j = choose|j: int| 0 <= j < t.len() && t[j].id == id;
            assert(s[j].id == id);
        }
    }
}

/// Events for two different creatures commute: applying them in either order
/// gives the same snapshot.
pub proof fn lemma_events_of_distinct_creatures_commute(agents: Seq<Agent>, e1: ApplyForceEvent, e2: ApplyForceEvent)
    requires
        unique_ids(agents),
        e1.0 != e2.0,
    ensures
        apply_event(apply_event(agents, e1), e2) == apply_event(apply_event(agents, e2), e1),
{
    let a1 = apply_event(agents, e1);
    let a2 = apply_event(agents, e2);
    lemma_apply_event_keeps_ids(agents, e1);
    lemma_apply_event_keeps_ids(agents, e2);
    lemma_same_ids_same_index(agents, a1, e2.0);
    lemma_same_ids_same_index(agents, a2, e1.0);
    match (index_of_id(agents, e1.0), index_of_id(agents, e2.0)) {
        (Some(j1), Some(j2)) => {
            assert(agents[j1].id == e1.0 && agents[j2].id == e2.0);
            assert(j1 != j2);
            assert(a1[j2] == agents[j2]);
            assert(a2[j1] == agents[j1]);
            assert(apply_event(a1, e2) =~= apply_event(a2, e1));
        },
        _ => {
            assert(apply_event(a1, e2) =~= apply_event(a2, e1));
        },
    }
}

/// Applying `x` then `y` is applying their concatenation.
pub proof fn lemma_apply_events_concat(agents: Seq<Agent>, x: Seq<ApplyForceEvent>, y: Seq<ApplyForceEvent>)
    ensures
        apply_events(agents, x + y) == apply_events(apply_events(agents, x), y),
    decreases y.len(),
{
    if y.len() == 0 {
        assert(x + y =~= x);
    } else {
        lemma_apply_events_concat(agents, x, y.drop_last());
        assert((x + y).drop_last() =~= x + y.drop_last());
        assert((x + y).last() == y.last());
    }
}

/// The order in which events of different creatures interleave does not
/// matter: swapping two neighbouring events that name different creatures
/// leaves the resulting headings unchanged. Every interleaving that keeps each
/// creature's own events in order is reached by such swaps.
pub proof fn lemma_interleaving_irrelevant(agents: Seq<Agent>, q: Seq<ApplyForceEvent>, i: int)
    requires
        unique_ids(agents),
        0 <= i < q.len() - 1,
        q[i].0 != q[i + 1].0,
    ensures
        apply_events(agents, q) == apply_events(
            agents,
            q.update(i, q[i + 1]).update(i + 1, q[i]),
        ),
{
    let q2 = q.update(i, q[i + 1]).update(i + 1, q[i]);
    let pre = q.take(i);
    let post = q.skip(i + 2);
    assert(q =~= pre + seq![q[i], q[i + 1]] + post);
    assert(q2 =~= pre + seq![q[i + 1], q[i]] + post);
    let s = apply_events(agents, pre);
    lemma_apply_events_keep_ids(agents, pre);
    assert(unique_ids(s)) by {
        assert forall|a: int, b: int| 0 <= a < s.len() && 0 <= b < s.len() && a != b implies s[a].id != s[b].id by {
            assert(s[a].id == agents[a].id);
            assert(s[b].id == agents[b].id);
        }
    }
    lemma_apply_events_concat(agents, pre + seq![q[i], q[i + 1]], post);
    lemma_apply_events_concat(agents, pre, seq![q[i], q[i + 1]]);
    lemma_apply_events_concat(agents, pre + seq![q[i + 1], q[i]], post);
    lemma_apply_events_concat(agents, pre, seq![q[i + 1], q[i]]);
    let ab = seq![q[i], q[i + 1]];
    let ba = seq![q[i + 1], q[i]];
    assert(ab.drop_last() =~= seq![q[i]]);
    assert(ba.drop_last() =~= seq![q[i + 1]]);
    assert(seq![q[i]].drop_last() =~= Seq::<ApplyForceEvent>::empty());
    assert(seq![q[i + 1]].drop_last() =~= Seq::<ApplyForceEvent>::empty());
    assert(apply_events(s, Seq::<ApplyForceEvent>::empty()) == s);
    assert(apply_events(s, seq![q[i]]) == apply_event(s, q[i]));
    assert(apply_events(s, seq![q[i + 1]]) == apply_event(s, q[i + 1]));
    assert(ab.last() == q[i + 1] && ba.last() == q[i]);
    assert(apply_events(s, ab) == apply_event(apply_event(s, q[i]), q[i + 1]));
    assert(apply_events(s, ba) == apply_event(apply_event(s, q[i + 1]), q[i]));
    lemma_events_of_distinct_creatures_commute(s, q[i], q[i + 1]);
}

} // verus!
