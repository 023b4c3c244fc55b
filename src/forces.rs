use std::collections::HashMap;
use vstd::prelude::*;
use crate::geometry::{
    Vec2i, in_world, dist_sq, trunc_div, spec_normalize, normalize, is_unit_bounded, UNIT,
    WORLD_LIMIT,
};
use crate::grid::{CacheGrid, query_result};

verus! {

broadcast use vstd::std_specs::hash::group_hash_axioms;

/// How far a creature sees its flock mates, in world units.
pub const CREATURE_VISION: i64 = 110;

/// Weight of a force that pushes a creature off a neighbour it touches.
pub const CREATURE_COLLISION_AVOIDANCE: i64 = 4;

/// Weight of the pull toward the centre of the flock mates in sight.
pub const CREATURE_COHESION: i64 = 5;

/// Weight of the push away from the centre of the close flock mates.
pub const CREATURE_SEPARATION: i64 = 3;

/// Weight of the pull toward the mean heading of the flock mates in sight.
pub const CREATURE_ALIGNMENT: i64 = 15;

/// Weight of the pull toward a chased or followed player.
pub const CREATURE_CHASE: i64 = 15;

/// Largest creature size.
pub const MAX_CREATURE_SIZE: i64 = 65536;

/// Largest number of agents in a snapshot.
pub const MAX_AGENTS: usize = 1048576;

/// A creature as the force computation sees it, frozen for one frame.
#[derive(Debug, Clone, Copy, PartialEq, Eq)]
pub struct Agent {
    pub id: u64,
    pub position: Vec2i,
    /// Unit heading, scaled by `UNIT`.
    pub heading: Vec2i,
    /// The player that owns the creature, if any; creatures flock with those of
    /// the same owner.
    pub kind: Option<u64>,
    pub size: i64,
    /// Distance under which the creature stops tailing its owner.
    pub follow: Option<i64>,
    /// The player the creature is chasing.
    pub target: Option<u64>,
    /// Frames left until the creature's next strike on its target.
    pub attack_cooldown: u32,
}

/// A request to turn entity `.0` toward unit direction `.1` with weight `.2`.
#[derive(Debug, Clone, Copy, PartialEq, Eq, Structural)]
pub struct ApplyForceEvent(pub u64, pub Vec2i, pub i64);

pub open spec fn valid_agent(a: Agent) -> bool {
    &&& in_world(a.position)
    &&& is_unit_bounded(a.heading)
    &&& 0 <= a.size <= MAX_CREATURE_SIZE
    &&& a.follow matches Some(d) ==> 0 <= d <= WORLD_LIMIT
}

pub open spec fn unique_ids(agents: Seq<Agent>) -> bool {
    forall|i: int, j: int|
        0 <= i < agents.len() && 0 <= j < agents.len() && i != j ==> agents[i].id != agents[j].id
}

/// A snapshot of the creatures for one frame: valid agents with distinct ids.
pub open spec fn valid_snapshot(agents: Seq<Agent>) -> bool {
    &&& agents.len() <= MAX_AGENTS
    &&& unique_ids(agents)
    &&& forall|i: int| 0 <= i < agents.len() ==> valid_agent(#[trigger] agents[i])
}

pub open spec fn valid_players(players: Seq<(u64, Vec2i)>) -> bool {
    forall|i: int| 0 <= i < players.len() ==> in_world(#[trigger] players[i].1)
}

/// Position in the snapshot of the agent with id `id`.
pub open spec fn index_of_id(agents: Seq<Agent>, id: u64) -> Option<int> {
    if exists|i: int| 0 <= i < agents.len() && agents[i].id == id {
        Some(choose|i: int| 0 <= i < agents.len() && agents[i].id == id)
    } else {
        None
    }
}

/// `m` maps each id of the snapshot to its position.
pub open spec fn is_index(m: Map<u64, usize>, agents: Seq<Agent>) -> bool {
    &&& forall|id: u64|
        #![trigger m.contains_key(id)]
        m.contains_key(id) <==> exists|i: int| 0 <= i < agents.len() && agents[i].id == id
    &&& forall|id: u64|
        #![trigger m[id]]
        m.contains_key(id) ==> m[id] < agents.len() && agents[m[id] as int].id == id
}

/// Position of the first player with id `id`.
pub open spec fn player_position(players: Seq<(u64, Vec2i)>, id: u64) -> Option<Vec2i>
    decreases players.len(),
{
    if players.len() == 0 {
        None
    } else if players[0].0 == id {
        Some(players[0].1)
    } else {
        player_position(players.drop_first(), id)
    }
}

/// One event toward `dir`, or none where there is no direction.
pub open spec fn event_toward(id: u64, dir: Option<Vec2i>, weight: i64) -> Seq<ApplyForceEvent> {
    match dir {
        Some(d) => seq![ApplyForceEvent(id, d, weight)],
        None => Seq::empty(),
    }
}

/// The chase toward player position `p`, when the creature is farther than `reach`.
pub open spec fn chase_toward(a: Agent, p: Option<Vec2i>, reach: int) -> Seq<ApplyForceEvent> {
    match p {
        Some(q) => if dist_sq(a.position, q) > reach * reach {
            event_toward(
                a.id,
                spec_normalize(q.x - a.position.x, q.y - a.position.y),
                CREATURE_CHASE,
            )
        } else {
            Seq::empty()
        },
        None => Seq::empty(),
    }
}

/// The chase or follow force of a creature: a target always wins over the
/// owner it follows.
pub open spec fn chase_events(a: Agent, players: Seq<(u64, Vec2i)>) -> Seq<ApplyForceEvent> {
    match a.target {
        Some(t) => chase_toward(a, player_position(players, t), 1),
        None => match (a.follow, a.kind) {
            (Some(d), Some(owner)) => chase_toward(a, player_position(players, owner), d as int),
            _ => Seq::empty(),
        },
    }
}

/// The neighbour a candidate id names, unless it is `a` itself or unknown.
pub open spec fn other_agent(agents: Seq<Agent>, a: Agent, id: u64) -> Option<Agent> {
    match index_of_id(agents, id) {
        Some(j) => if agents[j].id != a.id {
            Some(agents[j])
        } else {
            None
        },
        None => None,
    }
}

/// The flock mates of `a` within `sqrt(r2)` among the candidates, in candidate order.
pub open spec fn mates(agents: Seq<Agent>, a: Agent, cands: Seq<u64>, r2: int) -> Seq<Agent>
    decreases cands.len(),
{
    if cands.len() == 0 {
        Seq::empty()
    } else {
        let prev = mates(agents, a, cands.drop_last(), r2);
        match other_agent(agents, a, cands.last()) {
            Some(b) => if b.kind == a.kind && dist_sq(a.position, b.position) <= r2 {
                prev.push(b)
            } else {
                prev
            },
            None => prev,
        }
    }
}

/// The pushes away from every candidate neighbour, of any kind, that `a` touches.
pub open spec fn avoid_events(agents: Seq<Agent>, a: Agent, cands: Seq<u64>) -> Seq<ApplyForceEvent>
    decreases cands.len(),
{
    if cands.len() == 0 {
        Seq::empty()
    } else {
        let prev = avoid_events(agents, a, cands.drop_last());
        match other_agent(agents, a, cands.last()) {
            Some(b) => if dist_sq(a.position, b.position) <= (2 * a.size) * (2 * a.size) {
                prev + event_toward(
                    a.id,
                    spec_normalize(
                        a.position.x - b.position.x,
                        a.position.y - b.position.y,
                    ),
                    CREATURE_COLLISION_AVOIDANCE,
                )
            } else {
                prev
            },
            None => prev,
        }
    }
}

pub open spec fn sum_x(s: Seq<Agent>) -> int
    decreases s.len(),
{
    if s.len() == 0 { 0 } else { sum_x(s.drop_last()) + s.last().position.x }
}

pub open spec fn sum_y(s: Seq<Agent>) -> int
    decreases s.len(),
{
    if s.len() == 0 { 0 } else { sum_y(s.drop_last()) + s.last().position.y }
}

pub open spec fn sum_hx(s: Seq<Agent>) -> int
    decreases s.len(),
{
    if s.len() == 0 { 0 } else { sum_hx(s.drop_last()) + s.last().heading.x }
}

pub open spec fn sum_hy(s: Seq<Agent>) -> int
    decreases s.len(),
{
    if s.len() == 0 { 0 } else { sum_hy(s.drop_last()) + s.last().heading.y }
}

/// Cohesion and alignment toward the mates in sight, then separation from the
/// close ones.
pub open spec fn flock_tail(a: Agent, seen: Seq<Agent>, close: Seq<Agent>) -> Seq<ApplyForceEvent> {
    let n = seen.len() as int;
    let m = close.len() as int;
    (if n > 0 {
        event_toward(
            a.id,
            spec_normalize(trunc_div(sum_x(seen), n) - a.position.x, trunc_div(sum_y(seen), n) - a.position.y),
            CREATURE_COHESION,
        ) + event_toward(
            a.id,
            spec_normalize(trunc_div(sum_hx(seen), n), trunc_div(sum_hy(seen), n)),
            CREATURE_ALIGNMENT,
        )
    } else {
        Seq::empty()
    }) + (if m > 0 {
        event_toward(
            a.id,
            spec_normalize(a.position.x - trunc_div(sum_x(close), m), a.position.y - trunc_div(sum_y(close), m)),
            CREATURE_SEPARATION,
        )
    } else {
        Seq::empty()
    })
}

/// The flocking forces of `a` given its candidate neighbours.
pub open spec fn flock_events(agents: Seq<Agent>, a: Agent, cands: Seq<u64>) -> Seq<ApplyForceEvent> {
    avoid_events(agents, a, cands) + flock_tail(
        a,
        mates(agents, a, cands, CREATURE_VISION * CREATURE_VISION),
        mates(agents, a, cands, (CREATURE_VISION / 2) * (CREATURE_VISION / 2)),
    )
}

/// A truncated mean stays within the bound of the values it averages.
pub proof fn lemma_trunc_mean_bound(s: int, n: int, b: int)
    requires
        n > 0,
        b >= 0,
        -(n * b) <= s <= n * b,
    ensures
        -b <= trunc_div(s, n) <= b,
{
    vstd::arithmetic::div_mod::lemma_div_by_multiple(b, n);
    assert(b * n == n * b) by (nonlinear_arith);
    if s >= 0 {
        vstd::arithmetic::div_mod::lemma_div_is_ordered(s, n * b, n);
        vstd::arithmetic::div_mod::lemma_div_pos_is_pos(s, n);
    } else {
        vstd::arithmetic::div_mod::lemma_div_is_ordered(-s, n * b, n);
        vstd::arithmetic::div_mod::lemma_div_pos_is_pos(-s, n);
    }
}

/// Division rounding toward zero.
fn div_trunc_wide(n: i128, d: i128) -> (r: i128)
    requires
        d > 0,
        -4611686018427387904 * 4611686018427387904 <= n <= 4611686018427387904 * 4611686018427387904,
    ensures
        r == trunc_div(n as int, d as int),
{
    if n >= 0 {
        n / d
    } else {
        let m: i128 = -n;
        let q: i128 = m / d;
        proof {
            vstd::arithmetic::div_mod::lemma_div_pos_is_pos(m as int, d as int);
            vstd::arithmetic::div_mod::lemma_div_is_ordered_by_denominator(m as int, 1, d as int);
        }
        -q
    }
}

/// Squared distance between two points of the world.
pub fn distance_sq(a: Vec2i, b: Vec2i) -> (r: i64)
    requires
        in_world(a),
        in_world(b),
    ensures
        r == dist_sq(a, b),
        0 <= r <= 8796093022208,
{
    let dx: i64 = a.x - b.x;
    let dy: i64 = a.y - b.y;
    assert(dx * dx <= 4398046511104) by (nonlinear_arith)
        requires
            -2097152 <= dx <= 2097152,
    ;
    assert(dy * dy <= 4398046511104) by (nonlinear_arith)
        requires
            -2097152 <= dy <= 2097152,
    ;
    assert(dx * dx >= 0 && dy * dy >= 0) by (nonlinear_arith);
    dx * dx + dy * dy
}

fn same_kind(x: Option<u64>, y: Option<u64>) -> (r: bool)
    ensures
        r == (x == y),
{
    match (x, y) {
        (Some(a), Some(b)) => a == b,
        (None, None) => true,
        _ => false,
    }
}

fn push_toward(out: &mut Vec<ApplyForceEvent>, id: u64, dir: Option<Vec2i>, weight: i64)
    ensures
        final(out)@ == old(out)@ + event_toward(id, dir, weight),
{
    match dir {
        Some(d) => {
            out.push(ApplyForceEvent(id, d, weight));
        },
        None => {},
    }
    proof {
        assert(final(out)@ =~= old(out)@ + event_toward(id, dir, weight));
    }
}

pub proof fn lemma_index_finds(m: Map<u64, usize>, agents: Seq<Agent>, id: u64)
    requires
        is_index(m, agents),
        unique_ids(agents),
    ensures
        m.contains_key(id) ==> index_of_id(agents, id) == Some(m[id] as int),
        !m.contains_key(id) ==> index_of_id(agents, id) is None,
{
    if m.contains_key(id) {
        let i = m[id] as int;
        assert(agents[i].id == id);
        let c = choose|c: int| 0 <= c < agents.len() && agents[c].id == id;
        assert(c == i);
    }
}

/// Maps each agent's id to its position in the snapshot.
pub fn index_agents(agents: &Vec<Agent>) -> (m: HashMap<u64, usize>)
    requires
        unique_ids(agents@),
    ensures
        is_index(m@, agents@),
{
    let mut m: HashMap<u64, usize> = HashMap::new();
    let mut i: usize = 0;
    while i < agents.len()
        invariant
            i <= agents@.len(),
            unique_ids(agents@),
            forall|id: u64|
                #![trigger m@.contains_key(id)]
                m@.contains_key(id) <==> exists|k: int| 0 <= k < i && agents@[k].id == id,
            forall|id: u64|
                #![trigger m@[id]]
                m@.contains_key(id) ==> m@[id] < i && agents@[m@[id] as int].id == id,
        decreases agents@.len() - i,
    {
        let id = agents[i].id;
        m.insert(id, i);
        proof {
            assert forall|x: u64| #![trigger m@.contains_key(x)] m@.contains_key(x) <==> exists|k: int|
                0 <= k < i + 1 && agents@[k].id == x by {
                if x == id {
                    assert(agents@[i as int].id == x);
                }
                if exists|k: int| 0 <= k < i + 1 && agents@[k].id == x {
                    let k = choose|k: int| 0 <= k < i + 1 && agents@[k].id == x;
                    if k < i {
                    }
                }
            }
        }
        i = i + 1;
    }
    m
}

/// Position of the first player with id `id`.
pub fn find_player(players: &Vec<(u64, Vec2i)>, id: u64) -> (r: Option<Vec2i>)
    ensures
        r == player_position(players@, id),
{
    let mut i: usize = 0;
    assert(players@.subrange(0, players@.len() as int) =~= players@);
    while i < players.len()
        invariant
            i <= players@.len(),
            player_position(players@, id) == player_position(players@.subrange(i as int, players@.len() as int), id),
        decreases players@.len() - i,
    {
        let ghost rest = players@.subrange(i as int, players@.len() as int);
        assert(rest[0] == players@[i as int]);
        if players[i].0 == id {
            return Some(players[i].1);
        }
        assert(rest.drop_first() =~= players@.subrange(i + 1, players@.len() as int));
        i = i + 1;
    }
    assert(players@.subrange(i as int, players@.len() as int).len() == 0);
    None
}

fn chase_toward_exec(a: &Agent, p: Option<Vec2i>, reach: i64, out: &mut Vec<ApplyForceEvent>)
    requires
        valid_agent(*a),
        0 <= reach <= WORLD_LIMIT,
        p matches Some(q) ==> in_world(q),
    ensures
        final(out)@ == old(out)@ + chase_toward(*a, p, reach as int),
{
    match p {
        Some(q) => {
            let d2 = distance_sq(a.position, q);
            assert(reach * reach <= WORLD_LIMIT * WORLD_LIMIT) by (nonlinear_arith)
                requires
                    0 <= reach <= WORLD_LIMIT,
            ;
            if d2 > reach * reach {
                let dir = normalize(q.x - a.position.x, q.y - a.position.y);
                push_toward(out, a.id, dir, CREATURE_CHASE);
            } else {
                proof {
                    assert(final(out)@ =~= old(out)@ + chase_toward(*a, p, reach as int));
                }
            }
        },
        None => {
            proof {
                assert(final(out)@ =~= old(out)@ + chase_toward(*a, p, reach as int));
            }
        },
    }
}

pub proof fn lemma_player_position_in_world(players: Seq<(u64, Vec2i)>, id: u64)
    requires
        valid_players(players),
    ensures
        player_position(players, id) matches Some(q) ==> in_world(q),
    decreases players.len(),
{
    if players.len() > 0 && players[0].0 != id {
        assert forall|i: int| 0 <= i < players.drop_first().len() implies in_world(
            #[trigger] players.drop_first()[i].1,
        ) by {
            assert(players.drop_first()[i] == players[i + 1]);
        }
        lemma_player_position_in_world(players.drop_first(), id);
    }
}

/// The chase or follow force of creature `a` toward the players.
pub fn chase_force(a: &Agent, players: &Vec<(u64, Vec2i)>) -> (r: Vec<ApplyForceEvent>)
    requires
        valid_agent(*a),
        valid_players(players@),
    ensures
        r@ == chase_events(*a, players@),
{
    let mut out: Vec<ApplyForceEvent> = Vec::new();
    match a.target {
        Some(t) => {
            let p = find_player(players, t);
            proof {
                lemma_player_position_in_world(players@, t);
            }
            chase_toward_exec(a, p, 1, &mut out);
        },
        None => match (a.follow, a.kind) {
            (Some(d), Some(owner)) => {
                let p = find_player(players, owner);
                proof {
                    lemma_player_position_in_world(players@, owner);
                }
                chase_toward_exec(a, p, d, &mut out);
            },
            _ => {},
        },
    }
    proof {
        assert(out@ =~= chase_events(*a, players@));
    }
    out
}

/// The flocking forces of `agents[a]` given the ids of its candidate neighbours:
/// a push off each neighbour it touches, then cohesion and alignment toward the
/// flock mates in sight, then separation from the close ones.
pub fn flock_force(
    agents: &Vec<Agent>,
    index: &HashMap<u64, usize>,
    a: usize,
    cands: &Vec<u64>,
) -> (r: Vec<ApplyForceEvent>)
    requires
        valid_snapshot(agents@),
        is_index(index@, agents@),
        a < agents@.len(),
    ensures
        r@ == flock_events(agents@, agents@[a as int], cands@),
{
    let me: Agent = agents[a];
    assert(valid_agent(me));
    let v2: i64 = CREATURE_VISION * CREATURE_VISION;
    let h2: i64 = (CREATURE_VISION / 2) * (CREATURE_VISION / 2);
    assert((2 * me.size) * (2 * me.size) <= 131072 * 131072) by (nonlinear_arith)
        requires
            0 <= me.size <= MAX_CREATURE_SIZE,
    ;
    let touch: i64 = (2 * me.size) * (2 * me.size);
    let ghost sv = CREATURE_VISION * CREATURE_VISION;
    let ghost sh = (CREATURE_VISION / 2) * (CREATURE_VISION / 2);
    let mut out: Vec<ApplyForceEvent> = Vec::new();
    let mut vc: i128 = 0;
    let mut sx: i128 = 0;
    let mut sy: i128 = 0;
    let mut hx: i128 = 0;
    let mut hy: i128 = 0;
    let mut cc: i128 = 0;
    let mut cx: i128 = 0;
    let mut cy: i128 = 0;
    let mut t: usize = 0;
    assert(cands@.take(0) =~= Seq::<u64>::empty());
    while t < cands.len()
        invariant
            t <= cands@.len(),
            valid_snapshot(agents@),
            is_index(index@, agents@),
            a < agents@.len(),
            me == agents@[a as int],
            valid_agent(me),
            v2 == sv,
            h2 == sh,
            touch == (2 * me.size) * (2 * me.size),
            out@ == avoid_events(agents@, me, cands@.take(t as int)),
            vc == mates(agents@, me, cands@.take(t as int), sv).len(),
            sx == sum_x(mates(agents@, me, cands@.take(t as int), sv)),
            sy == sum_y(mates(agents@, me, cands@.take(t as int), sv)),
            hx == sum_hx(mates(agents@, me, cands@.take(t as int), sv)),
            hy == sum_hy(mates(agents@, me, cands@.take(t as int), sv)),
            cc == mates(agents@, me, cands@.take(t as int), sh).len(),
            cx == sum_x(mates(agents@, me, cands@.take(t as int), sh)),
            cy == sum_y(mates(agents@, me, cands@.take(t as int), sh)),
            0 <= vc <= t,
            0 <= cc <= t,
            -(vc * WORLD_LIMIT) <= sx <= vc * WORLD_LIMIT,
            -(vc * WORLD_LIMIT) <= sy <= vc * WORLD_LIMIT,
            -(vc * UNIT) <= hx <= vc * UNIT,
            -(vc * UNIT) <= hy <= vc * UNIT,
            -(cc * WORLD_LIMIT) <= cx <= cc * WORLD_LIMIT,
            -(cc * WORLD_LIMIT) <= cy <= cc * WORLD_LIMIT,
        decreases cands@.len() - t,
    {
        let id = cands[t];
        let ghost pre = cands@.take(t as int);
        let ghost pre1 = cands@.take(t + 1);
        let ghost vm = mates(agents@, me, pre, sv);
        let ghost hm = mates(agents@, me, pre, sh);
        proof {
            lemma_index_finds(index@, agents@, id);
            assert(pre1.drop_last() =~= pre);
            assert(pre1.last() == id);
        }
        match index.get(&id) {
            Some(j) => {
                let j: usize = *j;
                let b: Agent = agents[j];
                assert(valid_agent(b));
                if b.id != me.id {
                    let d2 = distance_sq(me.position, b.position);
                    let same = same_kind(b.kind, me.kind);
                    if same && d2 <= v2 {
                        vc = vc + 1;
                        sx = sx + b.position.x as i128;
                        sy = sy + b.position.y as i128;
                        hx = hx + b.heading.x as i128;
                        hy = hy + b.heading.y as i128;
                        proof {
                            assert(vm.push(b).drop_last() =~= vm);
                        }
                    }
                    if same && d2 <= h2 {
                        cc = cc + 1;
                        cx = cx + b.position.x as i128;
                        cy = cy + b.position.y as i128;
                        proof {
                            assert(hm.push(b).drop_last() =~= hm);
                        }
                    }
                    if d2 <= touch {
                        let dir = normalize(me.position.x - b.position.x, me.position.y - b.position.y);
                        push_toward(&mut out, me.id, dir, CREATURE_COLLISION_AVOIDANCE);
                    }
                }
            },
            None => {},
        }
        t = t + 1;
    }
    proof {
        assert(cands@.take(cands@.len() as int) =~= cands@);
    }
    let ghost seen = mates(agents@, me, cands@, sv);
    let ghost close = mates(agents@, me, cands@, sh);
    if vc > 0 {
        proof {
            lemma_trunc_mean_bound(sx as int, vc as int, WORLD_LIMIT as int);
            lemma_trunc_mean_bound(sy as int, vc as int, WORLD_LIMIT as int);
            lemma_trunc_mean_bound(hx as int, vc as int, UNIT as int);
            lemma_trunc_mean_bound(hy as int, vc as int, UNIT as int);
        }
        let ax = div_trunc_wide(sx, vc) as i64;
        let ay = div_trunc_wide(sy, vc) as i64;
        let dx = div_trunc_wide(hx, vc) as i64;
        let dy = div_trunc_wide(hy, vc) as i64;
        let cohesion = normalize(ax - me.position.x, ay - me.position.y);
        push_toward(&mut out, me.id, cohesion, CREATURE_COHESION);
        let alignment = normalize(dx, dy);
        push_toward(&mut out, me.id, alignment, CREATURE_ALIGNMENT);
    }
    if cc > 0 {
        proof {
            lemma_trunc_mean_bound(cx as int, cc as int, WORLD_LIMIT as int);
            lemma_trunc_mean_bound(cy as int, cc as int, WORLD_LIMIT as int);
        }
        let bx = div_trunc_wide(cx, cc) as i64;
        let by_ = div_trunc_wide(cy, cc) as i64;
        let separation = normalize(me.position.x - bx, me.position.y - by_);
        push_toward(&mut out, me.id, separation, CREATURE_SEPARATION);
    }
    proof {
        assert(out@ =~= flock_events(agents@, me, cands@));
    }
    out
}

/// All forces that creature `agents[i]` emits in a frame: its chase or follow
/// force, then its flocking forces among the entities the grid finds in sight.
pub open spec fn agent_forces(
    agents: Seq<Agent>,
    players: Seq<(u64, Vec2i)>,
    cells: Map<u64, Seq<u64>>,
    i: int,
) -> Seq<ApplyForceEvent> {
    chase_events(agents[i], players) + flock_events(
        agents,
        agents[i],
        query_result(cells, agents[i].position, CREATURE_VISION as int),
    )
}

/// The forces of agents `lo .. hi`, agent by agent.
pub open spec fn range_forces(
    agents: Seq<Agent>,
    players: Seq<(u64, Vec2i)>,
    cells: Map<u64, Seq<u64>>,
    lo: int,
    hi: int,
) -> Seq<ApplyForceEvent>
    decreases hi - lo,
{
    if hi <= lo {
        Seq::empty()
    } else {
        range_forces(agents, players, cells, lo, hi - 1) + agent_forces(agents, players, cells, hi - 1)
    }
}

/// The forces of every agent of the snapshot, in snapshot order.
pub open spec fn all_forces(
    agents: Seq<Agent>,
    players: Seq<(u64, Vec2i)>,
    cells: Map<u64, Seq<u64>>,
) -> Seq<ApplyForceEvent> {
    range_forces(agents, players, cells, 0, agents.len() as int)
}

/// The forces of agents `lo ..` computed in chunks of `chunk` agents, the
/// chunks' outputs joined in chunk order.
pub open spec fn chunked_forces(
    agents: Seq<Agent>,
    players: Seq<(u64, Vec2i)>,
    cells: Map<u64, Seq<u64>>,
    lo: int,
    chunk: int,
) -> Seq<ApplyForceEvent>
    decreases agents.len() - lo,
{
    if lo >= agents.len() || chunk <= 0 {
        Seq::empty()
    } else {
        let hi = if lo + chunk < agents.len() { lo + chunk } else { agents.len() as int };
        range_forces(agents, players, cells, lo, hi) + chunked_forces(agents, players, cells, hi, chunk)
    }
}

pub proof fn lemma_range_forces_split(
    agents: Seq<Agent>,
    players: Seq<(u64, Vec2i)>,
    cells: Map<u64, Seq<u64>>,
    lo: int,
    mid: int,
    hi: int,
)
    requires
        lo <= mid <= hi,
    ensures
        range_forces(agents, players, cells, lo, mid) + range_forces(agents, players, cells, mid, hi)
            == range_forces(agents, players, cells, lo, hi),
    decreases hi - mid,
{
    if hi == mid {
        assert(range_forces(agents, players, cells, lo, mid) + Seq::<ApplyForceEvent>::empty()
            =~= range_forces(agents, players, cells, lo, mid));
    } else {
        lemma_range_forces_split(agents, players, cells, lo, mid, hi - 1);
        let a = range_forces(agents, players, cells, lo, mid);
        let b = range_forces(agents, players, cells, mid, hi - 1);
        let c = agent_forces(agents, players, cells, hi - 1);
        assert(a + (b + c) =~= (a + b) + c);
    }
}

pub proof fn lemma_chunked_is_whole(
    agents: Seq<Agent>,
    players: Seq<(u64, Vec2i)>,
    cells: Map<u64, Seq<u64>>,
    lo: int,
    chunk: int,
)
    requires
        0 <= lo <= agents.len(),
        chunk > 0,
    ensures
        chunked_forces(agents, players, cells, lo, chunk) == range_forces(
            agents,
            players,
            cells,
            lo,
            agents.len() as int,
        ),
    decreases agents.len() - lo,
{
    if lo < agents.len() {
        let hi = if lo + chunk < agents.len() { lo + chunk } else { agents.len() as int };
        lemma_chunked_is_whole(agents, players, cells, hi, chunk);
        lemma_range_forces_split(agents, players, cells, lo, hi, agents.len() as int);
    } else {
        assert(range_forces(agents, players, cells, lo, agents.len() as int) =~= Seq::<
            ApplyForceEvent,
        >::empty());
    }
}

/// Splitting the agents into chunks of any size, computing each chunk on its
/// own worker and joining the outputs in chunk order yields the very same
/// events as one worker: the number of workers never changes the forces.
pub proof fn lemma_worker_count_irrelevant(
    agents: Seq<Agent>,
    players: Seq<(u64, Vec2i)>,
    cells: Map<u64, Seq<u64>>,
    chunk_a: int,
    chunk_b: int,
)
    requires
        chunk_a > 0,
        chunk_b > 0,
    ensures
        chunked_forces(agents, players, cells, 0, chunk_a) == chunked_forces(
            agents,
            players,
            cells,
            0,
            chunk_b,
        ),
        chunked_forces(agents, players, cells, 0, chunk_a) == all_forces(agents, players, cells),
{
    lemma_chunked_is_whole(agents, players, cells, 0, chunk_a);
    lemma_chunked_is_whole(agents, players, cells, 0, chunk_b);
}

/// What a frame needs to compute forces: a snapshot, its id index, the players
/// and a grid that holds the snapshot's creatures.
pub open spec fn force_inputs_ok(
    agents: Seq<Agent>,
    index: Map<u64, usize>,
    players: Seq<(u64, Vec2i)>,
    grid: &CacheGrid,
) -> bool {
    &&& valid_snapshot(agents)
    &&& is_index(index, agents)
    &&& valid_players(players)
    &&& grid.wf()
}

/// All forces that creature `agents[i]` emits in a frame.
pub fn creature_forces(
    agents: &Vec<Agent>,
    index: &HashMap<u64, usize>,
    players: &Vec<(u64, Vec2i)>,
    grid: &CacheGrid,
    i: usize,
) -> (r: Vec<ApplyForceEvent>)
    requires
        force_inputs_ok(agents@, index@, players@, grid),
        i < agents@.len(),
    ensures
        r@ == agent_forces(agents@, players@, grid.cells(), i as int),
{
    let me: Agent = agents[i];
    assert(valid_agent(me));
    let mut out = chase_force(&me, players);
    let cands = grid.get_nearby_entities(me.position, CREATURE_VISION);
    let flock = flock_force(agents, index, i, &cands);
    let ghost before = out@;
    let mut k: usize = 0;
    while k < flock.len()
        invariant
            k <= flock@.len(),
            out@ == before + flock@.take(k as int),
        decreases flock@.len() - k,
    {
        out.push(flock[k]);
        k = k + 1;
        proof {
            assert(flock@.take(k as int) =~= flock@.take(k - 1).push(flock@[k - 1]));
        }
    }
    proof {
        assert(flock@.take(flock@.len() as int) =~= flock@);
    }
    out
}

/// The forces of agents `lo .. hi`: the work of one worker.
pub fn forces_for_range(
    agents: &Vec<Agent>,
    index: &HashMap<u64, usize>,
    players: &Vec<(u64, Vec2i)>,
    grid: &CacheGrid,
    lo: usize,
    hi: usize,
) -> (r: Vec<ApplyForceEvent>)
    requires
        force_inputs_ok(agents@, index@, players@, grid),
        lo <= hi <= agents@.len(),
    ensures
        r@ == range_forces(agents@, players@, grid.cells(), lo as int, hi as int),
{
    let mut out: Vec<ApplyForceEvent> = Vec::new();
    let mut i: usize = lo;
    assert(range_forces(agents@, players@, grid.cells(), lo as int, lo as int) =~= Seq::<
        ApplyForceEvent,
    >::empty());
    while i < hi
        invariant
            lo <= i <= hi,
            hi <= agents@.len(),
            force_inputs_ok(agents@, index@, players@, grid),
            out@ == range_forces(agents@, players@, grid.cells(), lo as int, i as int),
        decreases hi - i,
    {
        let ev = creature_forces(agents, index, players, grid, i);
        let ghost before = out@;
        let mut k: usize = 0;
        while k < ev.len()
            invariant
                k <= ev@.len(),
                out@ == before + ev@.take(k as int),
            decreases ev@.len() - k,
        {
            out.push(ev[k]);
            k = k + 1;
            proof {
                assert(ev@.take(k as int) =~= ev@.take(k - 1).push(ev@[k - 1]));
            }
        }
        proof {
            assert(ev@.take(ev@.len() as int) =~= ev@);
        }
        i = i + 1;
    }
    out
}

/// The forces of every creature, computed in chunks of `chunk` agents (as
/// workers would) and joined in chunk order; the result is the same for every
/// chunk size.
pub fn accumulate_forces(
    agents: &Vec<Agent>,
    index: &HashMap<u64, usize>,
    players: &Vec<(u64, Vec2i)>,
    grid: &CacheGrid,
    chunk: usize,
) -> (r: Vec<ApplyForceEvent>)
    requires
        force_inputs_ok(agents@, index@, players@, grid),
        chunk > 0,
    ensures
        r@ == chunked_forces(agents@, players@, grid.cells(), 0, chunk as int),
        r@ == all_forces(agents@, players@, grid.cells()),
{
    let n = agents.len();
    let mut out: Vec<ApplyForceEvent> = Vec::new();
    let mut lo: usize = 0;
    proof {
        lemma_chunked_is_whole(agents@, players@, grid.cells(), 0, chunk as int);
    }
    while lo < n
        invariant
            lo <= n,
            n == agents@.len(),
            chunk > 0,
            force_inputs_ok(agents@, index@, players@, grid),
            out@ + chunked_forces(agents@, players@, grid.cells(), lo as int, chunk as int)
                == chunked_forces(agents@, players@, grid.cells(), 0, chunk as int),
        decreases n - lo,
    {
        let hi: usize = if chunk < n - lo { lo + chunk } else { n };
        let part = forces_for_range(agents, index, players, grid, lo, hi);
        let ghost before = out@;
        let ghost rest = chunked_forces(agents@, players@, grid.cells(), hi as int, chunk as int);
        let mut k: usize = 0;
        while k < part.len()
            invariant
                k <= part@.len(),
                out@ == before + part@.take(k as int),
            decreases part@.len() - k,
        {
            out.push(part[k]);
            k = k + 1;
            proof {
                assert(part@.take(k as int) =~= part@.take(k - 1).push(part@[k - 1]));
            }
        }
        proof {
            assert(part@.take(part@.len() as int) =~= part@);
            assert(before + (part@ + rest) =~= (before + part@) + rest);
        }
        lo = hi;
    }
    proof {
        assert(chunked_forces(agents@, players@, grid.cells(), lo as int, chunk as int) =~= Seq::<
            ApplyForceEvent,
        >::empty());
        assert(out@ + Seq::<ApplyForceEvent>::empty() =~= out@);
    }
    out
}

} // verus!
