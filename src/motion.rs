use vstd::prelude::*;
use crate::geometry::{Vec2i, in_world, dist_sq, trunc_div, div_trunc, spec_normalize, normalize, is_unit_bounded, lemma_small_quotient, UNIT, WORLD_LIMIT};
use crate::input::PlayerControls;
use crate::forces::{Agent, valid_agent, player_position, valid_players, find_player, distance_sq, MAX_CREATURE_SIZE};
use crate::combat::DEFAULT_PLAYER_SIZE;
use crate::components::DamageEvent;
use crate::integrate::FPS;

verus! {

/// Creature speed, in world units per second.
pub const CREATURE_SPEED: i64 = 210;

/// Player speed, in world units per second.
pub const DEFAULT_MOVE_SPEED: i64 = 200;

/// Player speed with the modifier held, in fifths of `DEFAULT_MOVE_SPEED`.
pub const SPEED_MULTIPLIER_FIFTHS: i64 = 6;

/// Cosine of the angle a player turns in one step, scaled by `UNIT`.
pub const TURN_COS: i64 = 16732872;

/// Sine of the angle a player turns in one step, scaled by `UNIT`.
pub const TURN_SIN: i64 = 1218998;

/// The rectangle of the map, centred on the origin.
#[derive(Debug, Clone, Copy, PartialEq, Eq, Structural)]
pub struct MapSettings {
    pub width: i64,
    pub height: i64,
}

pub open spec fn valid_map(m: MapSettings) -> bool {
    0 <= m.width <= 2 * WORLD_LIMIT && 0 <= m.height <= 2 * WORLD_LIMIT
}

impl MapSettings {
    pub fn new(width: i64, height: i64) -> (r: MapSettings)
        ensures
            r.width == width && r.height == height,
    {
        MapSettings { width, height }
    }

    /// The map's area.
    pub fn size(&self) -> (r: i64)
        requires
            valid_map(*self),
        ensures
            r == self.width * self.height,
    {
        assert(self.width * self.height <= 2 * WORLD_LIMIT * (2 * WORLD_LIMIT)) by (nonlinear_arith)
            requires
                0 <= self.width <= 2 * WORLD_LIMIT,
                0 <= self.height <= 2 * WORLD_LIMIT,
        ;
        assert(0 <= self.width * self.height) by (nonlinear_arith)
            requires
                0 <= self.width,
                0 <= self.height,
        ;
        self.width * self.height
    }
}

/// A player as the frame stepper sees it.
#[derive(Debug, Clone, Copy, PartialEq, Eq, Structural)]
pub struct PlayerState {
    pub id: u64,
    /// Slot of the player in the session's input vector.
    pub handle: usize,
    pub position: Vec2i,
    /// Unit heading, scaled by `UNIT`.
    pub heading: Vec2i,
    pub controls: PlayerControls,
    /// Hit points left.
    pub health: i32,
    /// Whether the player's gun is loaded.
    pub bullet_ready: bool,
    /// Frames until a player without hit points comes back.
    pub respawn_frames: u32,
}

pub open spec fn valid_player(p: PlayerState) -> bool {
    in_world(p.position) && is_unit_bounded(p.heading) && -1 <= p.controls.accel <= 1 && -1
        <= p.controls.steer <= 1
}

pub open spec fn clamp(v: int, lo: int, hi: int) -> int {
    if v < lo {
        lo
    } else if v > hi {
        hi
    } else {
        v
    }
}

/// `p` moved into the map's rectangle.
pub open spec fn clamp_to_map(p: Vec2i, m: MapSettings) -> Vec2i {
    Vec2i {
        x: clamp(p.x as int, -(m.width / 2), m.width / 2) as i64,
        y: clamp(p.y as int, -(m.height / 2), m.height / 2) as i64,
    }
}

/// `p` advanced along heading `h` at `speed * num / den` world units per
/// second for one step, then clamped to the map.
pub open spec fn advanced(p: Vec2i, h: Vec2i, speed: int, m: MapSettings) -> Vec2i {
    clamp_to_map(
        Vec2i {
            x: (p.x + trunc_div(h.x * speed, UNIT * FPS)) as i64,
            y: (p.y + trunc_div(h.y * speed, UNIT * FPS)) as i64,
        },
        m,
    )
}

fn clamp_exec(v: i64, lo: i64, hi: i64) -> (r: i64)
    requires
        lo <= hi,
    ensures
        r == clamp(v as int, lo as int, hi as int),
{
    if v < lo {
        lo
    } else if v > hi {
        hi
    } else {
        v
    }
}

pub proof fn lemma_step_small(c: int, speed: int)
    requires
        -UNIT <= c <= UNIT,
        -1000 <= speed <= 1000,
    ensures
        -1000 <= trunc_div(c * speed, UNIT * FPS) <= 1000,
{
    assert(-(UNIT * 1000) <= c * speed <= UNIT * 1000) by (nonlinear_arith)
        requires
            -UNIT <= c <= UNIT,
            -1000 <= speed <= 1000,
    ;
    lemma_small_quotient(c * speed, UNIT * 1000, UNIT * FPS);
    assert((16777216000int) / (1006632960int) == 16);
    assert(UNIT * 1000 == 16777216000 && UNIT * FPS == 1006632960);
}

/// Advances `p` along `h` at `speed` world units per second for one step and
/// clamps the result to the map.
pub fn advance(p: Vec2i, h: Vec2i, speed: i64, m: MapSettings) -> (r: Vec2i)
    requires
        in_world(p),
        is_unit_bounded(h),
        -1000 <= speed <= 1000,
        valid_map(m),
    ensures
        r == advanced(p, h, speed as int, m),
        in_world(r),
{
    proof {
        lemma_step_small(h.x as int, speed as int);
        lemma_step_small(h.y as int, speed as int);
    }
    let dx = div_trunc(h.x * speed, UNIT * FPS);
    let dy = div_trunc(h.y * speed, UNIT * FPS);
    let x = clamp_exec(p.x + dx, -(m.width / 2), m.width / 2);
    let y = clamp_exec(p.y + dy, -(m.height / 2), m.height / 2);
    Vec2i { x, y }
}

/// Frames between two strikes of a creature on its target.
pub const CREATURE_ATTACK_COOLDOWN_FRAMES: u32 = 60;

/// Whether a creature is close enough to a player at `q` to strike it: nearer
/// than the sum of their sizes.
pub open spec fn in_reach(a: Agent, q: Vec2i) -> bool {
    dist_sq(a.position, q) < (a.size + DEFAULT_PLAYER_SIZE) * (a.size + DEFAULT_PLAYER_SIZE)
}

/// Whether a creature moves this step: toward its target while that player
/// exists and is out of reach, or toward its owner when it follows one and is
/// not yet within its follow distance.
pub open spec fn creature_moves(a: Agent, players: Seq<(u64, Vec2i)>) -> bool {
    match a.target {
        Some(t) => match player_position(players, t) {
            Some(q) => !in_reach(a, q),
            None => false,
        },
        None => match (a.follow, a.kind) {
            (Some(d), Some(owner)) => match player_position(players, owner) {
                Some(q) => dist_sq(a.position, q) >= d * d,
                None => false,
            },
            _ => false,
        },
    }
}

/// The strike cooldown after a step spent within reach: it counts down, and
/// starts over once it runs out (the step of a strike).
pub open spec fn next_cooldown(k: u32) -> u32 {
    if k <= 1 {
        CREATURE_ATTACK_COOLDOWN_FRAMES
    } else {
        (k - 1) as u32
    }
}

/// The creature's strike this step: on its target, when that player exists,
/// is within reach, and the cooldown runs out.
pub open spec fn strike(a: Agent, players: Seq<(u64, Vec2i)>) -> Option<DamageEvent> {
    match a.target {
        Some(t) => match player_position(players, t) {
            Some(q) => if in_reach(a, q) && a.attack_cooldown <= 1 {
                Some(DamageEvent { victim: t, attacker: a.id })
            } else {
                None
            },
            None => None,
        },
        None => None,
    }
}

/// The creature's state after the step's chase: a target that no longer
/// exists is dropped; within reach of its target the cooldown counts down.
pub open spec fn chased(a: Agent, players: Seq<(u64, Vec2i)>) -> Agent {
    match a.target {
        Some(t) => match player_position(players, t) {
            Some(q) => if in_reach(a, q) {
                Agent { attack_cooldown: next_cooldown(a.attack_cooldown), ..a }
            } else {
                a
            },
            None => Agent { target: None, ..a },
        },
        None => a,
    }
}

/// The creature after one step of motion.
pub open spec fn moved_creature(a: Agent, players: Seq<(u64, Vec2i)>, m: MapSettings) -> Agent {
    let b = chased(a, players);
    if creature_moves(a, players) {
        Agent { position: advanced(a.position, a.heading, CREATURE_SPEED as int, m), ..b }
    } else {
        b
    }
}

/// Moves one creature for a step, and returns its strike, if any.
pub fn move_creature(a: &Agent, players: &Vec<(u64, Vec2i)>, m: MapSettings) -> (r: (Agent, Option<DamageEvent>))
    requires
        valid_agent(*a),
        valid_players(players@),
        valid_map(m),
    ensures
        r.0 == moved_creature(*a, players@, m),
        r.1 == strike(*a, players@),
        valid_agent(r.0),
{
    let mut b: Agent = *a;
    let mut hit: Option<DamageEvent> = None;
    let moves = match a.target {
        Some(t) => match find_player(players, t) {
            Some(q) => {
                proof {
                    crate::forces::lemma_player_position_in_world(players@, t);
                }
                let d2 = distance_sq(a.position, q);
                let reach: i64 = a.size + DEFAULT_PLAYER_SIZE;
                assert(reach * reach <= (MAX_CREATURE_SIZE + 25) * (MAX_CREATURE_SIZE + 25)) by (nonlinear_arith)
                    requires
                        25 <= reach <= MAX_CREATURE_SIZE + 25,
                ;
                if d2 < reach * reach {
                    if a.attack_cooldown <= 1 {
                        hit = Some(DamageEvent { victim: t, attacker: a.id });
                        b = Agent { attack_cooldown: CREATURE_ATTACK_COOLDOWN_FRAMES, ..*a };
                    } else {
                        b = Agent { attack_cooldown: a.attack_cooldown - 1, ..*a };
                    }
                    false
                } else {
                    true
                }
            },
            None => {
                b = Agent { target: None, ..*a };
                false
            },
        },
        None => match (a.follow, a.kind) {
            (Some(d), Some(owner)) => match find_player(players, owner) {
                Some(q) => {
                    proof {
                        crate::forces::lemma_player_position_in_world(players@, owner);
                    }
                    let d2 = distance_sq(a.position, q);
                    assert(d * d <= WORLD_LIMIT * WORLD_LIMIT) by (nonlinear_arith)
                        requires
                            0 <= d <= WORLD_LIMIT,
                    ;
                    d2 >= d * d
                },
                None => false,
            },
            _ => false,
        },
    };
    if moves {
        (Agent { position: advance(a.position, a.heading, CREATURE_SPEED, m), ..b }, hit)
    } else {
        (b, hit)
    }
}

/// Heading `h` turned one step in direction `steer` (counter-clockwise for 1),
/// renormalized. Every player turns at the same rate, so the step's cosine and
/// sine are the constants `TURN_COS` and `TURN_SIN`.
pub open spec fn turned(h: Vec2i, steer: i64) -> Vec2i {
    if steer == 0 {
        h
    } else {
        let rx = trunc_div(h.x * TURN_COS - steer * h.y * TURN_SIN, UNIT as int);
        let ry = trunc_div(steer * h.x * TURN_SIN + h.y * TURN_COS, UNIT as int);
        match spec_normalize(rx, ry) {
            Some(v) => v,
            None => h,
        }
    }
}

/// Speed of a player for its controls, in world units per second. Holding the
/// modifier multiplies it by `SPEED_MULTIPLIER_FIFTHS / 5`: the modifier bit is
/// part of every input frame, so it must act the same in local and online
/// play, and the local game's movement is the one that honours it.
pub open spec fn player_speed(c: PlayerControls) -> int {
    if c.shift {
        c.accel * DEFAULT_MOVE_SPEED * SPEED_MULTIPLIER_FIFTHS / 5
    } else {
        c.accel * DEFAULT_MOVE_SPEED
    }
}

/// The player after one step of its controls: turned, then advanced along
/// its new heading and clamped to the map. A player without hit points stays
/// where it is.
pub open spec fn moved_player(p: PlayerState, m: MapSettings) -> PlayerState {
    if p.health <= 0 {
        p
    } else {
        let h = turned(p.heading, p.controls.steer);
        PlayerState { heading: h, position: advanced(p.position, h, player_speed(p.controls), m), ..p }
    }
}

/// Turns a heading one step.
pub fn turn(h: Vec2i, steer: i64) -> (r: Vec2i)
    requires
        is_unit_bounded(h),
        -1 <= steer <= 1,
    ensures
        r == turned(h, steer),
        is_unit_bounded(r),
{
    if steer == 0 {
        return h;
    }
    let ghost lim = UNIT * (TURN_COS + TURN_SIN);
    assert(-lim <= h.x * TURN_COS - steer * h.y * TURN_SIN <= lim) by (nonlinear_arith)
        requires
            -UNIT <= h.x <= UNIT,
            -UNIT <= h.y <= UNIT,
            -1 <= steer <= 1,
            lim == UNIT * (TURN_COS + TURN_SIN),
    ;
    assert(-lim <= steer * h.x * TURN_SIN + h.y * TURN_COS <= lim) by (nonlinear_arith)
        requires
            -UNIT <= h.x <= UNIT,
            -UNIT <= h.y <= UNIT,
            -1 <= steer <= 1,
            lim == UNIT * (TURN_COS + TURN_SIN),
    ;
    let rx = div_trunc(h.x * TURN_COS - steer * h.y * TURN_SIN, UNIT);
    let ry = div_trunc(steer * h.x * TURN_SIN + h.y * TURN_COS, UNIT);
    proof {
        lemma_small_quotient(h.x * TURN_COS - steer * h.y * TURN_SIN, lim, UNIT as int);
        lemma_small_quotient(steer * h.x * TURN_SIN + h.y * TURN_COS, lim, UNIT as int);
    }
    match normalize(rx, ry) {
        Some(v) => v,
        None => h,
    }
}

/// Moves one player for a step of its controls.
pub fn move_player(p: &PlayerState, m: MapSettings) -> (r: PlayerState)
    requires
        valid_player(*p),
        valid_map(m),
    ensures
        r == moved_player(*p, m),
        valid_player(r),
{
    if p.health <= 0 {
        return *p;
    }
    let h = turn(p.heading, p.controls.steer);
    let speed: i64 = if p.controls.shift {
        p.controls.accel * DEFAULT_MOVE_SPEED * SPEED_MULTIPLIER_FIFTHS / 5
    } else {
        p.controls.accel * DEFAULT_MOVE_SPEED
    };
    let pos = advance(p.position, h, speed, m);
    PlayerState { heading: h, position: pos, ..*p }
}

/// A coordinate wrapped to the far edge when it reaches `half` or `-half`.
pub open spec fn wrapped(v: int, half: int) -> int {
    if v >= half {
        -half + 1
    } else if v <= -half {
        half - 1
    } else {
        v
    }
}

/// `p` with each coordinate wrapped.
pub open spec fn wrapped_point(p: Vec2i, half_w: int, half_h: int) -> Vec2i {
    Vec2i { x: wrapped(p.x as int, half_w) as i64, y: wrapped(p.y as int, half_h) as i64 }
}

/// Wraps creatures that reach an edge of a window of the given size to the
/// opposite edge.
pub fn wrap_borders_system(positions: &mut Vec<Vec2i>, width: i64, height: i64)
    requires
        0 <= width <= 2 * WORLD_LIMIT,
        0 <= height <= 2 * WORLD_LIMIT,
        forall|i: int| 0 <= i < old(positions)@.len() ==> in_world(#[trigger] old(positions)@[i]),
    ensures
        final(positions)@.len() == old(positions)@.len(),
        forall|i: int|
            0 <= i < old(positions)@.len() ==> #[trigger] final(positions)@[i] == wrapped_point(
                old(positions)@[i],
                width / 2,
                height / 2,
            ),
{
    let hw: i64 = width / 2;
    let hh: i64 = height / 2;
    let ghost start = positions@;
    let mut i: usize = 0;
    while i < positions.len()
        invariant
            i <= positions@.len(),
            positions@.len() == start.len(),
            hw == width / 2,
            hh == height / 2,
            0 <= hw <= WORLD_LIMIT,
            0 <= hh <= WORLD_LIMIT,
            forall|k: int| i <= k < start.len() ==> positions@[k] == start[k],
            forall|k: int| 0 <= k < start.len() ==> in_world(#[trigger] start[k]),
            forall|k: int|
                0 <= k < i ==> #[trigger] positions@[k] == wrapped_point(start[k], hw as int, hh as int),
        decreases positions@.len() - i,
    {
        let p = positions[i];
        let x: i64 = if p.x >= hw {
            -hw + 1
        } else if p.x <= -hw {
            hw - 1
        } else {
            p.x
        };
        let y: i64 = if p.y >= hh {
            -hh + 1
        } else if p.y <= -hh {
            hh - 1
        } else {
            p.y
        };
        positions.set(i, Vec2i { x, y });
        i = i + 1;
    }
}

/// Distance within which a free creature joins a player.
pub const FOLLOW_COLLECTION_DISTANCE: i64 = 100;

/// Least distance at which a collected creature stops tailing its owner.
pub const FOLLOW_PLAYER_MIN_DISTANCE: i64 = 25;

/// Number of follow distances a collected creature can get.
pub const FOLLOW_DISTANCE_SPREAD: u64 = 50;

/// The first player strictly within collection distance of `p`.
pub open spec fn collector(p: Vec2i, players: Seq<(u64, Vec2i)>) -> Option<u64>
    decreases players.len(),
{
    if players.len() == 0 {
        None
    } else if dist_sq(p, players[0].1) < FOLLOW_COLLECTION_DISTANCE * FOLLOW_COLLECTION_DISTANCE {
        Some(players[0].0)
    } else {
        collector(p, players.drop_first())
    }
}

/// The follow distance a creature gets when collected: spread over
/// `FOLLOW_PLAYER_MIN_DISTANCE .. FOLLOW_PLAYER_MIN_DISTANCE + FOLLOW_DISTANCE_SPREAD`
/// by its id, so that
/// every peer and every replay picks the same one.
pub open spec fn follow_distance_for(id: u64) -> i64 {
    (FOLLOW_PLAYER_MIN_DISTANCE + (id % FOLLOW_DISTANCE_SPREAD) as int) as i64
}

/// A free creature (neither following nor chasing) within reach of a player
/// becomes that player's follower; any other creature is unchanged.
pub open spec fn collected(c: Agent, players: Seq<(u64, Vec2i)>) -> Agent {
    if c.follow is None && c.target is None {
        match collector(c.position, players) {
            Some(owner) => Agent { kind: Some(owner), follow: Some(follow_distance_for(c.id)), ..c },
            None => c,
        }
    } else {
        c
    }
}

/// Lets the players collect the free creatures near them.
pub fn follow_collection(c: &Agent, players: &Vec<(u64, Vec2i)>) -> (r: Agent)
    requires
        valid_agent(*c),
        valid_players(players@),
    ensures
        r == collected(*c, players@),
        valid_agent(r),
        r.id == c.id,
{
    if !(c.follow.is_none() && c.target.is_none()) {
        return *c;
    }
    let mut i: usize = 0;
    assert(players@.subrange(0, players@.len() as int) =~= players@);
    while i < players.len()
        invariant
            i <= players@.len(),
            valid_agent(*c),
            valid_players(players@),
            c.follow is None && c.target is None,
            collector(c.position, players@) == collector(
                c.position,
                players@.subrange(i as int, players@.len() as int),
            ),
        decreases players@.len() - i,
    {
        let ghost rest = players@.subrange(i as int, players@.len() as int);
        assert(rest[0] == players@[i as int]);
        let (owner, q) = players[i];
        assert(in_world(players@[i as int].1));
        if distance_sq(c.position, q) < FOLLOW_COLLECTION_DISTANCE * FOLLOW_COLLECTION_DISTANCE {
            let spread: u64 = c.id % FOLLOW_DISTANCE_SPREAD;
            let d: i64 = FOLLOW_PLAYER_MIN_DISTANCE + spread as i64;
            return Agent { kind: Some(owner), follow: Some(d), ..*c };
        }
        assert(rest.drop_first() =~= players@.subrange(i + 1, players@.len() as int));
        i = i + 1;
    }
    assert(players@.subrange(i as int, players@.len() as int).len() == 0);
    *c
}

} // verus!
