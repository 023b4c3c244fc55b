use vstd::prelude::*;
use crate::geometry::{Vec2i, in_world, dist_sq, trunc_div, div_trunc, is_unit_bounded, lemma_small_quotient, UNIT};
use crate::integrate::FPS;
use crate::motion::{MapSettings, PlayerState, valid_map, valid_player, clamp};
use crate::forces::{Agent, distance_sq, valid_agent, valid_snapshot};
use crate::components::DamageEvent;

verus! {

/// Bullet speed, in world units per second.
pub const BULLET_SPEED: i64 = 600;

/// Frames a bullet flies before it vanishes.
pub const BULLET_FLIGHT_FRAMES: u32 = 180;

/// Side of a player, in world units.
pub const DEFAULT_PLAYER_SIZE: i64 = 25;

/// A bullet in flight.
#[derive(Debug, Clone, Copy, PartialEq, Eq, Structural)]
pub struct BulletState {
    /// The player that fired it.
    pub owner: u64,
    pub position: Vec2i,
    /// Unit heading, scaled by `UNIT`.
    pub heading: Vec2i,
    /// Frames of flight left.
    pub frames_left: u32,
}

pub open spec fn valid_bullet(b: BulletState) -> bool {
    in_world(b.position) && is_unit_bounded(b.heading)
}

pub open spec fn on_map(q: Vec2i, m: MapSettings) -> bool {
    -(m.width / 2) <= q.x <= m.width / 2 && -(m.height / 2) <= q.y <= m.height / 2
}

/// Whether a player shoots this frame: it holds fire and its gun is loaded.
pub open spec fn shoots(p: PlayerState) -> bool {
    p.health > 0 && p.controls.firing && p.bullet_ready
}

/// The player after the frame's reload and shot: its gun is loaded again
/// exactly when fire is not held.
pub open spec fn rearmed(p: PlayerState) -> PlayerState {
    PlayerState { bullet_ready: !p.controls.firing, ..p }
}

/// Where a player's bullet appears: one player size ahead along its heading,
/// kept on the map.
pub open spec fn muzzle(p: PlayerState, m: MapSettings) -> Vec2i {
    Vec2i {
        x: clamp(p.position.x + trunc_div(p.heading.x * DEFAULT_PLAYER_SIZE, UNIT as int), -(m.width / 2), m.width / 2) as i64,
        y: clamp(p.position.y + trunc_div(p.heading.y * DEFAULT_PLAYER_SIZE, UNIT as int), -(m.height / 2), m.height / 2) as i64,
    }
}

/// The bullets the players fire this frame, in player order.
pub open spec fn new_bullets(ps: Seq<PlayerState>, m: MapSettings) -> Seq<BulletState>
    decreases ps.len(),
{
    if ps.len() == 0 {
        Seq::empty()
    } else {
        let prev = new_bullets(ps.drop_last(), m);
        let p = ps.last();
        if shoots(p) {
            prev.push(BulletState { owner: p.id, position: muzzle(p, m), heading: p.heading, frames_left: BULLET_FLIGHT_FRAMES })
        } else {
            prev
        }
    }
}

/// A bullet after one step of flight; none once its time is up or it has left
/// the map.
pub open spec fn flown(b: BulletState, m: MapSettings) -> Option<BulletState> {
    let q = Vec2i {
        x: (b.position.x + trunc_div(b.heading.x * BULLET_SPEED, UNIT * FPS)) as i64,
        y: (b.position.y + trunc_div(b.heading.y * BULLET_SPEED, UNIT * FPS)) as i64,
    };
    if b.frames_left <= 1 || !on_map(q, m) {
        None
    } else {
        Some(BulletState { position: q, frames_left: (b.frames_left - 1) as u32, ..b })
    }
}

/// The bullets still flying after one step, in their order.
pub open spec fn flown_bullets(bs: Seq<BulletState>, m: MapSettings) -> Seq<BulletState>
    decreases bs.len(),
{
    if bs.len() == 0 {
        Seq::empty()
    } else {
        let prev = flown_bullets(bs.drop_last(), m);
        match flown(bs.last(), m) {
            Some(b) => prev.push(b),
            None => prev,
        }
    }
}

/// Whether a point lies within half a player size of the centre of a player
/// that has hit points left.
pub open spec fn inside(q: Vec2i, p: PlayerState) -> bool {
    p.health > 0 && 4 * dist_sq(q, p.position) < DEFAULT_PLAYER_SIZE * DEFAULT_PLAYER_SIZE
}

/// Index of the first player, from `i` on, that a bullet at `q` is inside of.
pub open spec fn struck_from(q: Vec2i, ps: Seq<PlayerState>, i: int) -> Option<int>
    decreases ps.len() - i,
{
    if i < 0 || i >= ps.len() {
        None
    } else if inside(q, ps[i]) {
        Some(i)
    } else {
        struck_from(q, ps, i + 1)
    }
}

/// Hit points a player starts and comes back with.
pub const PLAYER_HEALTH: i32 = 10;

/// Frames a player without hit points waits before it comes back.
pub const RESPAWN_FRAMES: u32 = 180;

/// The player after a hit: one hit point less; the hit that takes the last one
/// starts the respawn countdown. A player without hit points is unchanged.
pub open spec fn wounded(p: PlayerState) -> PlayerState {
    if p.health > 1 {
        PlayerState { health: (p.health - 1) as i32, ..p }
    } else if p.health == 1 {
        PlayerState { health: 0, respawn_frames: RESPAWN_FRAMES, ..p }
    } else {
        p
    }
}

/// The player at the start of a frame: a player without hit points counts its
/// respawn down, and comes back with `PLAYER_HEALTH` when it runs out.
pub open spec fn revived(p: PlayerState) -> PlayerState {
    if p.health > 0 {
        p
    } else if p.respawn_frames <= 1 {
        PlayerState { health: PLAYER_HEALTH, respawn_frames: 0, ..p }
    } else {
        PlayerState { respawn_frames: (p.respawn_frames - 1) as u32, ..p }
    }
}

/// Takes a hit point from a player.
pub fn wound(p: &PlayerState) -> (r: PlayerState)
    ensures
        r == wounded(*p),
{
    if p.health > 1 {
        PlayerState { health: p.health - 1, ..*p }
    } else if p.health == 1 {
        PlayerState { health: 0, respawn_frames: RESPAWN_FRAMES, ..*p }
    } else {
        *p
    }
}

/// Counts down a dead player's respawn and brings it back when it runs out.
pub fn revive(p: &PlayerState) -> (r: PlayerState)
    ensures
        r == revived(*p),
{
    if p.health > 0 {
        *p
    } else if p.respawn_frames <= 1 {
        PlayerState { health: PLAYER_HEALTH, respawn_frames: 0, ..*p }
    } else {
        PlayerState { respawn_frames: p.respawn_frames - 1, ..*p }
    }
}

/// Players, remaining bullets and hits after each bullet, in order, hits the
/// first player it is inside of; a bullet that hits is used up. Each hit
/// records the victim, the shooter, and whether it left the victim without
/// hit points.
pub open spec fn resolve_hits(ps: Seq<PlayerState>, bs: Seq<BulletState>) -> (Seq<PlayerState>, Seq<BulletState>, Seq<(DamageEvent, bool)>)
    decreases bs.len(),
{
    if bs.len() == 0 {
        (ps, Seq::empty(), Seq::empty())
    } else {
        let prev = resolve_hits(ps, bs.drop_last());
        let b = bs.last();
        match struck_from(b.position, prev.0, 0) {
            Some(i) => {
                let w = wounded(prev.0[i]);
                (
                    prev.0.update(i, w),
                    prev.1,
                    prev.2.push((DamageEvent { victim: w.id, attacker: b.owner }, w.health <= 0)),
                )
            },
            None => (prev.0, prev.1.push(b), prev.2),
        }
    }
}

/// One frame of combat: players reload and fire, every bullet flies one step,
/// then bullets hit players.
pub open spec fn combat(ps: Seq<PlayerState>, bs: Seq<BulletState>, m: MapSettings) -> (Seq<PlayerState>, Seq<BulletState>, Seq<(DamageEvent, bool)>) {
    resolve_hits(
        Seq::new(ps.len(), |i: int| rearmed(ps[i])),
        flown_bullets(bs + new_bullets(ps, m), m),
    )
}

fn muzzle_exec(p: &PlayerState, m: MapSettings) -> (r: Vec2i)
    requires
        valid_player(*p),
        valid_map(m),
    ensures
        r == muzzle(*p, m),
        in_world(r),
{
    assert(-UNIT * DEFAULT_PLAYER_SIZE <= p.heading.x * DEFAULT_PLAYER_SIZE <= UNIT * DEFAULT_PLAYER_SIZE) by (nonlinear_arith)
        requires
            -UNIT <= p.heading.x <= UNIT,
    ;
    assert(-UNIT * DEFAULT_PLAYER_SIZE <= p.heading.y * DEFAULT_PLAYER_SIZE <= UNIT * DEFAULT_PLAYER_SIZE) by (nonlinear_arith)
        requires
            -UNIT <= p.heading.y <= UNIT,
    ;
    let dx = div_trunc(p.heading.x * DEFAULT_PLAYER_SIZE, UNIT);
    let dy = div_trunc(p.heading.y * DEFAULT_PLAYER_SIZE, UNIT);
    proof {
        lemma_small_quotient(p.heading.x * DEFAULT_PLAYER_SIZE, UNIT * DEFAULT_PLAYER_SIZE, UNIT as int);
        lemma_small_quotient(p.heading.y * DEFAULT_PLAYER_SIZE, UNIT * DEFAULT_PLAYER_SIZE, UNIT as int);
    }
    let hw = m.width / 2;
    let hh = m.height / 2;
    let x0 = p.position.x + dx;
    let y0 = p.position.y + dy;
    let x = if x0 < -hw { -hw } else if x0 > hw { hw } else { x0 };
    let y = if y0 < -hh { -hh } else if y0 > hh { hh } else { y0 };
    Vec2i { x, y }
}

fn fly(b: &BulletState, m: MapSettings) -> (r: Option<BulletState>)
    requires
        valid_bullet(*b),
        valid_map(m),
    ensures
        r == flown(*b, m),
        r matches Some(c) ==> valid_bullet(c),
{
    assert(-UNIT * BULLET_SPEED <= b.heading.x * BULLET_SPEED <= UNIT * BULLET_SPEED) by (nonlinear_arith)
        requires
            -UNIT <= b.heading.x <= UNIT,
    ;
    assert(-UNIT * BULLET_SPEED <= b.heading.y * BULLET_SPEED <= UNIT * BULLET_SPEED) by (nonlinear_arith)
        requires
            -UNIT <= b.heading.y <= UNIT,
    ;
    let dx = div_trunc(b.heading.x * BULLET_SPEED, UNIT * FPS);
    let dy = div_trunc(b.heading.y * BULLET_SPEED, UNIT * FPS);
    proof {
        lemma_small_quotient(b.heading.x * BULLET_SPEED, UNIT * BULLET_SPEED, UNIT * FPS);
        lemma_small_quotient(b.heading.y * BULLET_SPEED, UNIT * BULLET_SPEED, UNIT * FPS);
    }
    let q = Vec2i { x: b.position.x + dx, y: b.position.y + dy };
    let hw = m.width / 2;
    let hh = m.height / 2;
    if b.frames_left <= 1 || !(-hw <= q.x && q.x <= hw && -hh <= q.y && q.y <= hh) {
        None
    } else {
        Some(BulletState { position: q, frames_left: b.frames_left - 1, ..*b })
    }
}

/// Index of the first player a bullet at `q` is inside of.
fn struck(q: Vec2i, ps: &Vec<PlayerState>) -> (r: Option<usize>)
    requires
        in_world(q),
        forall|i: int| 0 <= i < ps@.len() ==> valid_player(#[trigger] ps@[i]),
    ensures
        r matches Some(i) ==> i < ps@.len() && struck_from(q, ps@, 0) == Some(i as int),
        r is None ==> struck_from(q, ps@, 0) is None,
{
    let mut i: usize = 0;
    while i < ps.len()
        invariant
            i <= ps@.len(),
            in_world(q),
            forall|k: int| 0 <= k < ps@.len() ==> valid_player(#[trigger] ps@[k]),
            struck_from(q, ps@, 0) == struck_from(q, ps@, i as int),
        decreases ps@.len() - i,
    {
        assert(valid_player(ps@[i as int]));
        let d2 = distance_sq(q, ps[i].position);
        if ps[i].health > 0 && 4 * d2 < DEFAULT_PLAYER_SIZE * DEFAULT_PLAYER_SIZE {
            return Some(i);
        }
        i = i + 1;
    }
    None
}

/// Every player reloads and fires: the bullets after the new ones are
/// appended, and the players with their guns reloaded or spent.
fn fire_all(players: &Vec<PlayerState>, bullets: Vec<BulletState>, m: MapSettings) -> (r: (
    Vec<PlayerState>,
    Vec<BulletState>,
))
    requires
        valid_map(m),
        forall|i: int| 0 <= i < players@.len() ==> valid_player(#[trigger] players@[i]),
        forall|i: int| 0 <= i < bullets@.len() ==> valid_bullet(#[trigger] bullets@[i]),
    ensures
        r.0@ == Seq::new(players@.len(), |i: int| rearmed(players@[i])),
        r.1@ == bullets@ + new_bullets(players@, m),
        forall|i: int| 0 <= i < r.1@.len() ==> valid_bullet(#[trigger] r.1@[i]),
{
    let ghost ps0 = players@;
    let mut fired = bullets;
    let ghost bs0 = fired@;
    let mut armed: Vec<PlayerState> = Vec::new();
    let mut i: usize = 0;
    assert(ps0.take(0) =~= Seq::<PlayerState>::empty());
    assert(bs0 + new_bullets(ps0.take(0), m) =~= bs0);
    while i < players.len()
        invariant
            i <= ps0.len(),
            players@ == ps0,
            valid_map(m),
            forall|k: int| 0 <= k < ps0.len() ==> valid_player(#[trigger] ps0[k]),
            forall|k: int| 0 <= k < fired@.len() ==> valid_bullet(#[trigger] fired@[k]),
            fired@ == bs0 + new_bullets(ps0.take(i as int), m),
            armed@.len() == i,
            forall|k: int| 0 <= k < i ==> #[trigger] armed@[k] == rearmed(ps0[k]),
        decreases ps0.len() - i,
    {
        let p = players[i];
        assert(valid_player(p));
        proof {
            assert(ps0.take(i + 1).drop_last() =~= ps0.take(i as int));
            assert(ps0.take(i + 1).last() == p);
        }
        if p.health > 0 && p.controls.firing && p.bullet_ready {
            let pos = muzzle_exec(&p, m);
            let nb = BulletState { owner: p.id, position: pos, heading: p.heading, frames_left: BULLET_FLIGHT_FRAMES };
            fired.push(nb);
            proof {
                let prev = new_bullets(ps0.take(i as int), m);
                assert(bs0 + prev.push(nb) =~= (bs0 + prev).push(nb));
            }
        }
        armed.push(PlayerState { bullet_ready: !p.controls.firing, ..p });
        i = i + 1;
    }
    proof {
        assert(ps0.take(ps0.len() as int) =~= ps0);
        assert(armed@ =~= Seq::new(ps0.len(), |k: int| rearmed(ps0[k])));
    }
    (armed, fired)
}

/// Every bullet flies one step; the spent ones and those off the map drop out.
fn fly_all(bullets: &Vec<BulletState>, m: MapSettings) -> (r: Vec<BulletState>)
    requires
        valid_map(m),
        forall|i: int| 0 <= i < bullets@.len() ==> valid_bullet(#[trigger] bullets@[i]),
    ensures
        r@ == flown_bullets(bullets@, m),
        forall|i: int| 0 <= i < r@.len() ==> valid_bullet(#[trigger] r@[i]),
{
    let ghost all = bullets@;
    let mut flying: Vec<BulletState> = Vec::new();
    let mut j: usize = 0;
    assert(all.take(0) =~= Seq::<BulletState>::empty());
    while j < bullets.len()
        invariant
            j <= all.len(),
            bullets@ == all,
            valid_map(m),
            forall|k: int| 0 <= k < all.len() ==> valid_bullet(#[trigger] all[k]),
            forall|k: int| 0 <= k < flying@.len() ==> valid_bullet(#[trigger] flying@[k]),
            flying@ == flown_bullets(all.take(j as int), m),
        decreases all.len() - j,
    {
        let b = bullets[j];
        assert(valid_bullet(b));
        proof {
            assert(all.take(j + 1).drop_last() =~= all.take(j as int));
            assert(all.take(j + 1).last() == b);
        }
        match fly(&b, m) {
            Some(c) => {
                flying.push(c);
            },
            None => {},
        }
        j = j + 1;
    }
    proof {
        assert(all.take(all.len() as int) =~= all);
    }
    flying
}

/// Each bullet, in order, hits the first player it is inside of and is used
/// up; the others keep flying.
fn hit_all(players: Vec<PlayerState>, bullets: &Vec<BulletState>) -> (r: (Vec<PlayerState>, Vec<BulletState>, Vec<(DamageEvent, bool)>))
    requires
        forall|i: int| 0 <= i < players@.len() ==> valid_player(#[trigger] players@[i]),
        forall|i: int| 0 <= i < bullets@.len() ==> valid_bullet(#[trigger] bullets@[i]),
    ensures
        (r.0@, r.1@, r.2@) == resolve_hits(players@, bullets@),
        r.0@.len() == players@.len(),
        forall|i: int| 0 <= i < r.0@.len() ==> valid_player(#[trigger] r.0@[i]),
        forall|i: int| 0 <= i < r.1@.len() ==> valid_bullet(#[trigger] r.1@[i]),
        forall|i: int| 0 <= i < r.0@.len() ==> (#[trigger] r.0@[i]).id == players@[i].id && r.0@[i].position
            == players@[i].position,
{
    let ghost fl = bullets@;
    let ghost a0 = players@;
    let mut armed = players;
    let mut kept: Vec<BulletState> = Vec::new();
    let mut hits: Vec<(DamageEvent, bool)> = Vec::new();
    let mut k: usize = 0;
    assert(fl.take(0) =~= Seq::<BulletState>::empty());
    while k < bullets.len()
        invariant
            k <= fl.len(),
            bullets@ == fl,
            forall|t: int| 0 <= t < fl.len() ==> valid_bullet(#[trigger] fl[t]),
            forall|t: int| 0 <= t < kept@.len() ==> valid_bullet(#[trigger] kept@[t]),
            forall|t: int| 0 <= t < armed@.len() ==> valid_player(#[trigger] armed@[t]),
            armed@.len() == a0.len(),
            forall|t: int| 0 <= t < armed@.len() ==> (#[trigger] armed@[t]).id == a0[t].id && armed@[t].position
                == a0[t].position,
            (armed@, kept@, hits@) == resolve_hits(a0, fl.take(k as int)),
        decreases fl.len() - k,
    {
        let b = bullets[k];
        assert(valid_bullet(b));
        proof {
            assert(fl.take(k + 1).drop_last() =~= fl.take(k as int));
            assert(fl.take(k + 1).last() == b);
        }
        let ghost before = armed@;
        match struck(b.position, &armed) {
            Some(t) => {
                let p = armed[t];
                let w = wound(&p);
                armed.set(t, w);
                hits.push((DamageEvent { victim: p.id, attacker: b.owner }, w.health <= 0));
                proof {
                    assert(armed@ =~= before.update(t as int, wounded(before[t as int])));
                }
            },
            None => {
                kept.push(b);
            },
        }
        k = k + 1;
    }
    proof {
        assert(fl.take(fl.len() as int) =~= fl);
    }
    (armed, kept, hits)
}

/// Runs one frame of combat on the players and the bullets in flight.
pub fn combat_step(players: &Vec<PlayerState>, bullets: Vec<BulletState>, m: MapSettings) -> (r: (
    Vec<PlayerState>,
    Vec<BulletState>,
    Vec<(DamageEvent, bool)>,
))
    requires
        valid_map(m),
        forall|i: int| 0 <= i < players@.len() ==> valid_player(#[trigger] players@[i]),
        forall|i: int| 0 <= i < bullets@.len() ==> valid_bullet(#[trigger] bullets@[i]),
    ensures
        (r.0@, r.1@, r.2@) == combat(players@, bullets@, m),
        forall|i: int| 0 <= i < r.0@.len() ==> valid_player(#[trigger] r.0@[i]),
        forall|i: int| 0 <= i < r.1@.len() ==> valid_bullet(#[trigger] r.1@[i]),
        r.0@.len() == players@.len(),
        forall|i: int| 0 <= i < r.0@.len() ==> (#[trigger] r.0@[i]).id == players@[i].id && r.0@[i].position
            == players@[i].position,
{
    let (armed, fired) = fire_all(players, bullets, m);
    proof {
        assert forall|t: int| 0 <= t < armed@.len() implies valid_player(#[trigger] armed@[t]) by {
            assert(armed@[t] == rearmed(players@[t]));
        }
    }
    let flying = fly_all(&fired, m);
    let r = hit_all(armed, &flying);
    proof {
        assert forall|t: int| 0 <= t < r.0@.len() implies (#[trigger] r.0@[t]).id == players@[t].id
            && r.0@[t].position == players@[t].position by {
            assert(armed@[t] == rearmed(players@[t]));
        }
    }
    r
}

/// A creature after a hit on a player: the creatures of a wounded player turn
/// on the shooter; those of a player left without hit points stop following
/// and chasing.
pub open spec fn reacted(c: Agent, hit: (DamageEvent, bool)) -> Agent {
    if c.kind == Some(hit.0.victim) {
        if hit.1 {
            Agent { follow: None, target: None, ..c }
        } else {
            Agent { target: Some(hit.0.attacker), ..c }
        }
    } else {
        c
    }
}

/// The creatures after the hits, one after the other.
pub open spec fn after_hits(cs: Seq<Agent>, hits: Seq<(DamageEvent, bool)>) -> Seq<Agent>
    decreases hits.len(),
{
    if hits.len() == 0 {
        cs
    } else {
        let prev = after_hits(cs, hits.drop_last());
        Seq::new(prev.len(), |i: int| reacted(prev[i], hits.last()))
    }
}

fn react(c: &Agent, hit: &(DamageEvent, bool)) -> (r: Agent)
    ensures
        r == reacted(*c, *hit),
{
    let owned = match c.kind {
        Some(k) => k == hit.0.victim,
        None => false,
    };
    if owned {
        if hit.1 {
            Agent { follow: None, target: None, ..*c }
        } else {
            Agent { target: Some(hit.0.attacker), ..*c }
        }
    } else {
        *c
    }
}

/// Lets the creatures react to the frame's hits on players, in order.
pub fn handle_damage_events(creatures: &mut Vec<Agent>, hits: &Vec<(DamageEvent, bool)>)
    requires
        valid_snapshot(old(creatures)@),
    ensures
        final(creatures)@ == after_hits(old(creatures)@, hits@),
        valid_snapshot(final(creatures)@),
        final(creatures)@.len() == old(creatures)@.len(),
        forall|i: int| 0 <= i < final(creatures)@.len() ==> (#[trigger] final(creatures)@[i]).id == old(creatures)@[i].id
            && final(creatures)@[i].position == old(creatures)@[i].position,
{
    let ghost start = creatures@;
    let mut h: usize = 0;
    assert(hits@.take(0) =~= Seq::<(DamageEvent, bool)>::empty());
    while h < hits.len()
        invariant
            h <= hits@.len(),
            creatures@ == after_hits(start, hits@.take(h as int)),
            valid_snapshot(creatures@),
            creatures@.len() == start.len(),
            forall|i: int| 0 <= i < creatures@.len() ==> (#[trigger] creatures@[i]).id == start[i].id
                && creatures@[i].position == start[i].position,
        decreases hits@.len() - h,
    {
        let hit = hits[h];
        let ghost before = creatures@;
        proof {
            assert(hits@.take(h + 1).drop_last() =~= hits@.take(h as int));
            assert(hits@.take(h + 1).last() == hit);
        }
        let mut i: usize = 0;
        while i < creatures.len()
            invariant
                i <= before.len(),
                creatures@.len() == before.len(),
                forall|k: int| 0 <= k < i ==> #[trigger] creatures@[k] == reacted(before[k], hit),
                forall|k: int| i <= k < before.len() ==> #[trigger] creatures@[k] == before[k],
            decreases before.len() - i,
        {
            let c = creatures[i];
            let r = react(&c, &hit);
            creatures.set(i, r);
            i = i + 1;
        }
        proof {
            assert(creatures@ =~= Seq::new(before.len(), |k: int| reacted(before[k], hit)));
            assert forall|k: int| 0 <= k < creatures@.len() implies valid_agent(#[trigger] creatures@[k]) by {
                assert(valid_agent(before[k]));
            }
            assert forall|a: int, b: int|
                0 <= a < creatures@.len() && 0 <= b < creatures@.len() && a != b implies creatures@[a].id
                != creatures@[b].id by {
                assert(creatures@[a].id == before[a].id);
                assert(creatures@[b].id == before[b].id);
            }
            assert forall|k: int| 0 <= k < creatures@.len() implies (#[trigger] creatures@[k]).id == start[k].id
                && creatures@[k].position == start[k].position by {
                assert(creatures@[k] == reacted(before[k], hit));
            }
        }
        h = h + 1;
    }
    proof {
        assert(hits@.take(hits@.len() as int) =~= hits@);
    }
}

/// The players after the creatures' strikes, in order: each strike takes a hit
/// point from its victim.
pub open spec fn struck_players(ps: Seq<PlayerState>, strikes: Seq<DamageEvent>) -> Seq<PlayerState>
    decreases strikes.len(),
{
    if strikes.len() == 0 {
        ps
    } else {
        let prev = struck_players(ps, strikes.drop_last());
        let e = strikes.last();
        Seq::new(prev.len(), |i: int| if prev[i].id == e.victim { wounded(prev[i]) } else { prev[i] })
    }
}

/// Applies the creatures' strikes to the players, in order.
pub fn strike_players(players: &mut Vec<PlayerState>, strikes: &Vec<DamageEvent>)
    requires
        forall|i: int| 0 <= i < old(players)@.len() ==> valid_player(#[trigger] old(players)@[i]),
    ensures
        final(players)@ == struck_players(old(players)@, strikes@),
        final(players)@.len() == old(players)@.len(),
        forall|i: int| 0 <= i < final(players)@.len() ==> valid_player(#[trigger] final(players)@[i]),
        forall|i: int| 0 <= i < final(players)@.len() ==> (#[trigger] final(players)@[i]).id == old(players)@[i].id
            && final(players)@[i].position == old(players)@[i].position,
{
    let ghost start = players@;
    let mut h: usize = 0;
    assert(strikes@.take(0) =~= Seq::<DamageEvent>::empty());
    while h < strikes.len()
        invariant
            h <= strikes@.len(),
            players@ == struck_players(start, strikes@.take(h as int)),
            players@.len() == start.len(),
            forall|i: int| 0 <= i < players@.len() ==> valid_player(#[trigger] players@[i]),
            forall|i: int| 0 <= i < players@.len() ==> (#[trigger] players@[i]).id == start[i].id
                && players@[i].position == start[i].position,
        decreases strikes@.len() - h,
    {
        let e = strikes[h];
        let ghost before = players@;
        proof {
            assert(strikes@.take(h + 1).drop_last() =~= strikes@.take(h as int));
            assert(strikes@.take(h + 1).last() == e);
        }
        let mut i: usize = 0;
        while i < players.len()
            invariant
                i <= before.len(),
                players@.len() == before.len(),
                forall|k: int|
                    0 <= k < i ==> #[trigger] players@[k] == (if before[k].id == e.victim {
                        wounded(before[k])
                    } else {
                        before[k]
                    }),
                forall|k: int| i <= k < before.len() ==> #[trigger] players@[k] == before[k],
            decreases before.len() - i,
        {
            let p = players[i];
            if p.id == e.victim {
                let w = wound(&p);
                players.set(i, w);
            }
            i = i + 1;
        }
        proof {
            assert(players@ =~= Seq::new(
                before.len(),
                |k: int| if before[k].id == e.victim { wounded(before[k]) } else { before[k] },
            ));
            assert forall|k: int| 0 <= k < players@.len() implies valid_player(#[trigger] players@[k])
                && players@[k].id == start[k].id && players@[k].position == start[k].position by {
                assert(valid_player(before[k]));
            }
        }
        h = h + 1;
    }
    proof {
        assert(strikes@.take(strikes@.len() as int) =~= strikes@);
    }
}

} // verus!
