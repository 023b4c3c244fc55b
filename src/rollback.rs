use std::collections::HashMap;
use vstd::prelude::*;
use crate::geometry::{Vec2i, in_world, UNIT, WORLD_LIMIT};
use crate::grid::{CacheGrid, updates_applied, cache_grid_update_system};
use crate::forces::{
    Agent, ApplyForceEvent, valid_snapshot, valid_agent, valid_players, MAX_AGENTS, MAX_CREATURE_SIZE,
    all_forces, index_agents, accumulate_forces, force_inputs_ok,
};
use crate::integrate::{apply_events, apply_force_event_system};
use crate::input::{InputStatus, spec_effective_input, spec_controls, effective_input, controls_from_input};
use crate::motion::{
    MapSettings, PlayerState, valid_map, valid_player, moved_player, moved_creature, move_player,
    move_creature, collected, follow_collection, strike,
};
use crate::combat::{
    BulletState, valid_bullet, combat, combat_step, after_hits, handle_damage_events, struck_players,
    strike_players, revived, revive,
};
use crate::components::DamageEvent;

verus! {

broadcast use vstd::std_specs::hash::group_hash_axioms;

/// Number of frames simulated so far; part of the rolled-back state.
#[derive(Debug, Clone, Copy, PartialEq, Eq, Structural)]
pub struct FrameCount {
    pub frame: u32,
}

/// Counts one more frame.
pub fn increase_frame_count(frame_count: &mut FrameCount)
    requires
        old(frame_count).frame < u32::MAX,
    ensures
        final(frame_count).frame == old(frame_count).frame + 1,
{
    frame_count.frame = frame_count.frame + 1;
}

/// Number of creatures each force worker takes at a time.
pub const FORCE_CHUNK: usize = 64;

/// Everything a frame changes and a rollback restores.
pub struct World {
    pub frame_count: FrameCount,
    pub players: Vec<PlayerState>,
    pub creatures: Vec<Agent>,
    pub bullets: Vec<BulletState>,
    pub map: MapSettings,
}

/// The mathematical value of a `World`.
pub struct WorldView {
    pub frame: u32,
    pub players: Seq<PlayerState>,
    pub creatures: Seq<Agent>,
    pub bullets: Seq<BulletState>,
    pub map: MapSettings,
}

impl View for World {
    type V = WorldView;

    open spec fn view(&self) -> WorldView {
        WorldView {
            frame: self.frame_count.frame,
            players: self.players@,
            creatures: self.creatures@,
            bullets: self.bullets@,
            map: self.map,
        }
    }
}

pub open spec fn valid_world(w: WorldView) -> bool {
    &&& valid_map(w.map)
    &&& valid_snapshot(w.creatures)
    &&& forall|i: int| 0 <= i < w.players.len() ==> valid_player(#[trigger] w.players[i])
    &&& forall|i: int| 0 <= i < w.bullets.len() ==> valid_bullet(#[trigger] w.bullets[i])
}

/// The mask that counts for the player in slot `handle` this frame: its
/// input, zero when it is disconnected or has no slot.
pub open spec fn input_for(inputs: Seq<(u8, InputStatus)>, handle: usize) -> u8 {
    if handle < inputs.len() {
        spec_effective_input(inputs[handle as int].0, inputs[handle as int].1)
    } else {
        0
    }
}

/// The players after reading their inputs, coming back if their respawn ran
/// out, and moving one step.
pub open spec fn stepped_players(
    players: Seq<PlayerState>,
    inputs: Seq<(u8, InputStatus)>,
    m: MapSettings,
) -> Seq<PlayerState> {
    Seq::new(
        players.len(),
        |i: int|
            moved_player(
                revived(PlayerState { controls: spec_controls(input_for(inputs, players[i].handle)), ..players[i] }),
                m,
            ),
    )
}

pub open spec fn player_points(players: Seq<PlayerState>) -> Seq<(u64, Vec2i)> {
    Seq::new(players.len(), |i: int| (players[i].id, players[i].position))
}

pub open spec fn creature_points(creatures: Seq<Agent>) -> Seq<(u64, Vec2i)> {
    Seq::new(creatures.len(), |i: int| (creatures[i].id, creatures[i].position))
}

/// The creatures after the players collected the free ones near them.
pub open spec fn collected_creatures(creatures: Seq<Agent>, players: Seq<(u64, Vec2i)>) -> Seq<Agent> {
    Seq::new(creatures.len(), |i: int| collected(creatures[i], players))
}

pub open spec fn moved_creatures(
    creatures: Seq<Agent>,
    players: Seq<(u64, Vec2i)>,
    m: MapSettings,
) -> Seq<Agent> {
    Seq::new(creatures.len(), |i: int| moved_creature(creatures[i], players, m))
}

/// The buckets of a grid that records the creatures in their order.
pub open spec fn grid_cells_of(creatures: Seq<Agent>) -> Map<u64, Seq<u64>> {
    updates_applied(Map::empty(), Map::empty(), creature_points(creatures)).0
}

/// The strikes of the creatures on their targets this step, in creature order.
pub open spec fn strikes_of(cs: Seq<Agent>, players: Seq<(u64, Vec2i)>) -> Seq<DamageEvent>
    decreases cs.len(),
{
    if cs.len() == 0 {
        Seq::empty()
    } else {
        let prev = strikes_of(cs.drop_last(), players);
        match strike(cs.last(), players) {
            Some(e) => prev.push(e),
            None => prev,
        }
    }
}

/// One frame: players read their inputs and move, players reload and fire,
/// bullets fly and hit, the creatures of hit players react, players collect
/// the free creatures near them, creatures move or strike their targets, the
/// grid is rebuilt from the new positions, the forces are
/// computed and blended into the creatures' headings, and the frame count goes
/// up by one.
#[verifier::opaque]
pub open spec fn step_view(w: WorldView, inputs: Seq<(u8, InputStatus)>) -> WorldView {
    let fight = combat(stepped_players(w.players, inputs, w.map), w.bullets, w.map);
    let pp = player_points(fight.0);
    let gathered = collected_creatures(after_hits(w.creatures, fight.2), pp);
    let moved = moved_creatures(gathered, pp, w.map);
    WorldView {
        frame: (w.frame + 1) as u32,
        players: struck_players(fight.0, strikes_of(gathered, pp)),
        creatures: apply_events(moved, all_forces(moved, pp, grid_cells_of(moved))),
        bullets: fight.1,
        map: w.map,
    }
}

/// The players and bullets of a frame after combat, with the hits on players.
pub open spec fn frame_fight(w: WorldView, inputs: Seq<(u8, InputStatus)>) -> (Seq<PlayerState>, Seq<BulletState>, Seq<(DamageEvent, bool)>) {
    combat(stepped_players(w.players, inputs, w.map), w.bullets, w.map)
}

/// The creatures of a frame after reacting to the hits and being collected.
pub open spec fn frame_gathered(w: WorldView, inputs: Seq<(u8, InputStatus)>) -> Seq<Agent> {
    collected_creatures(after_hits(w.creatures, frame_fight(w, inputs).2), player_points(frame_fight(w, inputs).0))
}

/// A frame after the players and creatures moved, ready for the force
/// computation: the moved creatures, their id index, the players' positions,
/// and the grid rebuilt from the moved creatures.
pub struct FramePrep {
    pub frame_count: FrameCount,
    pub players: Vec<PlayerState>,
    pub player_points: Vec<(u64, Vec2i)>,
    pub creatures: Vec<Agent>,
    pub bullets: Vec<BulletState>,
    pub index: HashMap<u64, usize>,
    pub grid: CacheGrid,
    pub map: MapSettings,
}

impl FramePrep {
    /// The prepared frame of `w` with inputs `inputs`.
    pub open spec fn prepared_from(&self, w: WorldView, inputs: Seq<(u8, InputStatus)>) -> bool {
        &&& self.frame_count.frame == w.frame + 1
        &&& self.bullets@ == frame_fight(w, inputs).1
        &&& self.player_points@ == player_points(frame_fight(w, inputs).0)
        &&& self.creatures@ == moved_creatures(frame_gathered(w, inputs), self.player_points@, w.map)
        &&& self.players@ == struck_players(
            frame_fight(w, inputs).0,
            strikes_of(frame_gathered(w, inputs), self.player_points@),
        )
        &&& self.map == w.map
    }

    /// What the force computation and `finish_frame` rely on.
    pub open spec fn wf(&self) -> bool {
        &&& force_inputs_ok(self.creatures@, self.index@, self.player_points@, &self.grid)
        &&& self.grid.cells() == grid_cells_of(self.creatures@)
        &&& valid_map(self.map)
        &&& forall|i: int| 0 <= i < self.players@.len() ==> valid_player(#[trigger] self.players@[i])
        &&& forall|i: int| 0 <= i < self.bullets@.len() ==> valid_bullet(#[trigger] self.bullets@[i])
    }
}

/// The first half of a frame: players read their inputs and move, creatures
/// move, the frame is counted and the grid is rebuilt from the new positions.
pub fn prepare_frame(world: &World, inputs: &Vec<(u8, InputStatus)>) -> (r: FramePrep)
    requires
        valid_world(world@),
        world@.frame < u32::MAX,
    ensures
        r.wf(),
        r.prepared_from(world@, inputs@),
{
    let m = world.map;
    let mut players: Vec<PlayerState> = Vec::new();
    let mut i: usize = 0;
    while i < world.players.len()
        invariant
            i <= world.players@.len(),
            valid_world(world@),
            m == world.map,
            players@.len() == i,
            forall|k: int| 0 <= k < i ==> #[trigger] players@[k] == stepped_players(world.players@, inputs@, m)[k],
            forall|k: int| 0 <= k < i ==> valid_player(#[trigger] players@[k]),
        decreases world.players@.len() - i,
    {
        let p = world.players[i];
        assert(valid_player(world@.players[i as int]));
        let inp: u8 = if p.handle < inputs.len() {
            effective_input(inputs[p.handle].0, inputs[p.handle].1)
        } else {
            0
        };
        let c = controls_from_input(inp);
        let q = move_player(&revive(&PlayerState { controls: c, ..p }), m);
        players.push(q);
        i = i + 1;
    }
    proof {
        assert(players@ =~= stepped_players(world.players@, inputs@, m));
    }
    let in_flight = copy_bullets(&world.bullets);
    proof {
        assert forall|k: int| 0 <= k < in_flight@.len() implies valid_bullet(#[trigger] in_flight@[k]) by {
            assert(valid_bullet(world@.bullets[k]));
        }
    }
    let (players, bullets, hits) = combat_step(&players, in_flight, m);
    let mut hurt = copy_agents(&world.creatures);
    handle_damage_events(&mut hurt, &hits);
    let mut pp: Vec<(u64, Vec2i)> = Vec::new();
    let mut i: usize = 0;
    while i < players.len()
        invariant
            i <= players@.len(),
            pp@.len() == i,
            forall|k: int| 0 <= k < players@.len() ==> valid_player(#[trigger] players@[k]),
            forall|k: int| 0 <= k < i ==> #[trigger] pp@[k] == player_points(players@)[k],
        decreases players@.len() - i,
    {
        pp.push((players[i].id, players[i].position));
        i = i + 1;
    }
    proof {
        assert(pp@ =~= player_points(players@));
        assert forall|k: int| 0 <= k < pp@.len() implies in_world(#[trigger] pp@[k].1) by {
            assert(valid_player(players@[k]));
        }
    }
    let mut moved: Vec<Agent> = Vec::new();
    let mut cpts: Vec<(u64, Vec2i)> = Vec::new();
    let mut strikes: Vec<DamageEvent> = Vec::new();
    let ghost gathered = collected_creatures(hurt@, pp@);
    assert(gathered.take(0) =~= Seq::<Agent>::empty());
    let mut i: usize = 0;
    while i < hurt.len()
        invariant
            gathered == collected_creatures(hurt@, pp@),
            strikes@ == strikes_of(gathered.take(i as int), pp@),
            i <= hurt@.len(),
            valid_world(world@),
            valid_snapshot(hurt@),
            valid_players(pp@),
            m == world.map,
            moved@.len() == i,
            cpts@.len() == i,
            forall|k: int|
                0 <= k < i ==> #[trigger] moved@[k] == moved_creature(collected(hurt@[k], pp@), pp@, m),
            forall|k: int| 0 <= k < i ==> #[trigger] cpts@[k] == (moved@[k].id, moved@[k].position),
            forall|k: int| 0 <= k < i ==> valid_agent(#[trigger] moved@[k]),
            forall|k: int| 0 <= k < i ==> (#[trigger] moved@[k]).id == hurt@[k].id,
        decreases hurt@.len() - i,
    {
        let a = hurt[i];
        assert(valid_agent(a));
        let g = follow_collection(&a, &pp);
        proof {
            assert(gathered.take(i + 1).drop_last() =~= gathered.take(i as int));
            assert(gathered.take(i + 1).last() == g);
        }
        let (b, hit) = move_creature(&g, &pp, m);
        match hit {
            Some(e) => {
                strikes.push(e);
            },
            None => {},
        }
        moved.push(b);
        cpts.push((b.id, b.position));
        i = i + 1;
    }
    proof {
        assert(moved@ =~= moved_creatures(collected_creatures(hurt@, pp@), pp@, m));
        assert(cpts@ =~= creature_points(moved@));
        assert forall|a: int, b: int|
            0 <= a < moved@.len() && 0 <= b < moved@.len() && a != b implies moved@[a].id != moved@[b].id by {
            assert(moved@[a].id == hurt@[a].id);
            assert(moved@[b].id == hurt@[b].id);
        }
        assert(valid_snapshot(moved@));
        assert(gathered.take(hurt@.len() as int) =~= gathered);
    }
    let ghost fought = players@;
    let mut players = players;
    strike_players(&mut players, &strikes);
    proof {
        assert(player_points(players@) =~= player_points(fought));
    }
    let mut grid = CacheGrid::new();
    cache_grid_update_system(&mut grid, &cpts);
    let index = index_agents(&moved);
    let mut fc = world.frame_count;
    increase_frame_count(&mut fc);
    FramePrep { frame_count: fc, players, player_points: pp, creatures: moved, bullets, index, grid, map: m }
}

/// The second half of a frame: blends the force events, in their order, into
/// the moved creatures' headings.
pub fn finish_frame(prep: FramePrep, events: &Vec<ApplyForceEvent>) -> (r: World)
    requires
        prep.wf(),
    ensures
        r@ == (WorldView {
            frame: prep.frame_count.frame,
            players: prep.players@,
            creatures: apply_events(prep.creatures@, events@),
            bullets: prep.bullets@,
            map: prep.map,
        }),
        valid_world(r@),
{
    let FramePrep { frame_count, players, player_points: _, creatures, bullets, index, grid: _, map } = prep;
    let mut creatures = creatures;
    apply_force_event_system(&mut creatures, &index, events);
    World { frame_count, players, creatures, bullets, map }
}

/// Advances the world one frame with the given inputs, one per player slot.
pub fn step(world: &World, inputs: &Vec<(u8, InputStatus)>) -> (r: World)
    requires
        valid_world(world@),
        world@.frame < u32::MAX,
    ensures
        r@ == step_view(world@, inputs@),
        r@.frame == world@.frame + 1,
        valid_world(r@),
{
    let prep = prepare_frame(world, inputs);
    let events = accumulate_forces(&prep.creatures, &prep.index, &prep.player_points, &prep.grid, FORCE_CHUNK);
    let r = finish_frame(prep, &events);
    proof {
        reveal(step_view);
    }
    r
}

/// The eight bytes of `w`, least significant first.
pub open spec fn le_bytes(w: u64) -> Seq<u8> {
    Seq::new(8, |i: int| (w >> ((8 * i) as u64)) as u8)
}

/// The words that stand for one entity in a checksum.
pub open spec fn entity_words(id: u64, p: Vec2i, h: Vec2i) -> Seq<u64> {
    seq![id, p.x as u64, p.y as u64, h.x as u64, h.y as u64]
}

/// FNV-1a offset basis.
pub const FNV_OFFSET: u64 = 0xcbf2_9ce4_8422_2325;

/// FNV-1a prime.
pub const FNV_PRIME: u64 = 0x0000_0100_0000_01b3;

/// FNV-1a state `h` after the bytes `bs`.
pub open spec fn fnv_bytes(h: u64, bs: Seq<u8>) -> u64
    decreases bs.len(),
{
    if bs.len() == 0 {
        h
    } else {
        (fnv_bytes(h, bs.drop_last()) ^ (bs.last() as u64)).wrapping_mul(FNV_PRIME)
    }
}

/// The 64-bit FNV-1a hash of the little-endian bytes of the words, in order.
/// A fixed function, so every build of every peer computes the same value.
pub open spec fn words_hash(words: Seq<u64>) -> u64
    decreases words.len(),
{
    if words.len() == 0 {
        FNV_OFFSET
    } else {
        fnv_bytes(words_hash(words.drop_last()), le_bytes(words.last()))
    }
}

/// The words that stand for a player: its entity words, its hit points and
/// whether its gun is loaded.
pub open spec fn player_words(p: PlayerState) -> Seq<u64> {
    entity_words(p.id, p.position, p.heading) + seq![
        p.health as u64,
        flag_word(p.bullet_ready),
        p.controls.accel as u64,
        p.controls.steer as u64,
        flag_word(p.controls.firing),
        flag_word(p.controls.shift),
        p.respawn_frames as u64,
    ]
}

pub open spec fn flag_word(b: bool) -> u64 {
    if b { 1u64 } else { 0u64 }
}

/// Two words for an optional value: whether it is there, and the value.
pub open spec fn option_words(o: Option<u64>) -> Seq<u64> {
    match o {
        Some(v) => seq![1u64, v],
        None => seq![0u64, 0u64],
    }
}

/// The words that stand for a creature: its entity words, owner, size,
/// follow distance, target and strike cooldown.
pub open spec fn creature_words(c: Agent) -> Seq<u64> {
    entity_words(c.id, c.position, c.heading) + option_words(c.kind) + seq![c.size as u64]
        + option_words(match c.follow { Some(d) => Some(d as u64), None => None }) + option_words(c.target)
        + seq![c.attack_cooldown as u64]
}

/// The words that stand for a bullet.
pub open spec fn bullet_words(b: BulletState) -> Seq<u64> {
    seq![b.owner, b.position.x as u64, b.position.y as u64, b.heading.x as u64, b.heading.y as u64, b.frames_left as u64]
}

pub open spec fn player_hash(p: PlayerState) -> u64 {
    words_hash(player_words(p))
}

pub open spec fn bullet_hash(b: BulletState) -> u64 {
    words_hash(bullet_words(b))
}

/// Sum of the bullets' hashes.
pub open spec fn bullets_hash_sum(bs: Seq<BulletState>) -> int
    decreases bs.len(),
{
    if bs.len() == 0 {
        0
    } else {
        bullets_hash_sum(bs.drop_last()) + bullet_hash(bs.last())
    }
}

pub open spec fn creature_hash(c: Agent) -> u64 {
    words_hash(creature_words(c))
}

/// Sum of the players' hashes.
pub open spec fn players_hash_sum(ps: Seq<PlayerState>) -> int
    decreases ps.len(),
{
    if ps.len() == 0 {
        0
    } else {
        players_hash_sum(ps.drop_last()) + player_hash(ps.last())
    }
}

/// Sum of the creatures' hashes.
pub open spec fn creatures_hash_sum(cs: Seq<Agent>) -> int
    decreases cs.len(),
{
    if cs.len() == 0 {
        0
    } else {
        creatures_hash_sum(cs.drop_last()) + creature_hash(cs.last())
    }
}

pub const HASH_MODULUS: u128 = 18446744073709551616;

/// The checksum of a world: the hash of its frame count plus the hash of each
/// player, each creature and each bullet, wrapping. A sum does not depend on
/// the order in which the entities are listed.
pub open spec fn world_checksum(w: WorldView) -> u64 {
    ((words_hash(seq![w.frame as u64]) + players_hash_sum(w.players) + creatures_hash_sum(w.creatures)
        + bullets_hash_sum(w.bullets)) % (HASH_MODULUS as int)) as u64
}

/// Feeds the eight bytes of `w`, least significant first, into FNV-1a state `h`.
fn fnv_word(h: u64, w: u64) -> (r: u64)
    ensures
        r == fnv_bytes(h, le_bytes(w)),
{
    let ghost bs = le_bytes(w);
    let mut acc: u64 = h;
    let mut k: u64 = 0;
    assert(bs.take(0) =~= Seq::<u8>::empty());
    while k < 8
        invariant
            k <= 8,
            bs == le_bytes(w),
            bs.len() == 8,
            acc == fnv_bytes(h, bs.take(k as int)),
        decreases 8 - k,
    {
        let b: u8 = (w >> (8 * k)) as u8;
        proof {
            assert(bs.take(k + 1).drop_last() =~= bs.take(k as int));
            assert(bs.take(k + 1).last() == bs[k as int]);
            assert(b == bs[k as int]);
        }
        acc = (acc ^ (b as u64)).wrapping_mul(FNV_PRIME);
        k = k + 1;
    }
    assert(bs.take(8) =~= bs);
    acc
}

/// Hashes words with FNV-1a, eight little-endian bytes per word.
fn hash_words(words: &Vec<u64>) -> (r: u64)
    ensures
        r == words_hash(words@),
{
    let mut h: u64 = FNV_OFFSET;
    let mut k: usize = 0;
    assert(words@.take(0) =~= Seq::<u64>::empty());
    while k < words.len()
        invariant
            k <= words@.len(),
            h == words_hash(words@.take(k as int)),
        decreases words@.len() - k,
    {
        proof {
            assert(words@.take(k + 1).drop_last() =~= words@.take(k as int));
            assert(words@.take(k + 1).last() == words@[k as int]);
        }
        h = fnv_word(h, words[k]);
        k = k + 1;
    }
    assert(words@.take(words@.len() as int) =~= words@);
    h
}

fn player_hash_exec(p: &PlayerState) -> (r: u64)
    ensures
        r == player_hash(*p),
{
    let mut words: Vec<u64> = Vec::new();
    words.push(p.id);
    words.push(p.position.x as u64);
    words.push(p.position.y as u64);
    words.push(p.heading.x as u64);
    words.push(p.heading.y as u64);
    words.push(p.health as u64);
    words.push(if p.bullet_ready { 1u64 } else { 0u64 });
    words.push(p.controls.accel as u64);
    words.push(p.controls.steer as u64);
    words.push(if p.controls.firing { 1u64 } else { 0u64 });
    words.push(if p.controls.shift { 1u64 } else { 0u64 });
    words.push(p.respawn_frames as u64);
    assert(words@ =~= player_words(*p));
    hash_words(&words)
}

fn push_option(words: &mut Vec<u64>, o: Option<u64>)
    ensures
        final(words)@ == old(words)@ + option_words(o),
{
    match o {
        Some(v) => {
            words.push(1);
            words.push(v);
        },
        None => {
            words.push(0);
            words.push(0);
        },
    }
    assert(final(words)@ =~= old(words)@ + option_words(o));
}

fn creature_hash_exec(c: &Agent) -> (r: u64)
    ensures
        r == creature_hash(*c),
{
    let mut words: Vec<u64> = Vec::new();
    words.push(c.id);
    words.push(c.position.x as u64);
    words.push(c.position.y as u64);
    words.push(c.heading.x as u64);
    words.push(c.heading.y as u64);
    push_option(&mut words, c.kind);
    words.push(c.size as u64);
    let follow: Option<u64> = match c.follow {
        Some(d) => Some(d as u64),
        None => None,
    };
    push_option(&mut words, follow);
    push_option(&mut words, c.target);
    words.push(c.attack_cooldown as u64);
    assert(words@ =~= creature_words(*c));
    hash_words(&words)
}

fn bullet_hash_exec(b: &BulletState) -> (r: u64)
    ensures
        r == bullet_hash(*b),
{
    let mut words: Vec<u64> = Vec::new();
    words.push(b.owner);
    words.push(b.position.x as u64);
    words.push(b.position.y as u64);
    words.push(b.heading.x as u64);
    words.push(b.heading.y as u64);
    words.push(b.frames_left as u64);
    assert(words@ =~= bullet_words(*b));
    hash_words(&words)
}

/// The checksum of the world, for peers to compare out of band.
pub fn checksum(world: &World) -> (r: u64)
    ensures
        r == world_checksum(world@),
{
    let mut frame_words: Vec<u64> = Vec::new();
    frame_words.push(world.frame_count.frame as u64);
    assert(frame_words@ =~= seq![world.frame_count.frame as u64]);
    let base = hash_words(&frame_words);
    let ghost m = HASH_MODULUS as int;
    let mut acc: u64 = base;
    let mut i: usize = 0;
    assert(world.players@.take(0) =~= Seq::<PlayerState>::empty());
    assert(base as int % m == base as int);
    while i < world.players.len()
        invariant
            i <= world.players@.len(),
            m == HASH_MODULUS as int,
            acc as int == (base + players_hash_sum(world.players@.take(i as int))) % m,
        decreases world.players@.len() - i,
    {
        let p = world.players[i];
        let h = player_hash_exec(&p);
        proof {
            assert(world.players@.take(i + 1).drop_last() =~= world.players@.take(i as int));
            vstd::arithmetic::div_mod::lemma_add_mod_noop(
                base + players_hash_sum(world.players@.take(i as int)),
                h as int,
                m,
            );
            vstd::arithmetic::div_mod::lemma_small_mod(h as nat, m as nat);
        }
        acc = acc.wrapping_add(h);
        i = i + 1;
    }
    assert(world.players@.take(world.players@.len() as int) =~= world.players@);
    let ghost after_players = base + players_hash_sum(world.players@);
    let mut i: usize = 0;
    assert(world.creatures@.take(0) =~= Seq::<Agent>::empty());
    while i < world.creatures.len()
        invariant
            i <= world.creatures@.len(),
            m == HASH_MODULUS as int,
            acc as int == (after_players + creatures_hash_sum(world.creatures@.take(i as int))) % m,
        decreases world.creatures@.len() - i,
    {
        let c = world.creatures[i];
        let h = creature_hash_exec(&c);
        proof {
            assert(world.creatures@.take(i + 1).drop_last() =~= world.creatures@.take(i as int));
            vstd::arithmetic::div_mod::lemma_add_mod_noop(
                after_players + creatures_hash_sum(world.creatures@.take(i as int)),
                h as int,
                m,
            );
            vstd::arithmetic::div_mod::lemma_small_mod(h as nat, m as nat);
        }
        acc = acc.wrapping_add(h);
        i = i + 1;
    }
    assert(world.creatures@.take(world.creatures@.len() as int) =~= world.creatures@);
    let ghost after_creatures = after_players + creatures_hash_sum(world.creatures@);
    let mut i: usize = 0;
    assert(world.bullets@.take(0) =~= Seq::<BulletState>::empty());
    while i < world.bullets.len()
        invariant
            i <= world.bullets@.len(),
            m == HASH_MODULUS as int,
            acc as int == (after_creatures + bullets_hash_sum(world.bullets@.take(i as int))) % m,
        decreases world.bullets@.len() - i,
    {
        let b = world.bullets[i];
        let h = bullet_hash_exec(&b);
        proof {
            assert(world.bullets@.take(i + 1).drop_last() =~= world.bullets@.take(i as int));
            vstd::arithmetic::div_mod::lemma_add_mod_noop(
                after_creatures + bullets_hash_sum(world.bullets@.take(i as int)),
                h as int,
                m,
            );
            vstd::arithmetic::div_mod::lemma_small_mod(h as nat, m as nat);
        }
        acc = acc.wrapping_add(h);
        i = i + 1;
    }
    assert(world.bullets@.take(world.bullets@.len() as int) =~= world.bullets@);
    acc
}

proof fn lemma_players_sum_remove(s: Seq<PlayerState>, i: int)
    requires
        0 <= i < s.len(),
    ensures
        players_hash_sum(s) == players_hash_sum(s.remove(i)) + player_hash(s[i]),
    decreases s.len(),
{
    if i == s.len() - 1 {
        assert(s.remove(i) =~= s.drop_last());
    } else {
        lemma_players_sum_remove(s.drop_last(), i);
        assert(s.drop_last().remove(i) =~= s.remove(i).drop_last());
        assert(s.remove(i).last() == s.last());
    }
}

proof fn lemma_creatures_sum_remove(s: Seq<Agent>, i: int)
    requires
        0 <= i < s.len(),
    ensures
        creatures_hash_sum(s) == creatures_hash_sum(s.remove(i)) + creature_hash(s[i]),
    decreases s.len(),
{
    if i == s.len() - 1 {
        assert(s.remove(i) =~= s.drop_last());
    } else {
        lemma_creatures_sum_remove(s.drop_last(), i);
        assert(s.drop_last().remove(i) =~= s.remove(i).drop_last());
        assert(s.remove(i).last() == s.last());
    }
}

proof fn lemma_players_sum_permutation(s1: Seq<PlayerState>, s2: Seq<PlayerState>)
    requires
        s1.to_multiset() == s2.to_multiset(),
    ensures
        players_hash_sum(s1) == players_hash_sum(s2),
    decreases s1.len(),
{
    broadcast use vstd::seq_lib::group_to_multiset_ensures;

    if s1.len() == 0 {
        assert(s1.to_multiset().len() == s1.len());
        assert(s2.to_multiset().len() == s2.len());
    } else {
        let x = s1.last();
        assert(s1 =~= s1.drop_last().push(x));
        assert(s2.to_multiset().count(x) > 0);
        assert(s2.contains(x));
        let i = choose|i: int| 0 <= i < s2.len() && s2[i] == x;
        assert(s1.drop_last().to_multiset() =~= s2.remove(i).to_multiset());
        lemma_players_sum_permutation(s1.drop_last(), s2.remove(i));
        lemma_players_sum_remove(s2, i);
    }
}

proof fn lemma_creatures_sum_permutation(s1: Seq<Agent>, s2: Seq<Agent>)
    requires
        s1.to_multiset() == s2.to_multiset(),
    ensures
        creatures_hash_sum(s1) == creatures_hash_sum(s2),
    decreases s1.len(),
{
    broadcast use vstd::seq_lib::group_to_multiset_ensures;

    if s1.len() == 0 {
        assert(s1.to_multiset().len() == s1.len());
        assert(s2.to_multiset().len() == s2.len());
    } else {
        let x = s1.last();
        assert(s1 =~= s1.drop_last().push(x));
        assert(s2.to_multiset().count(x) > 0);
        assert(s2.contains(x));
        let i = choose|i: int| 0 <= i < s2.len() && s2[i] == x;
        assert(s1.drop_last().to_multiset() =~= s2.remove(i).to_multiset());
        lemma_creatures_sum_permutation(s1.drop_last(), s2.remove(i));
        lemma_creatures_sum_remove(s2, i);
    }
}

proof fn lemma_bullets_sum_remove(s: Seq<BulletState>, i: int)
    requires
        0 <= i < s.len(),
    ensures
        bullets_hash_sum(s) == bullets_hash_sum(s.remove(i)) + bullet_hash(s[i]),
    decreases s.len(),
{
    if i == s.len() - 1 {
        assert(s.remove(i) =~= s.drop_last());
    } else {
        lemma_bullets_sum_remove(s.drop_last(), i);
        assert(s.drop_last().remove(i) =~= s.remove(i).drop_last());
        assert(s.remove(i).last() == s.last());
    }
}

proof fn lemma_bullets_sum_permutation(s1: Seq<BulletState>, s2: Seq<BulletState>)
    requires
        s1.to_multiset() == s2.to_multiset(),
    ensures
        bullets_hash_sum(s1) == bullets_hash_sum(s2),
    decreases s1.len(),
{
    broadcast use vstd::seq_lib::group_to_multiset_ensures;

    if s1.len() == 0 {
        assert(s1.to_multiset().len() == s1.len());
        assert(s2.to_multiset().len() == s2.len());
    } else {
        let x = s1.last();
        assert(s1 =~= s1.drop_last().push(x));
        assert(s2.to_multiset().count(x) > 0);
        assert(s2.contains(x));
        let i = choose|i: int| 0 <= i < s2.len() && s2[i] == x;
        assert(s1.drop_last().to_multiset() =~= s2.remove(i).to_multiset());
        lemma_bullets_sum_permutation(s1.drop_last(), s2.remove(i));
        lemma_bullets_sum_remove(s2, i);
    }
}

/// The checksum does not depend on the order in which players, creatures and
/// bullets are listed: two worlds of the same frame holding the same entities
/// in any order have the same checksum.
pub proof fn lemma_checksum_order_independent(a: WorldView, b: WorldView)
    requires
        a.frame == b.frame,
        a.players.to_multiset() == b.players.to_multiset(),
        a.creatures.to_multiset() == b.creatures.to_multiset(),
        a.bullets.to_multiset() == b.bullets.to_multiset(),
    ensures
        world_checksum(a) == world_checksum(b),
{
    lemma_players_sum_permutation(a.players, b.players);
    lemma_creatures_sum_permutation(a.creatures, b.creatures);
    lemma_bullets_sum_permutation(a.bullets, b.bullets);
}

/// The world after running the frames of `inputs` in order.
pub open spec fn run_view(w: WorldView, inputs: Seq<Seq<(u8, InputStatus)>>) -> WorldView
    decreases inputs.len(),
{
    if inputs.len() == 0 {
        w
    } else {
        step_view(run_view(w, inputs.drop_last()), inputs.last())
    }
}

pub open spec fn inputs_view(inputs: Seq<Vec<(u8, InputStatus)>>) -> Seq<Seq<(u8, InputStatus)>> {
    inputs.map_values(|v: Vec<(u8, InputStatus)>| v@)
}

/// Runs the frames of `inputs` from `world` and returns the checksum after each.
pub fn run_checksums(world: &World, inputs: &Vec<Vec<(u8, InputStatus)>>) -> (r: Vec<u64>)
    requires
        valid_world(world@),
        world@.frame + inputs@.len() <= u32::MAX,
    ensures
        r@.len() == inputs@.len(),
        forall|n: int|
            0 <= n < inputs@.len() ==> #[trigger] r@[n] == world_checksum(
                run_view(world@, inputs_view(inputs@).take(n + 1)),
            ),
{
    let mut out: Vec<u64> = Vec::new();
    let mut cur = copy_world(world);
    let mut n: usize = 0;
    assert(inputs_view(inputs@).take(0) =~= Seq::<Seq<(u8, InputStatus)>>::empty());
    while n < inputs.len()
        invariant
            n <= inputs@.len(),
            valid_world(cur@),
            cur@ == run_view(world@, inputs_view(inputs@).take(n as int)),
            cur@.frame == world@.frame + n,
            world@.frame + inputs@.len() <= u32::MAX,
            out@.len() == n,
            forall|m: int|
                0 <= m < n ==> #[trigger] out@[m] == world_checksum(
                    run_view(world@, inputs_view(inputs@).take(m + 1)),
                ),
        decreases inputs@.len() - n,
    {
        let next = step(&cur, &inputs[n]);
        proof {
            let iv = inputs_view(inputs@);
            assert(iv.take(n + 1).drop_last() =~= iv.take(n as int));
            assert(iv.take(n + 1).last() == inputs@[n as int]@);
        }
        out.push(checksum(&next));
        cur = next;
        n = n + 1;
    }
    out
}

/// A copy of the creatures.
pub fn copy_agents(agents: &Vec<Agent>) -> (r: Vec<Agent>)
    ensures
        r@ == agents@,
{
    let mut r: Vec<Agent> = Vec::new();
    let mut i: usize = 0;
    while i < agents.len()
        invariant
            i <= agents@.len(),
            r@ == agents@.take(i as int),
        decreases agents@.len() - i,
    {
        r.push(agents[i]);
        i = i + 1;
        assert(r@ =~= agents@.take(i as int));
    }
    assert(r@ =~= agents@);
    r
}

/// A copy of the bullets in flight.
pub fn copy_bullets(bullets: &Vec<BulletState>) -> (r: Vec<BulletState>)
    ensures
        r@ == bullets@,
{
    let mut r: Vec<BulletState> = Vec::new();
    let mut i: usize = 0;
    while i < bullets.len()
        invariant
            i <= bullets@.len(),
            r@ == bullets@.take(i as int),
        decreases bullets@.len() - i,
    {
        r.push(bullets[i]);
        i = i + 1;
        assert(r@ =~= bullets@.take(i as int));
    }
    assert(r@ =~= bullets@);
    r
}

/// A copy of the world.
pub fn copy_world(world: &World) -> (r: World)
    ensures
        r@ == world@,
{
    let mut players: Vec<PlayerState> = Vec::new();
    let mut i: usize = 0;
    while i < world.players.len()
        invariant
            i <= world.players@.len(),
            players@ == world.players@.take(i as int),
        decreases world.players@.len() - i,
    {
        players.push(world.players[i]);
        i = i + 1;
        assert(players@ =~= world.players@.take(i as int));
    }
    let creatures = copy_agents(&world.creatures);
    assert(players@ =~= world.players@);
    let bullets = copy_bullets(&world.bullets);
    World { frame_count: world.frame_count, players, creatures, bullets, map: world.map }
}

/// Replaying the same inputs from the same world gives the same checksum after
/// every frame: two independent runs of the pipeline never diverge.
pub proof fn lemma_replay_deterministic(a: WorldView, b: WorldView, inputs: Seq<Seq<(u8, InputStatus)>>)
    requires
        a == b,
    ensures
        forall|n: int|
            0 <= n <= inputs.len() ==> #[trigger] world_checksum(run_view(a, inputs.take(n)))
                == world_checksum(run_view(b, inputs.take(n))),
{
}

/// Resimulating from a saved frame `k` with the inputs that were used for
/// frames `k ..` reproduces exactly the state that was reached before.
pub proof fn lemma_resimulation_reproduces(
    states: Seq<WorldView>,
    inputs: Seq<Seq<(u8, InputStatus)>>,
    k: int,
)
    requires
        states.len() == inputs.len() + 1,
        forall|j: int| 0 <= j < inputs.len() ==> #[trigger] states[j + 1] == step_view(states[j], inputs[j]),
        0 <= k <= inputs.len(),
    ensures
        run_view(states[k], inputs.subrange(k, inputs.len() as int)) == states.last(),
{
    lemma_resimulation_prefix(states, inputs, k, inputs.len() - k);
}

proof fn lemma_resimulation_prefix(
    states: Seq<WorldView>,
    inputs: Seq<Seq<(u8, InputStatus)>>,
    k: int,
    n: int,
)
    requires
        states.len() == inputs.len() + 1,
        forall|j: int| 0 <= j < inputs.len() ==> #[trigger] states[j + 1] == step_view(states[j], inputs[j]),
        0 <= k,
        0 <= n,
        k + n <= inputs.len(),
    ensures
        run_view(states[k], inputs.subrange(k, k + n)) == states[k + n],
    decreases n,
{
    if n > 0 {
        lemma_resimulation_prefix(states, inputs, k, n - 1);
        assert(inputs.subrange(k, k + n).drop_last() =~= inputs.subrange(k, k + n - 1));
        let j = k + n - 1;
        assert(states[j + 1] == step_view(states[j], inputs[j]));
        assert(j + 1 == k + n);
    } else {
        assert(inputs.subrange(k, k) =~= Seq::<Seq<(u8, InputStatus)>>::empty());
    }
}

/// The saved states of a session and the inputs that led from each to the next.
pub struct RollbackLog {
    /// `states[j]` is the world at the start of the `j`-th logged frame.
    pub states: Vec<World>,
    /// `inputs[j]` took `states[j]` to `states[j + 1]`.
    pub inputs: Vec<Vec<(u8, InputStatus)>>,
}

impl RollbackLog {
    pub open spec fn state_views(&self) -> Seq<WorldView> {
        self.states@.map_values(|w: World| w@)
    }

    pub open spec fn input_views(&self) -> Seq<Seq<(u8, InputStatus)>> {
        inputs_view(self.inputs@)
    }

    /// Each saved state is the step of the one before it with the logged inputs.
    pub open spec fn wf(&self) -> bool {
        let s = self.state_views();
        let i = self.input_views();
        &&& s.len() == i.len() + 1
        &&& forall|j: int| 0 <= j < i.len() ==> #[trigger] s[j + 1] == step_view(s[j], i[j])
        &&& forall|j: int| 0 <= j < s.len() ==> valid_world(#[trigger] s[j])
        &&& forall|j: int| 0 <= j < s.len() ==> #[trigger] s[j].frame == s[0].frame + j
    }

    /// A log that holds only the initial world.
    pub fn new(initial: World) -> (r: RollbackLog)
        requires
            valid_world(initial@),
        ensures
            r.wf(),
            r.state_views() == seq![initial@],
            r.input_views() == Seq::<Seq<(u8, InputStatus)>>::empty(),
    {
        let ghost iv = initial@;
        let mut states: Vec<World> = Vec::new();
        states.push(initial);
        let r = RollbackLog { states, inputs: Vec::new() };
        assert(r.state_views() =~= seq![iv]);
        assert(r.input_views() =~= Seq::<Seq<(u8, InputStatus)>>::empty());
        r
    }

    /// The latest state.
    pub fn current(&self) -> (r: &World)
        requires
            self.wf(),
        ensures
            r@ == self.state_views().last(),
    {
        &self.states[self.states.len() - 1]
    }

    /// Runs one more frame with `inputs` and saves the state it reaches.
    pub fn advance(&mut self, inputs: Vec<(u8, InputStatus)>)
        requires
            old(self).wf(),
            old(self).state_views().last().frame < u32::MAX,
        ensures
            final(self).wf(),
            final(self).input_views() == old(self).input_views().push(inputs@),
            final(self).state_views() == old(self).state_views().push(
                step_view(old(self).state_views().last(), inputs@),
            ),
    {
        let ghost s0 = self.state_views();
        let ghost i0 = self.input_views();
        let ghost iv = inputs@;
        let next = step(&self.states[self.states.len() - 1], &inputs);
        self.states.push(next);
        self.inputs.push(inputs);
        proof {
            assert(self.state_views() =~= s0.push(step_view(s0.last(), iv)));
            assert(self.input_views() =~= i0.push(iv));
            let s = self.state_views();
            let i = self.input_views();
            assert forall|j: int| 0 <= j < i.len() implies #[trigger] s[j + 1] == step_view(s[j], i[j]) by {
                if j < i.len() - 1 {
                    assert(s0[j + 1] == step_view(s0[j], i0[j]));
                }
            }
        }
    }

    /// Forgets the oldest saved state and its input, keeping the log's window
    /// bounded.
    pub fn discard_oldest(&mut self)
        requires
            old(self).wf(),
            old(self).inputs@.len() > 0,
        ensures
            final(self).wf(),
            final(self).state_views() == old(self).state_views().drop_first(),
            final(self).input_views() == old(self).input_views().drop_first(),
    {
        let ghost s0 = self.state_views();
        let ghost i0 = self.input_views();
        self.states.remove(0);
        self.inputs.remove(0);
        proof {
            assert(self.state_views() =~= s0.drop_first());
            assert(self.input_views() =~= i0.drop_first());
            let s = self.state_views();
            let i = self.input_views();
            assert forall|j: int| 0 <= j < i.len() implies #[trigger] s[j + 1] == step_view(s[j], i[j]) by {
                assert(s0[(j + 1) + 1] == step_view(s0[j + 1], i0[j + 1]));
            }
            assert forall|j: int| 0 <= j < s.len() implies #[trigger] s[j].frame == s[0].frame + j by {
                assert(s0[j + 1].frame == s0[0].frame + j + 1);
                assert(s0[1].frame == s0[0].frame + 1);
            }
            assert forall|j: int| 0 <= j < s.len() implies valid_world(#[trigger] s[j]) by {
                assert(valid_world(s0[j + 1]));
            }
        }
    }

    /// Replaces the input of logged frame `k` by `corrected` and recomputes every
    /// later state from the saved state `k`.
    pub fn rollback_to(&mut self, k: usize, corrected: Vec<(u8, InputStatus)>)
        requires
            old(self).wf(),
            k < old(self).inputs@.len(),
        ensures
            final(self).wf(),
            final(self).input_views() == old(self).input_views().update(k as int, corrected@),
            final(self).state_views().len() == old(self).state_views().len(),
            forall|j: int| 0 <= j <= k ==> #[trigger] final(self).state_views()[j] == old(self).state_views()[j],
            final(self).state_views().last() == run_view(
                old(self).state_views()[k as int],
                final(self).input_views().subrange(k as int, final(self).input_views().len() as int),
            ),
            corrected@ == old(self).input_views()[k as int] ==> final(self).state_views().last()
                == old(self).state_views().last(),
    {
        let ghost s0 = self.state_views();
        let ghost i0 = self.input_views();
        let n: usize = self.inputs.len();
        assert(k < n);
        let keep: usize = k + 1;
        self.inputs.set(k, corrected);
        self.states.truncate(keep);
        let ghost i1 = self.input_views();
        proof {
            assert(i1 =~= i0.update(k as int, self.inputs@[k as int]@));
            assert(self.state_views() =~= s0.take(k + 1));
        }
        let mut j: usize = k;
        while j < self.inputs.len()
            invariant
                k <= j <= self.inputs@.len(),
                self.input_views() == i1,
                i1.len() == i0.len(),
                s0.len() == i0.len() + 1,
                self.states@.len() == j + 1,
                forall|m: int| 0 <= m <= k ==> #[trigger] self.state_views()[m] == s0[m],
                forall|m: int| 0 <= m < j ==> #[trigger] self.state_views()[m + 1] == step_view(self.state_views()[m], i1[m]),
                forall|m: int| 0 <= m <= j ==> valid_world(#[trigger] self.state_views()[m]),
                forall|m: int| 0 <= m <= j ==> #[trigger] self.state_views()[m].frame == s0[0].frame + m,
                forall|m: int| 0 <= m < s0.len() ==> #[trigger] s0[m].frame == s0[0].frame + m,
                forall|m: int| 0 <= m < s0.len() ==> valid_world(#[trigger] s0[m]),
                forall|m: int| 0 <= m < i0.len() ==> #[trigger] s0[m + 1] == step_view(s0[m], i0[m]),
            decreases self.inputs@.len() - j,
        {
            let ghost sv = self.state_views();
            assert(sv[j as int].frame == s0[0].frame + j);
            assert(s0[i0.len() as int].frame == s0[0].frame + i0.len());
            let next = step(&self.states[j], &self.inputs[j]);
            self.states.push(next);
            proof {
                assert(self.state_views() =~= sv.push(step_view(sv[j as int], i1[j as int])));
            }
            j = j + 1;
        }
        proof {
            let s1 = self.state_views();
            assert(s1.len() == i1.len() + 1);
            lemma_resimulation_reproduces(s1, i1, k as int);
            assert(s1[k as int] == s0[k as int]);
            if i1 == i0 {
                lemma_resimulation_reproduces(s0, i0, k as int);
            }
            if corrected@ == i0[k as int] {
                assert(i1 =~= i0);
            }
        }
    }
}

fn agent_ok(a: &Agent) -> (r: bool)
    ensures
        r == valid_agent(*a),
{
    let follow_ok = match a.follow {
        Some(d) => 0 <= d && d <= WORLD_LIMIT,
        None => true,
    };
    -WORLD_LIMIT <= a.position.x && a.position.x <= WORLD_LIMIT && -WORLD_LIMIT <= a.position.y
        && a.position.y <= WORLD_LIMIT && -UNIT <= a.heading.x && a.heading.x <= UNIT && -UNIT
        <= a.heading.y && a.heading.y <= UNIT && 0 <= a.size && a.size <= MAX_CREATURE_SIZE
        && follow_ok
}

fn player_ok(p: &PlayerState) -> (r: bool)
    ensures
        r == valid_player(*p),
{
    -WORLD_LIMIT <= p.position.x && p.position.x <= WORLD_LIMIT && -WORLD_LIMIT <= p.position.y
        && p.position.y <= WORLD_LIMIT && -UNIT <= p.heading.x && p.heading.x <= UNIT && -UNIT
        <= p.heading.y && p.heading.y <= UNIT && -1 <= p.controls.accel && p.controls.accel <= 1
        && -1 <= p.controls.steer && p.controls.steer <= 1
}

/// Whether a world can be stepped: a valid map, valid players, valid
/// bullets, and a valid snapshot of creatures with distinct ids.
pub fn is_valid_world(world: &World) -> (r: bool)
    ensures
        r == valid_world(world@),
{
    if !(0 <= world.map.width && world.map.width <= 2 * WORLD_LIMIT && 0 <= world.map.height
        && world.map.height <= 2 * WORLD_LIMIT) {
        return false;
    }
    if world.creatures.len() > MAX_AGENTS {
        return false;
    }
    let mut i: usize = 0;
    while i < world.players.len()
        invariant
            i <= world.players@.len(),
            forall|k: int| 0 <= k < i ==> valid_player(#[trigger] world.players@[k]),
        decreases world.players@.len() - i,
    {
        if !player_ok(&world.players[i]) {
            assert(!valid_player(world@.players[i as int]));
            return false;
        }
        i = i + 1;
    }
    let mut i: usize = 0;
    while i < world.bullets.len()
        invariant
            i <= world.bullets@.len(),
            forall|k: int| 0 <= k < i ==> valid_bullet(#[trigger] world.bullets@[k]),
        decreases world.bullets@.len() - i,
    {
        let b = world.bullets[i];
        if !(-WORLD_LIMIT <= b.position.x && b.position.x <= WORLD_LIMIT && -WORLD_LIMIT <= b.position.y
            && b.position.y <= WORLD_LIMIT && -UNIT <= b.heading.x && b.heading.x <= UNIT && -UNIT
            <= b.heading.y && b.heading.y <= UNIT) {
            assert(!valid_bullet(world@.bullets[i as int]));
            return false;
        }
        i = i + 1;
    }
    let mut seen: HashMap<u64, usize> = HashMap::new();
    let mut i: usize = 0;
    while i < world.creatures.len()
        invariant
            i <= world.creatures@.len(),
            forall|k: int| 0 <= k < i ==> valid_agent(#[trigger] world.creatures@[k]),
            forall|a: int, b: int|
                0 <= a < i && 0 <= b < i && a != b ==> world.creatures@[a].id != world.creatures@[b].id,
            forall|id: u64|
                #![trigger seen@.contains_key(id)]
                seen@.contains_key(id) <==> exists|k: int| 0 <= k < i && world.creatures@[k].id == id,
        decreases world.creatures@.len() - i,
    {
        let a = world.creatures[i];
        if !agent_ok(&a) {
            return false;
        }
        if seen.contains_key(&a.id) {
            proof {
                let k = choose|k: int| 0 <= k < i && world.creatures@[k].id == a.id;
                assert(world.creatures@[k].id == world.creatures@[i as int].id);
            }
            return false;
        }
        seen.insert(a.id, i);
        proof {
            assert forall|id: u64| #![trigger seen@.contains_key(id)] seen@.contains_key(id) <==> exists|k: int|
                0 <= k < i + 1 && world.creatures@[k].id == id by {
                if id == a.id {
                    assert(world.creatures@[i as int].id == id);
                }
            }
        }
        i = i + 1;
    }
    true
}

/// Creatures a player must have in its train to win.
pub const COLLECTED_ZOMBIES_TO_WIN: usize = 25;

/// Whether a creature is in `id`'s train: owned by it and following or chasing.
pub open spec fn in_train(c: Agent, id: u64) -> bool {
    c.kind == Some(id) && (c.follow is Some || c.target is Some)
}

/// Number of creatures in `id`'s train.
pub open spec fn train_len(cs: Seq<Agent>, id: u64) -> nat
    decreases cs.len(),
{
    if cs.len() == 0 {
        0
    } else {
        train_len(cs.drop_last(), id) + if in_train(cs.last(), id) { 1nat } else { 0nat }
    }
}

/// The first player, from `i` on, whose train is long enough to win.
pub open spec fn winner_from(ps: Seq<PlayerState>, cs: Seq<Agent>, i: int) -> Option<u64>
    decreases ps.len() - i,
{
    if i < 0 || i >= ps.len() {
        None
    } else if train_len(cs, ps[i].id) >= COLLECTED_ZOMBIES_TO_WIN {
        Some(ps[i].id)
    } else {
        winner_from(ps, cs, i + 1)
    }
}

fn train_count(cs: &Vec<Agent>, id: u64) -> (r: usize)
    ensures
        r == train_len(cs@, id),
{
    let mut n: usize = 0;
    let mut i: usize = 0;
    assert(cs@.take(0) =~= Seq::<Agent>::empty());
    while i < cs.len()
        invariant
            i <= cs@.len(),
            n == train_len(cs@.take(i as int), id),
            n <= i,
        decreases cs@.len() - i,
    {
        proof {
            assert(cs@.take(i + 1).drop_last() =~= cs@.take(i as int));
        }
        let c = cs[i];
        let owned = match c.kind {
            Some(k) => k == id,
            None => false,
        };
        if owned && (c.follow.is_some() || c.target.is_some()) {
            n = n + 1;
        }
        i = i + 1;
    }
    assert(cs@.take(cs@.len() as int) =~= cs@);
    n
}

/// The player that has won the round, if any: the first, in player order,
/// with at least `COLLECTED_ZOMBIES_TO_WIN` creatures in its train.
pub fn check_win(world: &World) -> (r: Option<u64>)
    ensures
        r == winner_from(world.players@, world.creatures@, 0),
{
    let mut i: usize = 0;
    while i < world.players.len()
        invariant
            i <= world.players@.len(),
            winner_from(world.players@, world.creatures@, 0) == winner_from(
                world.players@,
                world.creatures@,
                i as int,
            ),
        decreases world.players@.len() - i,
    {
        let id = world.players[i].id;
        if train_count(&world.creatures, id) >= COLLECTED_ZOMBIES_TO_WIN {
            return Some(id);
        }
        i = i + 1;
    }
    None
}

} // verus!
