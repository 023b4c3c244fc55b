use vstd::prelude::*;
use crate::geometry::{Vec2i, is_unit_bounded, near_unit};
use crate::integrate::{blend, blend_heading, MAX_FORCE_WEIGHT};

verus! {

/// The four directions a sprite can face.
#[derive(Debug, Clone, Copy, PartialEq, Eq, Structural)]
pub enum Facing {
    Down,
    Up,
    Left,
    Right,
}

impl Facing {
    /// Row of the sprite sheet that holds this facing.
    pub open spec fn spec_index(self) -> usize {
        match self {
            Facing::Left => 0,
            Facing::Right => 1,
            Facing::Up => 2,
            Facing::Down => 3,
        }
    }

    pub fn index(&self) -> (r: usize)
        ensures
            r == self.spec_index(),
    {
        match self {
            Facing::Left => 0,
            Facing::Right => 1,
            Facing::Up => 2,
            Facing::Down => 3,
        }
    }
}

/// Marks an entity that has died this round.
#[derive(Debug, Clone, Copy, PartialEq, Eq, Structural)]
pub struct Dead;

/// Marks every entity that belongs to the running round.
#[derive(Debug, Clone, Copy, PartialEq, Eq, Structural)]
pub struct RoundEntity;

/// Marks the tile that leaves the map.
#[derive(Debug, Clone, Copy, PartialEq, Eq, Structural)]
pub struct ExitTile;

/// Marks a player's health bar.
#[derive(Debug, Clone, Copy, PartialEq, Eq, Structural)]
pub struct HealthBar;

/// Marks a bullet.
#[derive(Debug, Clone, Copy, PartialEq, Eq, Structural)]
pub struct Bullet;

/// The player that fired a bullet.
#[derive(Debug, Clone, Copy, PartialEq, Eq, Structural)]
pub struct FiredBy(pub u64);

/// Whether a player may fire.
#[derive(Debug, Clone, Copy, PartialEq, Eq, Structural)]
pub struct BulletReady(pub bool);

/// Keeps an entity on the player with the given handle.
#[derive(Debug, Clone, Copy, PartialEq, Eq, Structural)]
pub struct SnapToPlayer(pub usize);

/// A unit heading, scaled by `UNIT`.
#[derive(Debug, Clone, Copy, PartialEq, Eq, Structural)]
pub struct Direction(pub Vec2i);

impl Direction {
    /// Turns the heading toward `other` by the factor `weight / FPS` and scales
    /// it back to unit length.
    pub fn lerp(&mut self, other: Vec2i, weight: i64)
        requires
            is_unit_bounded(old(self).0),
            is_unit_bounded(other),
            0 <= weight <= MAX_FORCE_WEIGHT,
        ensures
            final(self).0 == blend(old(self).0, other, weight),
            is_unit_bounded(final(self).0),
            near_unit(final(self).0) || final(self).0 == old(self).0,
    {
        self.0 = blend_heading(self.0, other, weight);
    }
}

/// The player a creature belongs to, if any.
#[derive(Debug, Clone, Copy, PartialEq, Eq, Structural)]
pub struct CreatureType(pub Option<u64>);

/// A creature's size, in world units.
#[derive(Debug, Clone, Copy, PartialEq, Eq, Structural)]
pub struct CreatureSize(pub i64);

/// Distance under which a creature stops tailing its owner.
#[derive(Debug, Clone, Copy, PartialEq, Eq, Structural)]
pub struct CreatureFollow(pub i64);

/// The player a creature is chasing.
#[derive(Debug, Clone, Copy, PartialEq, Eq, Structural)]
pub struct CreatureTarget(pub u64);

/// Hit points left.
#[derive(Debug, Clone, Copy, PartialEq, Eq, Structural)]
pub struct Health(pub i32);

/// One hit that `attacker` dealt to `victim`.
#[derive(Debug, Clone, Copy, PartialEq, Eq, Structural)]
pub struct DamageEvent {
    pub victim: u64,
    pub attacker: u64,
}

impl DamageEvent {
    pub fn new(victim: u64, attacker: u64) -> (r: DamageEvent)
        ensures
            r.victim == victim && r.attacker == attacker,
    {
        DamageEvent { victim, attacker }
    }
}

/// What a spawn request creates.
#[derive(Debug, Clone, Copy, PartialEq, Eq, Structural)]
pub enum SpawnType {
    Player,
    Zombie,
}

/// A request to spawn a player (for a handle) or a creature.
#[derive(Debug, Clone, Copy, PartialEq, Eq, Structural)]
pub struct SpawnEvent {
    pub handle: Option<usize>,
    pub spawn_type: SpawnType,
}

} // verus!
