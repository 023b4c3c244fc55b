//! Deterministic simulation core of a two-player arena game: a spatial grid,
//! flocking and chase forces, heading integration, agent motion, combat,
//! input masks, the frame stepper with its checksum, and the rollback session
//! logic, all on integers so that every peer computes the same frames.

pub mod components;
pub mod geometry;
pub mod grid;
pub mod forces;
pub mod integrate;
pub mod input;
pub mod motion;
pub mod combat;
pub mod rollback;
pub mod session;
pub mod menu;
