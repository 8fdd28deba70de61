//! Authoritative simulation core of a grid-based multi-user world: the entity
//! store, the action applier, per-player visibility and the per-connection
//! synchronisation decisions, each with a machine-checked contract.

pub mod ecs;
pub mod format;
pub mod fov;
pub mod fx;
pub mod game;
pub mod human;
pub mod net;
pub mod ui;
pub mod wire;
