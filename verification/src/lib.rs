//! An authoritative multiplayer snake server core: a bordered grid of cells,
//! a registry of players keyed by session id, and a game engine that advances
//! every snake on each tick and emits one change event per cell mutation.
//!
//! The engine guarantees, and proves, three things: every cell of the field
//! is explained by exactly one owner (the wall ring, a food spawn, or one
//! position of one player's body); every mutation emits exactly one change
//! event, so replaying the recorded history over an empty grid rebuilds the
//! field; and a subscriber bootstrapped from a snapshot plus the events that
//! follow it mirrors the field exactly.

/// The game engine: the field, the player registry and the tick rule.
pub mod game;
/// A rectangular store with bounds-checked access.
pub mod grid;
/// Directions, colors, cell contents and coordinates.
pub mod model;
/// The messages exchanged between clients and the server.
pub mod protocol;
/// The publish side of the event channel (trusted tokio wrappers).
pub mod publish;
/// The replay model: grids, change events, snapshots and their laws.
pub mod replay;
/// The engine's one source of randomness (trusted rand wrapper).
pub mod rng;
