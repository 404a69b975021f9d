//! The messages exchanged between clients and the server.
//!
//! Clients send direction changes and quit notices; the server streams
//! single-cell change events and game-state updates. One message travels per
//! length-prefixed frame; the framing itself lives outside this library.

use vstd::prelude::*;
use crate::model::{Coordinate, Direction, Field};

verus! {

/// Messages coming from the client to the server.
#[derive(Clone, Copy, Debug, PartialEq, Eq, Structural)]
pub enum ClientMessage {
    Direction(DirectionMessage),
    Restart,
    Quit,
}

/// Client pressed a direction key, lets the server know.
#[derive(Clone, Copy, Debug, PartialEq, Eq, Structural)]
pub struct DirectionMessage {
    pub direction: Direction,
}

/// Messages coming from the server to the client.
#[derive(Clone, Copy, Debug, PartialEq, Eq, Structural)]
pub enum ServerMessage {
    FieldChange(FieldChangeMessage),
    PlayerState(PlayerStateMessage),
}

/// The server tells a client how its game is going.
#[derive(Clone, Copy, Debug, PartialEq, Eq, Structural)]
pub struct PlayerStateMessage {
    pub state: PlayerState,
}

/// Whether a player is still in the game.
#[derive(Clone, Copy, Debug, PartialEq, Eq, Structural)]
pub enum PlayerState {
    Playing,
    Won,
    Lost,
}

/// A single-cell diff: the cell at `coordinate` now holds `field`.
///
/// The full ordered stream of these events since grid creation, replayed in
/// order, reconstructs the exact current grid.
#[derive(Clone, Copy, Debug, PartialEq, Eq, Structural)]
pub struct FieldChangeMessage {
    pub coordinate: Coordinate,
    pub field: Field,
}

/// The change event that sets the cell at (row, col) to `field`.
pub open spec fn change_at(row: usize, col: usize, field: Field) -> FieldChangeMessage {
    FieldChangeMessage { coordinate: Coordinate { row, col }, field }
}

} // verus!
