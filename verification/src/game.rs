//! The game engine: the playing field, the player registry and the tick rule.
//!
//! A `Game` owns the grid and every player, and is driven through a handful
//! of mutating operations (`player_add`, `player_remove`, `player_direction`,
//! `tick`). Each cell mutation appends exactly one change event to the
//! engine's recorded history and publishes it to the event channel, so that
//! replaying the history over an all-empty grid rebuilds the current field.
//! Callers are expected to serialize all operations behind one exclusive
//! guard; every operation takes the engine by exclusive borrow.
//!
//! Policy choices this engine fixes:
//! - a removed player's body cells turn into food;
//! - players are processed on each tick in ascending session-id order;
//! - random placement retries a bounded number of times and then falls back
//!   to a deterministic scan, so a full grid reports failure instead of
//!   looping forever.

use vstd::prelude::*;
use std::collections::VecDeque;
use tokio::sync::broadcast::{Receiver, Sender};
use crate::model::{Color, Direction, Field, COLOR_COUNT};
use crate::protocol::{
    change_at, ClientMessage, FieldChangeMessage, PlayerState, PlayerStateMessage, ServerMessage,
};
use crate::publish::{broadcast_send, broadcast_subscribe, channel_sender};
use crate::replay::{
    apply_change, apply_changes, empty_grid, grid_cols, grid_dims_wf, grid_rows, grid_set,
    in_grid, lemma_apply_changes_push, on_border, snapshot_changes, snapshot_prefix,
    snapshot_row,
};
use crate::rng::random_below;

verus! {

/// How many messages the event channel buffers per subscriber before telling
/// a slow one that it lagged.
pub const CHANNEL_SIZE: usize = 1024;

/// How many random probes to make for an empty cell before scanning the whole
/// grid deterministically.
const PLACE_RETRIES: usize = 64;

/// One snake: its body from tail to head, its color, and the direction it
/// will move on the next tick.
pub struct Player {
    snake: VecDeque<(usize, usize)>,
    color: Color,
    direction: Direction,
}

/// The mathematical value of a `Player`: the body as a tail-to-head sequence
/// of (row, col) cells.
#[verifier::ext_equal]
pub struct PlayerView {
    pub snake: Seq<(usize, usize)>,
    pub color: Color,
    pub direction: Direction,
}

impl View for Player {
    type V = PlayerView;

    closed spec fn view(&self) -> PlayerView {
        PlayerView { snake: self.snake@, color: self.color, direction: self.direction }
    }
}

/// Why a join was refused.
#[derive(Clone, Copy, Debug, PartialEq, Eq, Structural)]
pub enum JoinError {
    /// No empty cell is left to place a new snake on.
    GridFull,
    /// Every session id has been handed out.
    IdsExhausted,
}

/// The mathematical value of a `Game`: the grid, the registered players in
/// ascending session-id order, the next session id to hand out, and the full
/// history of change events since creation.
#[verifier::ext_equal]
pub struct GameView {
    pub grid: Seq<Seq<Field>>,
    pub players: Seq<(u64, PlayerView)>,
    pub next_id: u64,
    pub history: Seq<FieldChangeMessage>,
}

/// The index of the player with this session id, or -1 if none is registered.
pub open spec fn player_index(players: Seq<(u64, PlayerView)>, id: u64) -> int
    decreases players.len(),
{
    if players.len() == 0 {
        -1
    } else if players[0].0 == id {
        0
    } else {
        let rest = player_index(players.drop_first(), id);
        if rest < 0 {
            -1
        } else {
            rest + 1
        }
    }
}

/// What `player_index` finds: a valid index holding the id, or a guarantee
/// that no entry holds it.
pub proof fn lemma_player_index(players: Seq<(u64, PlayerView)>, id: u64)
    ensures
        player_index(players, id) >= 0 ==> 0 <= player_index(players, id) < players.len()
            && players[player_index(players, id)].0 == id,
        player_index(players, id) < 0 ==> forall|i: int|
            0 <= i < players.len() ==> (#[trigger] players[i]).0 != id,
    decreases players.len(),
{
    if players.len() > 0 && players[0].0 != id {
        lemma_player_index(players.drop_first(), id);
        assert forall|i: int| 1 <= i < players.len() implies players.drop_first()[i - 1]
            == players[i] by {}
    }
}

/// Under unique ids, `player_index` finds exactly the entry that holds the id.
pub proof fn lemma_player_index_of(players: Seq<(u64, PlayerView)>, id: u64, i: int)
    requires
        forall|a: int, b: int| 0 <= a < b < players.len()
            ==> (#[trigger] players[a]).0 != (#[trigger] players[b]).0,
        0 <= i < players.len(),
        players[i].0 == id,
    ensures
        player_index(players, id) == i,
    decreases players.len(),
{
    if i == 0 {
        lemma_player_index(players, id);
    } else {
        assert(players[0].0 != id);
        assert forall|a: int, b: int|
            0 <= a < b < players.drop_first().len() implies (#[trigger] players.drop_first()[a]).0
            != (#[trigger] players.drop_first()[b]).0 by {
            assert(players.drop_first()[a] == players[a + 1]);
            assert(players.drop_first()[b] == players[b + 1]);
        }
        assert(players.drop_first()[i - 1] == players[i]);
        lemma_player_index_of(players.drop_first(), id, i - 1);
    }
}

impl GameView {
    /// The number of rows of the field.
    pub open spec fn rows(self) -> int {
        grid_rows(self.grid)
    }

    /// The number of columns of the field.
    pub open spec fn cols(self) -> int {
        grid_cols(self.grid)
    }

    /// The registered session ids, in registry (ascending) order.
    pub open spec fn ids(self) -> Seq<u64> {
        self.players.map_values(|e: (u64, PlayerView)| e.0)
    }

    /// The view after one cell write: the grid updated and the matching
    /// change event appended to the history.
    pub open spec fn with_cell(self, row: usize, col: usize, field: Field) -> GameView {
        GameView {
            grid: grid_set(self.grid, row as int, col as int, field),
            history: self.history.push(change_at(row, col, field)),
            ..self
        }
    }

    /// The registry is sorted strictly ascending by session id, every id is
    /// below the next one to hand out, and every body is a non-empty run of
    /// in-bounds cells.
    pub open spec fn players_wf(self) -> bool {
        &&& forall|i: int, j: int| 0 <= i < j < self.players.len()
            ==> (#[trigger] self.players[i]).0 < (#[trigger] self.players[j]).0
        &&& forall|i: int| 0 <= i < self.players.len()
            ==> (#[trigger] self.players[i]).0 < self.next_id
        &&& forall|i: int| 0 <= i < self.players.len()
            ==> (#[trigger] self.players[i]).1.snake.len() >= 1
        &&& forall|i: int, k: int|
            0 <= i < self.players.len() && 0 <= k < self.players[i].1.snake.len() ==> in_grid(
                self.grid,
                (#[trigger] self.players[i].1.snake[k]).0 as int,
                self.players[i].1.snake[k].1 as int,
            )
    }

    /// Cell ownership: walls stand exactly on the border ring, every body
    /// cell shows its snake's color, every snake cell belongs to a body, and
    /// no cell belongs to two body positions.
    pub open spec fn cells_wf(self) -> bool {
        &&& forall|i: int, k: int|
            0 <= i < self.players.len() && 0 <= k < self.players[i].1.snake.len()
                ==> self.grid[(#[trigger] self.players[i].1.snake[k]).0 as int][
                    self.players[i].1.snake[k].1 as int
                ] == Field::Snake(self.players[i].1.color)
        &&& forall|r: int, c: int|
            in_grid(self.grid, r, c) ==> ((#[trigger] self.grid[r][c] == Field::Wall)
                <==> on_border(self.grid, r, c))
        &&& forall|r: int, c: int|
            in_grid(self.grid, r, c) && (#[trigger] self.grid[r][c]) is Snake
                ==> exists|i: int, k: int|
                    0 <= i < self.players.len() && 0 <= k < self.players[i].1.snake.len()
                        && (#[trigger] self.players[i].1.snake[k]) == (r as usize, c as usize)
        &&& forall|i1: int, k1: int, i2: int, k2: int|
            0 <= i1 < self.players.len() && 0 <= k1 < self.players[i1].1.snake.len()
                && 0 <= i2 < self.players.len() && 0 <= k2 < self.players[i2].1.snake.len()
                && (#[trigger] self.players[i1].1.snake[k1])
                    == (#[trigger] self.players[i2].1.snake[k2]) ==> i1 == i2 && k1 == k2
    }

    /// Reproducibility: replaying the recorded history over the all-empty
    /// grid rebuilds the current grid.
    pub open spec fn replay_wf(self) -> bool {
        apply_changes(empty_grid(self.rows(), self.cols()), self.history) == self.grid
    }

    /// The engine's invariant, preserved by every operation.
    pub open spec fn wf(self) -> bool {
        &&& grid_dims_wf(self.grid)
        &&& self.rows() <= usize::MAX
        &&& self.cols() <= usize::MAX
        &&& self.players_wf()
        &&& self.cells_wf()
        &&& self.replay_wf()
    }
}

/// Writing an in-bounds cell keeps the grid's shape and the replay
/// invariant, and changes neither the registry nor the id counter.
pub proof fn lemma_with_cell_shape(v: GameView, row: usize, col: usize, field: Field)
    requires
        grid_dims_wf(v.grid),
        in_grid(v.grid, row as int, col as int),
    ensures
        v.with_cell(row, col, field).grid.len() == v.grid.len(),
        forall|r: int|
            0 <= r < v.grid.len() ==> (#[trigger] v.with_cell(row, col, field).grid[r]).len()
                == v.grid[r].len(),
        v.with_cell(row, col, field).grid[row as int][col as int] == field,
        forall|r: int, c: int|
            in_grid(v.grid, r, c) && !(r == row as int && c == col as int)
                ==> #[trigger] v.with_cell(row, col, field).grid[r][c] == v.grid[r][c],
        v.with_cell(row, col, field).players == v.players,
        v.with_cell(row, col, field).next_id == v.next_id,
        v.replay_wf() ==> v.with_cell(row, col, field).replay_wf(),
{
    let w = v.with_cell(row, col, field);
    assert(w.grid == v.grid.update(row as int, v.grid[row as int].update(col as int, field)));
    if v.replay_wf() {
        lemma_apply_changes_push(
            empty_grid(v.rows(), v.cols()),
            v.history,
            change_at(row, col, field),
        );
        assert(w.rows() == v.rows());
        assert(w.cols() == v.cols());
        assert(apply_changes(empty_grid(w.rows(), w.cols()), w.history) == w.grid);
    }
}

/// Placing food on an empty cell preserves the engine invariant: the cell is
/// neither border nor anyone's body, and food claims no owner.
pub proof fn lemma_place_food_wf(v: GameView, row: usize, col: usize)
    requires
        v.wf(),
        in_grid(v.grid, row as int, col as int),
        v.grid[row as int][col as int] == Field::Empty,
    ensures
        v.with_cell(row, col, Field::Food).wf(),
{
    let w = v.with_cell(row, col, Field::Food);
    lemma_with_cell_shape(v, row, col, Field::Food);
    assert(grid_dims_wf(w.grid));
    assert(w.players_wf());
    assert forall|i: int, k: int|
        0 <= i < w.players.len() && 0 <= k < w.players[i].1.snake.len() implies w.grid[(
    #[trigger] w.players[i].1.snake[k]).0 as int][w.players[i].1.snake[k].1 as int]
        == Field::Snake(w.players[i].1.color) by {
        let cell = v.players[i].1.snake[k];
        assert(v.grid[cell.0 as int][cell.1 as int] == Field::Snake(v.players[i].1.color));
    }
    assert forall|r: int, c: int| in_grid(w.grid, r, c) implies ((#[trigger] w.grid[r][c]
        == Field::Wall) <==> on_border(w.grid, r, c)) by {
        assert(in_grid(v.grid, r, c));
        if r == row as int && c == col as int {
            assert(!on_border(v.grid, r, c));
        }
    }
    assert forall|r: int, c: int|
        in_grid(w.grid, r, c) && (#[trigger] w.grid[r][c]) is Snake implies exists|i: int, k: int|
        0 <= i < w.players.len() && 0 <= k < w.players[i].1.snake.len()
            && (#[trigger] w.players[i].1.snake[k]) == (r as usize, c as usize) by {
        assert(!(r == row as int && c == col as int));
        assert(v.grid[r][c] is Snake);
    }
    assert(w.replay_wf());
}

/// The change events that clear one body into food, tail to head.
pub open spec fn corpse_changes(p: PlayerView) -> Seq<FieldChangeMessage> {
    Seq::new(p.snake.len(), |k: int| change_at(p.snake[k].0, p.snake[k].1, Field::Food))
}

/// Applying the first `n` corpse events turns those body cells into food and
/// leaves every other cell alone.
proof fn lemma_corpse_apply(g: Seq<Seq<Field>>, p: PlayerView, n: int)
    requires
        grid_dims_wf(g),
        forall|k: int|
            0 <= k < p.snake.len() ==> in_grid(
                g,
                (#[trigger] p.snake[k]).0 as int,
                p.snake[k].1 as int,
            ),
        0 <= n <= p.snake.len(),
    ensures
        apply_changes(g, corpse_changes(p).take(n)).len() == g.len(),
        forall|r: int|
            0 <= r < g.len() ==> (#[trigger] apply_changes(g, corpse_changes(p).take(n))[r]).len()
                == g[r].len(),
        forall|k: int|
            0 <= k < n ==> apply_changes(g, corpse_changes(p).take(n))[(
            #[trigger] p.snake[k]).0 as int][p.snake[k].1 as int] == Field::Food,
        forall|r: int, c: int|
            in_grid(g, r, c) ==> #[trigger] apply_changes(g, corpse_changes(p).take(n))[r][c]
                == g[r][c] || exists|k: int|
                0 <= k < n && #[trigger] p.snake[k] == (r as usize, c as usize),
    decreases n,
{
    crate::replay::lemma_apply_changes_dims(g, corpse_changes(p).take(n));
    if n > 0 {
        lemma_corpse_apply(g, p, n - 1);
        let prev = apply_changes(g, corpse_changes(p).take(n - 1));
        let ch = corpse_changes(p)[n - 1];
        assert(corpse_changes(p).take(n) =~= corpse_changes(p).take(n - 1).push(ch));
        lemma_apply_changes_push(g, corpse_changes(p).take(n - 1), ch);
        assert(apply_changes(g, corpse_changes(p).take(n)) == apply_change(prev, ch));
        let cell = p.snake[n - 1];
        assert(in_grid(g, cell.0 as int, cell.1 as int));
        assert(apply_change(prev, ch) == prev.update(
            cell.0 as int,
            prev[cell.0 as int].update(cell.1 as int, Field::Food),
        ));
        assert forall|k: int| 0 <= k < n implies apply_changes(g, corpse_changes(p).take(n))[(
        #[trigger] p.snake[k]).0 as int][p.snake[k].1 as int] == Field::Food by {
            if p.snake[k] != cell {
                assert(prev[p.snake[k].0 as int][p.snake[k].1 as int] == Field::Food || k
                    == n - 1);
            }
        }
    }
}

impl GameView {
    /// The view after removing the player with this session id: the entry
    /// leaves the registry and every body cell turns into food, each change
    /// recorded; an unknown id changes nothing.
    pub open spec fn remove_player(self, id: u64) -> GameView {
        let idx = player_index(self.players, id);
        if idx < 0 {
            self
        } else {
            let corpse = corpse_changes(self.players[idx].1);
            GameView {
                grid: apply_changes(self.grid, corpse),
                players: self.players.remove(idx),
                next_id: self.next_id,
                history: self.history + corpse,
            }
        }
    }
}

/// Removing a player preserves the engine invariant: vacated cells become
/// food, which no longer claims an owner, and every other body is untouched.
pub proof fn lemma_remove_player_wf(v: GameView, id: u64)
    requires
        v.wf(),
    ensures
        v.remove_player(id).wf(),
{
    let idx = player_index(v.players, id);
    lemma_player_index(v.players, id);
    if idx >= 0 {
        let p = v.players[idx].1;
        let corpse = corpse_changes(p);
        let w = v.remove_player(id);
        let n = p.snake.len() as int;
        assert(corpse.take(n) =~= corpse);
        lemma_corpse_apply(v.grid, p, n);
        v.players.remove_ensures(idx);
        crate::replay::lemma_apply_changes_concat(
            empty_grid(v.rows(), v.cols()),
            v.history,
            corpse,
        );
        assert(w.rows() == v.rows() && w.cols() == v.cols());
        assert(grid_dims_wf(w.grid));
        assert(w.replay_wf());
        assert(w.players_wf());
        // every remaining body cell still shows its snake's color
        assert forall|i: int, k: int|
            0 <= i < w.players.len() && 0 <= k < w.players[i].1.snake.len() implies w.grid[(
        #[trigger] w.players[i].1.snake[k]).0 as int][w.players[i].1.snake[k].1 as int]
            == Field::Snake(w.players[i].1.color) by {
            let m = if i < idx {
                i
            } else {
                i + 1
            };
            assert(w.players[i] == v.players[m]);
            let cell = v.players[m].1.snake[k];
            assert(v.grid[cell.0 as int][cell.1 as int] == Field::Snake(v.players[m].1.color));
            if w.grid[cell.0 as int][cell.1 as int] != v.grid[cell.0 as int][cell.1 as int] {
                let k2 = choose|k2: int|
                    0 <= k2 < n && #[trigger] p.snake[k2] == (cell.0, cell.1);
                assert(v.players[idx].1.snake[k2] == v.players[m].1.snake[k]);
                assert(false);
            }
        }
        // walls still stand exactly on the border
        assert forall|r: int, c: int| in_grid(w.grid, r, c) implies ((#[trigger] w.grid[r][c]
            == Field::Wall) <==> on_border(w.grid, r, c)) by {
            assert(in_grid(v.grid, r, c));
            if w.grid[r][c] != v.grid[r][c] {
                let k = choose|k: int|
                    0 <= k < n && #[trigger] p.snake[k] == (r as usize, c as usize);
                assert(w.grid[r][c] == Field::Food);
                assert(v.grid[r][c] == Field::Snake(p.color));
                assert(!on_border(v.grid, r, c));
            }
        }
        // every snake cell still has an owner
        assert forall|r: int, c: int|
            in_grid(w.grid, r, c) && (#[trigger] w.grid[r][c]) is Snake implies exists|
            i: int,
            k: int,
        |
            0 <= i < w.players.len() && 0 <= k < w.players[i].1.snake.len()
                && (#[trigger] w.players[i].1.snake[k]) == (r as usize, c as usize) by {
            if w.grid[r][c] != v.grid[r][c] {
                let k = choose|k: int|
                    0 <= k < n && #[trigger] p.snake[k] == (r as usize, c as usize);
                assert(w.grid[r][c] == Field::Food);
                assert(false);
            }
            assert(v.grid[r][c] is Snake);
            let (i, k) = choose|i: int, k: int|
                0 <= i < v.players.len() && 0 <= k < v.players[i].1.snake.len()
                    && (#[trigger] v.players[i].1.snake[k]) == (r as usize, c as usize);
            if i == idx {
                assert(p.snake[k] == (r as usize, c as usize));
                assert(w.grid[r][c] == Field::Food);
                assert(false);
            }
            let m = if i < idx {
                i
            } else {
                i - 1
            };
            assert(w.players[m] == v.players[i]);
            assert(w.players[m].1.snake[k] == (r as usize, c as usize));
        }
        // bodies stay pairwise disjoint
        assert forall|i1: int, k1: int, i2: int, k2: int|
            0 <= i1 < w.players.len() && 0 <= k1 < w.players[i1].1.snake.len()
                && 0 <= i2 < w.players.len() && 0 <= k2 < w.players[i2].1.snake.len()
                && (#[trigger] w.players[i1].1.snake[k1])
                    == (#[trigger] w.players[i2].1.snake[k2]) implies i1 == i2 && k1 == k2 by {
            let m1 = if i1 < idx {
                i1
            } else {
                i1 + 1
            };
            let m2 = if i2 < idx {
                i2
            } else {
                i2 + 1
            };
            assert(w.players[i1] == v.players[m1]);
            assert(w.players[i2] == v.players[m2]);
            assert(v.players[m1].1.snake[k1] == v.players[m2].1.snake[k2]);
        }
    }
}

/// Leaving twice has the same effect as leaving once: the second call finds
/// no such player and changes nothing at all.
pub proof fn lemma_leave_idempotent(v: GameView, id: u64)
    requires
        v.wf(),
    ensures
        v.remove_player(id).remove_player(id) == v.remove_player(id),
{
    let w = v.remove_player(id);
    let idx = player_index(v.players, id);
    lemma_player_index(v.players, id);
    if idx >= 0 {
        v.players.remove_ensures(idx);
        lemma_player_index(w.players, id);
        if player_index(w.players, id) >= 0 {
            let j = player_index(w.players, id);
            let m = if j < idx {
                j
            } else {
                j + 1
            };
            assert(w.players[j] == v.players[m]);
            assert(v.players[m].0 == id && v.players[idx].0 == id);
            assert(m != idx);
            assert(false);
        }
    }
}

impl GameView {
    /// The view after a join: a one-cell snake of the given color placed on
    /// `cell`, registered under the next session id, moving in the default
    /// direction, with the placement recorded as one change event.
    pub open spec fn join_player(self, cell: (usize, usize), color: Color) -> GameView {
        let pv = PlayerView {
            snake: seq![cell],
            color,
            direction: Direction::Right,
        };
        GameView {
            grid: grid_set(self.grid, cell.0 as int, cell.1 as int, Field::Snake(color)),
            players: self.players.push((self.next_id, pv)),
            next_id: (self.next_id + 1) as u64,
            history: self.history.push(change_at(cell.0, cell.1, Field::Snake(color))),
        }
    }
}

/// Joining on an empty cell preserves the engine invariant: the new one-cell
/// body owns exactly the placed cell, and no other body held it.
pub proof fn lemma_join_player_wf(v: GameView, cell: (usize, usize), color: Color)
    requires
        v.wf(),
        v.next_id < u64::MAX,
        in_grid(v.grid, cell.0 as int, cell.1 as int),
        v.grid[cell.0 as int][cell.1 as int] == Field::Empty,
    ensures
        v.join_player(cell, color).wf(),
{
    let w = v.join_player(cell, color);
    let vc = v.with_cell(cell.0, cell.1, Field::Snake(color));
    lemma_with_cell_shape(v, cell.0, cell.1, Field::Snake(color));
    assert(w.grid == vc.grid && w.history == vc.history);
    assert(grid_dims_wf(w.grid));
    assert(w.replay_wf());
    let np = w.players.len() - 1;
    assert(w.players[np] == (v.next_id, PlayerView {
        snake: seq![cell],
        color,
        direction: Direction::Right,
    }));
    assert(w.players_wf());
    // no old body held the new cell: it was empty, bodies sit on snake cells
    assert forall|i: int, k: int|
        0 <= i < v.players.len() && 0 <= k < v.players[i].1.snake.len() implies (
    #[trigger] v.players[i].1.snake[k]) != cell by {
        let c2 = v.players[i].1.snake[k];
        assert(v.grid[c2.0 as int][c2.1 as int] == Field::Snake(v.players[i].1.color));
    }
    assert forall|i: int, k: int|
        0 <= i < w.players.len() && 0 <= k < w.players[i].1.snake.len() implies w.grid[(
    #[trigger] w.players[i].1.snake[k]).0 as int][w.players[i].1.snake[k].1 as int]
        == Field::Snake(w.players[i].1.color) by {
        if i < np {
            assert(w.players[i] == v.players[i]);
            let c2 = v.players[i].1.snake[k];
            assert(v.grid[c2.0 as int][c2.1 as int] == Field::Snake(v.players[i].1.color));
            assert(c2 != cell);
        } else {
            assert(w.players[i].1.snake[k] == cell);
        }
    }
    assert forall|r: int, c: int| in_grid(w.grid, r, c) implies ((#[trigger] w.grid[r][c]
        == Field::Wall) <==> on_border(w.grid, r, c)) by {
        assert(in_grid(v.grid, r, c));
        if r == cell.0 as int && c == cell.1 as int {
            assert(!on_border(v.grid, r, c));
        }
    }
    assert forall|r: int, c: int|
        in_grid(w.grid, r, c) && (#[trigger] w.grid[r][c]) is Snake implies exists|i: int, k: int|
        0 <= i < w.players.len() && 0 <= k < w.players[i].1.snake.len()
            && (#[trigger] w.players[i].1.snake[k]) == (r as usize, c as usize) by {
        if r == cell.0 as int && c == cell.1 as int {
            assert(w.players[np].1.snake[0] == (r as usize, c as usize));
        } else {
            assert(v.grid[r][c] is Snake);
            let (i, k) = choose|i: int, k: int|
                0 <= i < v.players.len() && 0 <= k < v.players[i].1.snake.len()
                    && (#[trigger] v.players[i].1.snake[k]) == (r as usize, c as usize);
            assert(w.players[i].1.snake[k] == (r as usize, c as usize));
        }
    }
    assert forall|i1: int, k1: int, i2: int, k2: int|
        0 <= i1 < w.players.len() && 0 <= k1 < w.players[i1].1.snake.len()
            && 0 <= i2 < w.players.len() && 0 <= k2 < w.players[i2].1.snake.len()
            && (#[trigger] w.players[i1].1.snake[k1])
                == (#[trigger] w.players[i2].1.snake[k2]) implies i1 == i2 && k1 == k2 by {
        if i1 < np && i2 < np {
            assert(w.players[i1] == v.players[i1]);
            assert(w.players[i2] == v.players[i2]);
        } else if i1 < np && i2 == np {
            assert(w.players[i1].1.snake[k1] != cell);
            assert(w.players[i2].1.snake[k2] == cell);
        } else if i1 == np && i2 < np {
            assert(w.players[i1].1.snake[k1] == cell);
            assert(w.players[i2].1.snake[k2] != cell);
        }
    }
}

impl GameView {
    /// The view after a direction change: the pending direction of the
    /// player with this session id replaced; an unknown id changes nothing.
    /// The body, the grid and the history stay as they are: a direction
    /// change never moves a snake before the next tick.
    pub open spec fn set_direction(self, id: u64, d: Direction) -> GameView {
        let idx = player_index(self.players, id);
        if idx < 0 {
            self
        } else {
            GameView {
                players: self.players.update(
                    idx,
                    (id, PlayerView { direction: d, ..self.players[idx].1 }),
                ),
                ..self
            }
        }
    }
}

/// A direction change preserves the engine invariant: no body, color or cell
/// moves.
pub proof fn lemma_set_direction_wf(v: GameView, id: u64, d: Direction)
    requires
        v.wf(),
    ensures
        v.set_direction(id, d).wf(),
{
    let idx = player_index(v.players, id);
    lemma_player_index(v.players, id);
    if idx >= 0 {
        let w = v.set_direction(id, d);
        assert(forall|i: int|
            0 <= i < w.players.len() ==> (#[trigger] w.players[i]).0 == v.players[i].0
                && w.players[i].1.snake == v.players[i].1.snake && w.players[i].1.color
                == v.players[i].1.color);
        assert(w.players_wf());
        assert forall|r: int, c: int|
            in_grid(w.grid, r, c) && (#[trigger] w.grid[r][c]) is Snake implies exists|
            i: int,
            k: int,
        |
            0 <= i < w.players.len() && 0 <= k < w.players[i].1.snake.len()
                && (#[trigger] w.players[i].1.snake[k]) == (r as usize, c as usize) by {
            let (i, k) = choose|i: int, k: int|
                0 <= i < v.players.len() && 0 <= k < v.players[i].1.snake.len()
                    && (#[trigger] v.players[i].1.snake[k]) == (r as usize, c as usize);
            assert(w.players[i].1.snake[k] == (r as usize, c as usize));
        }
        assert(w.cells_wf());
    }
}

/// The last direction sent before a tick wins: a second change to the same
/// player overwrites the first completely, as if the first was never sent.
pub proof fn lemma_direction_last_write_wins(v: GameView, id: u64, d1: Direction, d2: Direction)
    requires
        v.wf(),
    ensures
        v.set_direction(id, d1).set_direction(id, d2) == v.set_direction(id, d2),
{
    let idx = player_index(v.players, id);
    lemma_player_index(v.players, id);
    if idx >= 0 {
        let w = v.set_direction(id, d1);
        assert forall|a: int, b: int| 0 <= a < b < w.players.len() implies (
        #[trigger] w.players[a]).0 != (#[trigger] w.players[b]).0 by {
            assert(v.players[a].0 < v.players[b].0);
            assert(w.players[a].0 == v.players[a].0 && w.players[b].0 == v.players[b].0);
        }
        assert(w.players[idx].0 == id);
        lemma_player_index_of(w.players, id, idx);
        assert(w.set_direction(id, d2).players =~= v.set_direction(id, d2).players);
        assert(w.set_direction(id, d2) =~~= v.set_direction(id, d2));
    }
}

/// The first message a new subscriber gets, then one change event per
/// non-empty cell in row-major order: the bootstrap burst for a connection.
pub open spec fn initial_messages(g: Seq<Seq<Field>>) -> Seq<ServerMessage> {
    seq![ServerMessage::PlayerState(PlayerStateMessage { state: PlayerState::Playing })]
        + snapshot_changes(g).map_values(|ch: FieldChangeMessage| ServerMessage::FieldChange(ch))
}

/// The cell a player's head enters on its next step, as unbounded integers
/// so that a step off the field is representable.
pub open spec fn next_pos(p: PlayerView) -> (int, int) {
    let head = p.snake.last();
    let off = p.direction.offset_spec();
    (head.0 + off.0, head.1 + off.1)
}

impl GameView {
    /// The view after a plain move of the player at registry index `idx`
    /// into the empty cell `next`: the new head is drawn, then the old tail
    /// vacated, two change events in that order.
    pub open spec fn move_player(self, idx: int, next: (usize, usize)) -> GameView {
        let id = self.players[idx].0;
        let p = self.players[idx].1;
        let tail = p.snake[0];
        let moved = PlayerView { snake: p.snake.drop_first().push(next), ..p };
        GameView {
            grid: grid_set(
                grid_set(self.grid, next.0 as int, next.1 as int, Field::Snake(p.color)),
                tail.0 as int,
                tail.1 as int,
                Field::Empty,
            ),
            players: self.players.update(idx, (id, moved)),
            next_id: self.next_id,
            history: self.history + seq![
                change_at(next.0, next.1, Field::Snake(p.color)),
                change_at(tail.0, tail.1, Field::Empty),
            ],
        }
    }

    /// The view after the player at registry index `idx` grows into the food
    /// cell `next`: the new head is drawn and the tail kept; the replacement
    /// food is placed by a separate step.
    pub open spec fn grow_player(self, idx: int, next: (usize, usize)) -> GameView {
        let id = self.players[idx].0;
        let p = self.players[idx].1;
        let grown = PlayerView { snake: p.snake.push(next), ..p };
        GameView {
            grid: grid_set(self.grid, next.0 as int, next.1 as int, Field::Snake(p.color)),
            players: self.players.update(idx, (id, grown)),
            next_id: self.next_id,
            history: self.history.push(change_at(next.0, next.1, Field::Snake(p.color))),
        }
    }

    /// Whether some cell of the grid is empty.
    pub open spec fn has_empty_cell(self) -> bool {
        exists|r: int, c: int| in_grid(self.grid, r, c) && #[trigger] self.grid[r][c]
            == Field::Empty
    }
}

/// Growing into a food cell preserves the engine invariant: the head cell
/// was food, so nobody owned it, and it now belongs to the grown body alone.
pub proof fn lemma_grow_player_wf(v: GameView, idx: int, next: (usize, usize))
    requires
        v.wf(),
        0 <= idx < v.players.len(),
        in_grid(v.grid, next.0 as int, next.1 as int),
        v.grid[next.0 as int][next.1 as int] == Field::Food,
    ensures
        v.grow_player(idx, next).wf(),
{
    let w = v.grow_player(idx, next);
    let p = v.players[idx].1;
    lemma_with_cell_shape(v, next.0, next.1, Field::Snake(p.color));
    assert(w.grid == v.with_cell(next.0, next.1, Field::Snake(p.color)).grid);
    assert(w.history == v.with_cell(next.0, next.1, Field::Snake(p.color)).history);
    assert(w.replay_wf());
    assert(grid_dims_wf(w.grid));
    // the food cell was in nobody's body
    assert forall|i: int, k: int|
        0 <= i < v.players.len() && 0 <= k < v.players[i].1.snake.len() implies (
    #[trigger] v.players[i].1.snake[k]) != next by {
        let c2 = v.players[i].1.snake[k];
        assert(v.grid[c2.0 as int][c2.1 as int] == Field::Snake(v.players[i].1.color));
    }
    assert(w.players_wf());
    assert forall|i: int, k: int|
        0 <= i < w.players.len() && 0 <= k < w.players[i].1.snake.len() implies w.grid[(
    #[trigger] w.players[i].1.snake[k]).0 as int][w.players[i].1.snake[k].1 as int]
        == Field::Snake(w.players[i].1.color) by {
        if i == idx && k == p.snake.len() {
            assert(w.players[i].1.snake[k] == next);
        } else {
            assert(w.players[i].1.snake[k] == v.players[i].1.snake[k]);
            let c2 = v.players[i].1.snake[k];
            assert(v.grid[c2.0 as int][c2.1 as int] == Field::Snake(v.players[i].1.color));
            assert(c2 != next);
        }
    }
    assert forall|r: int, c: int| in_grid(w.grid, r, c) implies ((#[trigger] w.grid[r][c]
        == Field::Wall) <==> on_border(w.grid, r, c)) by {
        assert(in_grid(v.grid, r, c));
        if r == next.0 as int && c == next.1 as int {
            assert(!on_border(v.grid, r, c));
        }
    }
    assert forall|r: int, c: int|
        in_grid(w.grid, r, c) && (#[trigger] w.grid[r][c]) is Snake implies exists|i: int, k: int|
        0 <= i < w.players.len() && 0 <= k < w.players[i].1.snake.len()
            && (#[trigger] w.players[i].1.snake[k]) == (r as usize, c as usize) by {
        if r == next.0 as int && c == next.1 as int {
            assert(w.players[idx].1.snake[p.snake.len() as int] == (r as usize, c as usize));
        } else {
            assert(v.grid[r][c] is Snake);
            let (i, k) = choose|i: int, k: int|
                0 <= i < v.players.len() && 0 <= k < v.players[i].1.snake.len()
                    && (#[trigger] v.players[i].1.snake[k]) == (r as usize, c as usize);
            assert(w.players[i].1.snake[k] == (r as usize, c as usize));
        }
    }
    assert forall|i1: int, k1: int, i2: int, k2: int|
        0 <= i1 < w.players.len() && 0 <= k1 < w.players[i1].1.snake.len()
            && 0 <= i2 < w.players.len() && 0 <= k2 < w.players[i2].1.snake.len()
            && (#[trigger] w.players[i1].1.snake[k1])
                == (#[trigger] w.players[i2].1.snake[k2]) implies i1 == i2 && k1 == k2 by {
        let new1 = i1 == idx && k1 == p.snake.len();
        let new2 = i2 == idx && k2 == p.snake.len();
        if new1 && !new2 {
            assert(w.players[i2].1.snake[k2] == v.players[i2].1.snake[k2]);
            assert(v.players[i2].1.snake[k2] != next);
            assert(w.players[i1].1.snake[k1] == next);
        } else if !new1 && new2 {
            assert(w.players[i1].1.snake[k1] == v.players[i1].1.snake[k1]);
            assert(v.players[i1].1.snake[k1] != next);
            assert(w.players[i2].1.snake[k2] == next);
        } else if !new1 && !new2 {
            assert(w.players[i1].1.snake[k1] == v.players[i1].1.snake[k1]);
            assert(w.players[i2].1.snake[k2] == v.players[i2].1.snake[k2]);
        }
    }
}

/// A plain move preserves the engine invariant: the head cell was empty and
/// now belongs to the moved body alone; the vacated tail cell claims nobody.
pub proof fn lemma_move_player_wf(v: GameView, idx: int, next: (usize, usize))
    requires
        v.wf(),
        0 <= idx < v.players.len(),
        in_grid(v.grid, next.0 as int, next.1 as int),
        v.grid[next.0 as int][next.1 as int] == Field::Empty,
    ensures
        v.move_player(idx, next).wf(),
{
    let w = v.move_player(idx, next);
    let p = v.players[idx].1;
    let tail = p.snake[0];
    let len = p.snake.len() as int;
    // the empty head cell was in nobody's body
    assert forall|i: int, k: int|
        0 <= i < v.players.len() && 0 <= k < v.players[i].1.snake.len() implies (
    #[trigger] v.players[i].1.snake[k]) != next by {
        let c2 = v.players[i].1.snake[k];
        assert(v.grid[c2.0 as int][c2.1 as int] == Field::Snake(v.players[i].1.color));
    }
    assert(v.grid[tail.0 as int][tail.1 as int] == Field::Snake(p.color));
    assert(in_grid(v.grid, tail.0 as int, tail.1 as int));
    assert(tail != next);
    // the grid after both writes, described cell by cell
    let mid = v.with_cell(next.0, next.1, Field::Snake(p.color));
    lemma_with_cell_shape(v, next.0, next.1, Field::Snake(p.color));
    lemma_with_cell_shape(mid, tail.0, tail.1, Field::Empty);
    assert(w.grid == mid.with_cell(tail.0, tail.1, Field::Empty).grid);
    assert(w.history == mid.with_cell(tail.0, tail.1, Field::Empty).history);
    assert(grid_dims_wf(w.grid));
    assert(w.grid[next.0 as int][next.1 as int] == Field::Snake(p.color));
    assert(w.grid[tail.0 as int][tail.1 as int] == Field::Empty);
    assert(mid.replay_wf());
    assert(w.replay_wf());
    assert(w.players_wf());
    // every body cell still shows its snake's color
    assert forall|i: int, k: int|
        0 <= i < w.players.len() && 0 <= k < w.players[i].1.snake.len() implies w.grid[(
    #[trigger] w.players[i].1.snake[k]).0 as int][w.players[i].1.snake[k].1 as int]
        == Field::Snake(w.players[i].1.color) by {
        if i == idx {
            if k == len - 1 {
                assert(w.players[i].1.snake[k] == next);
            } else {
                assert(w.players[i].1.snake[k] == p.snake[k + 1]);
                let c2 = p.snake[k + 1];
                assert(v.grid[c2.0 as int][c2.1 as int] == Field::Snake(p.color));
                assert(c2 != next);
                assert(c2 != tail);
            }
        } else {
            assert(w.players[i].1.snake[k] == v.players[i].1.snake[k]);
            let c2 = v.players[i].1.snake[k];
            assert(v.grid[c2.0 as int][c2.1 as int] == Field::Snake(v.players[i].1.color));
            assert(c2 != next);
            assert(c2 != tail);
        }
    }
    // walls still stand exactly on the border
    assert forall|r: int, c: int| in_grid(w.grid, r, c) implies ((#[trigger] w.grid[r][c]
        == Field::Wall) <==> on_border(w.grid, r, c)) by {
        assert(in_grid(v.grid, r, c));
        if r == next.0 as int && c == next.1 as int {
            assert(!on_border(v.grid, r, c));
        } else if r == tail.0 as int && c == tail.1 as int {
            assert(!on_border(v.grid, r, c));
        }
    }
    // every snake cell still has an owner
    assert forall|r: int, c: int|
        in_grid(w.grid, r, c) && (#[trigger] w.grid[r][c]) is Snake implies exists|i: int, k: int|
        0 <= i < w.players.len() && 0 <= k < w.players[i].1.snake.len()
            && (#[trigger] w.players[i].1.snake[k]) == (r as usize, c as usize) by {
        if r == next.0 as int && c == next.1 as int {
            assert(w.players[idx].1.snake[len - 1] == (r as usize, c as usize));
        } else if r == tail.0 as int && c == tail.1 as int {
            assert(w.grid[r][c] == Field::Empty);
            assert(false);
        } else {
            assert(v.grid[r][c] is Snake);
            let (i, k) = choose|i: int, k: int|
                0 <= i < v.players.len() && 0 <= k < v.players[i].1.snake.len()
                    && (#[trigger] v.players[i].1.snake[k]) == (r as usize, c as usize);
            if i == idx {
                assert(p.snake[k] != tail);
                assert(k != 0);
                assert(w.players[idx].1.snake[k - 1] == p.snake[k]);
            } else {
                assert(w.players[i].1.snake[k] == (r as usize, c as usize));
            }
        }
    }
    // bodies stay pairwise disjoint
    assert forall|i1: int, k1: int, i2: int, k2: int|
        0 <= i1 < w.players.len() && 0 <= k1 < w.players[i1].1.snake.len()
            && 0 <= i2 < w.players.len() && 0 <= k2 < w.players[i2].1.snake.len()
            && (#[trigger] w.players[i1].1.snake[k1])
                == (#[trigger] w.players[i2].1.snake[k2]) implies i1 == i2 && k1 == k2 by {
        let new1 = i1 == idx && k1 == len - 1;
        let new2 = i2 == idx && k2 == len - 1;
        if !new1 {
            if i1 == idx {
                assert(w.players[i1].1.snake[k1] == p.snake[k1 + 1]);
            } else {
                assert(w.players[i1].1.snake[k1] == v.players[i1].1.snake[k1]);
            }
        }
        if !new2 {
            if i2 == idx {
                assert(w.players[i2].1.snake[k2] == p.snake[k2 + 1]);
            } else {
                assert(w.players[i2].1.snake[k2] == v.players[i2].1.snake[k2]);
            }
        }
        if new1 && !new2 {
            assert(w.players[i2].1.snake[k2] != next);
            assert(false);
        } else if !new1 && new2 {
            assert(w.players[i1].1.snake[k1] != next);
            assert(false);
        }
    }
}

/// How one tick step of the player with this session id relates the engine
/// state before and after: a step off the field, into a wall or into any
/// snake removes the player at once; a step onto food grows it and spawns
/// one replacement food on some empty cell if one is left; a step into an
/// empty cell moves it.
pub open spec fn player_step_rel(pre: GameView, id: u64, post: GameView) -> bool {
    let idx = player_index(pre.players, id);
    let p = pre.players[idx].1;
    let np = next_pos(p);
    &&& idx >= 0
    &&& if !in_grid(pre.grid, np.0, np.1) || pre.grid[np.0][np.1] == Field::Wall
        || pre.grid[np.0][np.1] is Snake {
        post == pre.remove_player(id)
    } else if pre.grid[np.0][np.1] == Field::Food {
        let mid = pre.grow_player(idx, (np.0 as usize, np.1 as usize));
        if mid.has_empty_cell() {
            exists|cell: (usize, usize)|
                in_grid(mid.grid, cell.0 as int, cell.1 as int) && mid.grid[cell.0 as int][
                    cell.1 as int] == Field::Empty && post == #[trigger] mid.with_cell(
                    cell.0,
                    cell.1,
                    Field::Food,
                )
        } else {
            post == mid
        }
    } else {
        post == pre.move_player(idx, (np.0 as usize, np.1 as usize))
    }
}

/// The whole tick: the players with these session ids step in order, each
/// from the state the earlier steps produced.
pub open spec fn tick_steps_rel(pre: GameView, ids: Seq<u64>, post: GameView) -> bool
    decreases ids.len(),
{
    if ids.len() == 0 {
        post == pre
    } else {
        exists|mid: GameView|
            tick_steps_rel(pre, ids.drop_last(), mid) && #[trigger] player_step_rel(
                mid,
                ids.last(),
                post,
            )
    }
}

/// `player_index` looks only at the ids, not at the bodies.
proof fn lemma_player_index_same_ids(
    a: Seq<(u64, PlayerView)>,
    b: Seq<(u64, PlayerView)>,
    id: u64,
)
    requires
        a.len() == b.len(),
        forall|i: int| 0 <= i < a.len() ==> (#[trigger] a[i]).0 == b[i].0,
    ensures
        player_index(a, id) == player_index(b, id),
    decreases a.len(),
{
    if a.len() > 0 {
        assert(a[0].0 == b[0].0);
        if a[0].0 != id {
            assert forall|i: int| 0 <= i < a.drop_first().len() implies (
            #[trigger] a.drop_first()[i]).0 == b.drop_first()[i].0 by {
                assert(a.drop_first()[i] == a[i + 1]);
                assert(b.drop_first()[i] == b[i + 1]);
            }
            lemma_player_index_same_ids(a.drop_first(), b.drop_first(), id);
        }
    }
}

/// Removing one player keeps every other registered id registered.
proof fn lemma_remove_keeps_others(v: GameView, id: u64, other: u64)
    requires
        v.wf(),
        other != id,
        player_index(v.players, other) >= 0,
    ensures
        player_index(v.remove_player(id).players, other) >= 0,
{
    let idx = player_index(v.players, id);
    lemma_player_index(v.players, id);
    lemma_player_index(v.players, other);
    if idx >= 0 {
        let w = v.remove_player(id);
        let m = player_index(v.players, other);
        v.players.remove_ensures(idx);
        lemma_remove_player_wf(v, id);
        assert forall|a: int, b: int| 0 <= a < b < w.players.len() implies (
        #[trigger] w.players[a]).0 != (#[trigger] w.players[b]).0 by {
            assert(w.players[a].0 < w.players[b].0);
        }
        assert(m != idx);
        let m2 = if m < idx {
            m
        } else {
            m - 1
        };
        assert(w.players[m2] == v.players[m]);
        lemma_player_index_of(w.players, other, m2);
    }
}

/// Event replay equivalence: in any well-formed state — whatever sequence of
/// joins, leaves and ticks produced it — replaying the full recorded event
/// stream over an all-empty grid reproduces the exact current grid.
pub proof fn lemma_event_replay(v: GameView)
    requires
        v.wf(),
    ensures
        apply_changes(empty_grid(v.rows(), v.cols()), v.history) == v.grid,
{
}

/// Snapshot consistency for the engine: a subscriber that bootstraps from
/// the snapshot of one well-formed state and then applies every event the
/// engine emits afterwards holds exactly the later grid — no cell update is
/// missing and none is left over from before the snapshot.
pub proof fn lemma_snapshot_bootstrap(v: GameView, w: GameView, evs: Seq<FieldChangeMessage>)
    requires
        v.wf(),
        w.wf(),
        w.history == v.history + evs,
        w.rows() == v.rows(),
        w.cols() == v.cols(),
    ensures
        apply_changes(
            apply_changes(empty_grid(v.rows(), v.cols()), snapshot_changes(v.grid)),
            evs,
        ) == w.grid,
{
    crate::replay::lemma_snapshot_restores(v.grid);
    assert(apply_changes(empty_grid(v.rows(), v.cols()), snapshot_changes(v.grid)) == v.grid);
    crate::replay::lemma_apply_changes_concat(empty_grid(v.rows(), v.cols()), v.history, evs);
}

/// Cell ownership: in a well-formed state, every cell's content is explained
/// by exactly one owner. A wall stands exactly on the border ring; a snake
/// cell belongs to exactly one position of exactly one player's body; a food
/// or empty cell belongs to nobody's body and never to the border.
pub proof fn lemma_cell_ownership(v: GameView, r: int, c: int)
    requires
        v.wf(),
        in_grid(v.grid, r, c),
    ensures
        v.grid[r][c] == Field::Wall <==> on_border(v.grid, r, c),
        (v.grid[r][c] is Snake) <==> exists|i: int, k: int|
            0 <= i < v.players.len() && 0 <= k < v.players[i].1.snake.len()
                && (#[trigger] v.players[i].1.snake[k]) == (r as usize, c as usize),
        forall|i1: int, k1: int, i2: int, k2: int|
            0 <= i1 < v.players.len() && 0 <= k1 < v.players[i1].1.snake.len()
                && 0 <= i2 < v.players.len() && 0 <= k2 < v.players[i2].1.snake.len()
                && (#[trigger] v.players[i1].1.snake[k1])
                    == (#[trigger] v.players[i2].1.snake[k2]) ==> i1 == i2 && k1 == k2,
{
    if exists|i: int, k: int|
        0 <= i < v.players.len() && 0 <= k < v.players[i].1.snake.len()
            && (#[trigger] v.players[i].1.snake[k]) == (r as usize, c as usize) {
        let (i, k) = choose|i: int, k: int|
            0 <= i < v.players.len() && 0 <= k < v.players[i].1.snake.len()
                && (#[trigger] v.players[i].1.snake[k]) == (r as usize, c as usize);
        assert(v.grid[r][c] == Field::Snake(v.players[i].1.color));
    }
}

/// One more step extends a tick run: if the players in `ids` step `pre` to
/// `mid` and one more player steps `mid` to `post`, the run with that player
/// appended steps `pre` to `post`.
pub proof fn lemma_tick_steps_snoc(
    pre: GameView,
    ids: Seq<u64>,
    mid: GameView,
    id: u64,
    post: GameView,
)
    requires
        tick_steps_rel(pre, ids, mid),
        player_step_rel(mid, id, post),
    ensures
        tick_steps_rel(pre, ids.push(id), post),
{
    assert(ids.push(id).drop_last() =~= ids);
    assert(ids.push(id).last() == id);
    assert(tick_steps_rel(pre, ids.push(id).drop_last(), mid));
    assert(player_step_rel(mid, ids.push(id).last(), post));
    assert(tick_steps_rel(pre, ids.push(id), post)) by {
        assert(exists|m: GameView|
            tick_steps_rel(pre, ids.push(id).drop_last(), m) && #[trigger] player_step_rel(
                m,
                ids.push(id).last(),
                post,
            ));
    }
}

/// The rows x cols grid whose border ring is wall and whose inside is empty:
/// the field a fresh game starts with.
pub open spec fn walled_grid(rows: int, cols: int) -> Seq<Seq<Field>> {
    Seq::new(
        rows as nat,
        |r: int|
            Seq::new(
                cols as nat,
                |c: int|
                    if r == 0 || r == rows - 1 || c == 0 || c == cols - 1 {
                        Field::Wall
                    } else {
                        Field::Empty
                    },
            ),
    )
}

/// The whole game state: the field, the player registry, the id counter, the
/// event channel's sending half, and the recorded event history.
pub struct Game {
    state: Vec<Vec<Field>>,
    players: Vec<(u64, Player)>,
    next_id: u64,
    events: Sender<ServerMessage>,
    history: Ghost<Seq<FieldChangeMessage>>,
}

impl View for Game {
    type V = GameView;

    closed spec fn view(&self) -> GameView {
        GameView {
            grid: self.state@.map_values(|r: Vec<Field>| r@),
            players: self.players@.map_values(|e: (u64, Player)| (e.0, e.1@)),
            next_id: self.next_id,
            history: self.history@,
        }
    }
}

impl Game {
    /// Creates a fresh game: a rows x cols field with a wall ring and an
    /// empty inside, no players, and a new event channel. The border writes
    /// are recorded in the history, so replay from an empty grid starts
    /// consistent.
    pub fn new(rows: usize, cols: usize) -> (r: Game)
        requires
            2 <= rows,
            2 <= cols,
        ensures
            r@.wf(),
            r@.grid == walled_grid(rows as int, cols as int),
            r@.players.len() == 0,
            r@.next_id == 0,
    {
        let mut state: Vec<Vec<Field>> = Vec::new();
        for i in 0..rows
            invariant
                2 <= rows,
                2 <= cols,
                state@.len() == i,
                forall|a: int, b: int|
                    0 <= a < i && 0 <= b < cols ==> #[trigger] state@[a]@[b] == walled_grid(
                        rows as int,
                        cols as int,
                    )[a][b],
                forall|a: int| 0 <= a < i ==> (#[trigger] state@[a]@).len() == cols,
        {
            let mut row: Vec<Field> = Vec::new();
            for j in 0..cols
                invariant
                    2 <= rows,
                    2 <= cols,
                    i < rows,
                    row@.len() == j,
                    forall|b: int|
                        0 <= b < j ==> #[trigger] row@[b] == walled_grid(rows as int, cols as int)[
                            i as int
                        ][b],
            {
                let cell = if i == 0 || i == rows - 1 || j == 0 || j == cols - 1 {
                    Field::Wall
                } else {
                    Field::Empty
                };
                row.push(cell);
            }
            state.push(row);
        }
        let events = channel_sender(CHANNEL_SIZE);
        let grid = Ghost(state@.map_values(|r: Vec<Field>| r@));
        proof {
            assert(grid@ =~~= walled_grid(rows as int, cols as int));
        }
        let game = Game {
            state,
            players: Vec::new(),
            next_id: 0,
            events,
            history: Ghost(snapshot_changes(grid@)),
        };
        proof {
            crate::replay::lemma_snapshot_restores(game@.grid);
            assert(game@.grid =~~= grid@);
            assert(game@.players =~~= Seq::<(u64, PlayerView)>::empty());
        }
        game
    }

    /// The number of rows of the field.
    pub fn rows(&self) -> (r: usize)
        ensures
            r == self@.grid.len(),
    {
        self.state.len()
    }

    /// The number of columns of the field.
    pub fn cols(&self) -> (r: usize)
        requires
            self@.grid.len() >= 1,
        ensures
            r == grid_cols(self@.grid),
    {
        self.state[0].len()
    }

    /// Reads one cell; `None` exactly when the position lies outside the
    /// field.
    pub fn field_at(&self, row: usize, col: usize) -> (r: Option<Field>)
        ensures
            match r {
                Some(f) => row < self@.grid.len() && col < self@.grid[row as int].len() && f
                    == self@.grid[row as int][col as int],
                None => row >= self@.grid.len() || col >= self@.grid[row as int].len(),
            },
    {
        if row < self.state.len() {
            let inner = &self.state[row];
            if col < inner.len() {
                Some(inner[col])
            } else {
                None
            }
        } else {
            None
        }
    }

    /// How many players are registered.
    pub fn player_count(&self) -> (r: usize)
        ensures
            r == self@.players.len(),
    {
        self.players.len()
    }

    /// The body of the player with this session id, tail to head; `None`
    /// exactly when no such player is registered.
    pub fn player_body(&self, id: u64) -> (r: Option<Vec<(usize, usize)>>)
        requires
            self@.wf(),
        ensures
            match r {
                Some(body) => player_index(self@.players, id) >= 0 && body@ == self@.players[
                    player_index(self@.players, id)].1.snake,
                None => player_index(self@.players, id) < 0,
            },
    {
        let ghost v = self@;
        proof {
            lemma_player_index(v.players, id);
        }
        let n = self.players.len();
        let mut i: usize = 0;
        while i < n
            invariant
                v == self@,
                v.wf(),
                n == self.players@.len(),
                v.players.len() == n,
                i <= n,
                forall|j: int| 0 <= j < n ==> (#[trigger] v.players[j]).0 == self.players@[j].0,
                forall|j: int| 0 <= j < i ==> (#[trigger] v.players[j]).0 != id,
            decreases n - i,
        {
            if self.players[i].0 == id {
                proof {
                    assert forall|a: int, b: int| 0 <= a < b < v.players.len() implies (
                    #[trigger] v.players[a]).0 != (#[trigger] v.players[b]).0 by {
                        assert(v.players[a].0 < v.players[b].0);
                    }
                    lemma_player_index_of(v.players, id, i as int);
                }
                let snake = &self.players[i].1.snake;
                let m = snake.len();
                let mut body: Vec<(usize, usize)> = Vec::new();
                let mut k: usize = 0;
                while k < m
                    invariant
                        m == snake@.len(),
                        k <= m,
                        body@ =~= snake@.take(k as int),
                    decreases m - k,
                {
                    body.push(snake[k]);
                    proof {
                        assert(body@ =~= snake@.take(k + 1));
                    }
                    k += 1;
                }
                proof {
                    assert(body@ =~= snake@);
                }
                return Some(body);
            }
            i += 1;
        }
        proof {
            assert(player_index(v.players, id) < 0);
        }
        None
    }

    /// Writes one cell, records the matching change event, and publishes it
    /// to every subscriber. Whether anyone was listening does not matter to
    /// the engine, so the send result is dropped.
    fn state_set(&mut self, row: usize, col: usize, field: Field)
        requires
            row < old(self)@.grid.len(),
            col < old(self)@.grid[row as int].len(),
        ensures
            final(self)@ == old(self)@.with_cell(row, col, field),
    {
        let ghost prior = self@;
        let inner = &mut self.state[row];
        inner[col] = field;
        let _ = broadcast_send(
            &self.events,
            ServerMessage::FieldChange(
                FieldChangeMessage { coordinate: crate::model::Coordinate { row, col }, field },
            ),
        );
        proof {
            self.history = Ghost(prior.history.push(change_at(row, col, field)));
        }
        proof {
            assert(self@.grid =~~= prior.with_cell(row, col, field).grid);
            assert(self@.players =~~= prior.players);
            assert(self@ =~~= prior.with_cell(row, col, field));
        }
    }

    /// Looks for an empty cell: a bounded number of uniformly random probes,
    /// then a deterministic row-major scan. Returns `None` exactly when the
    /// grid has no empty cell left, instead of retrying forever.
    pub fn empty_field(&self) -> (r: Option<(usize, usize)>)
        requires
            grid_dims_wf(self@.grid),
        ensures
            match r {
                Some(cell) => in_grid(self@.grid, cell.0 as int, cell.1 as int)
                    && self@.grid[cell.0 as int][cell.1 as int] == Field::Empty,
                None => forall|rr: int, cc: int|
                    in_grid(self@.grid, rr, cc) ==> #[trigger] self@.grid[rr][cc]
                        != Field::Empty,
            },
    {
        let rows = self.state.len();
        let cols = self.state[0].len();
        let mut attempt: usize = 0;
        while attempt < PLACE_RETRIES
            invariant
                grid_dims_wf(self@.grid),
                rows == self@.grid.len(),
                cols == self@.grid[0].len(),
            decreases PLACE_RETRIES - attempt,
        {
            let y = random_below(rows);
            let x = random_below(cols);
            proof {
                assert(self.state@[y as int]@ == self@.grid[y as int]);
            }
            if self.state[y][x] == Field::Empty {
                return Some((y, x));
            }
            attempt += 1;
        }
        let mut y: usize = 0;
        while y < rows
            invariant
                grid_dims_wf(self@.grid),
                rows == self@.grid.len(),
                cols == self@.grid[0].len(),
                y <= rows,
                forall|rr: int, cc: int|
                    0 <= rr < y && 0 <= cc < cols ==> #[trigger] self@.grid[rr][cc]
                        != Field::Empty,
            decreases rows - y,
        {
            let mut x: usize = 0;
            while x < cols
                invariant
                    grid_dims_wf(self@.grid),
                    rows == self@.grid.len(),
                    cols == self@.grid[0].len(),
                    y < rows,
                    x <= cols,
                    forall|rr: int, cc: int|
                        0 <= rr < y && 0 <= cc < cols ==> #[trigger] self@.grid[rr][cc]
                            != Field::Empty,
                    forall|cc: int|
                        0 <= cc < x ==> #[trigger] self@.grid[y as int][cc] != Field::Empty,
                decreases cols - x,
            {
                proof {
                    assert(self.state@[y as int]@ == self@.grid[y as int]);
                }
                if self.state[y][x] == Field::Empty {
                    return Some((y, x));
                }
                x += 1;
            }
            y += 1;
        }
        None
    }

    /// Joins a new player: picks an empty cell at random, places a one-cell
    /// snake of a random color there, registers it under a fresh session id,
    /// and opens a subscription to the event stream.
    ///
    /// The subscription is taken after the placement event is published, so
    /// the caller's own placement reaches it through the snapshot it fetches
    /// next, not through the stream; the caller must hold the engine's
    /// exclusive guard across the join and that snapshot so no event can
    /// slip between them.
    ///
    /// Fails with `GridFull` when no empty cell is left, and with
    /// `IdsExhausted` in the unreachable case that every session id has been
    /// handed out; it never retries without bound.
    pub fn player_add(&mut self) -> (r: Result<(u64, Receiver<ServerMessage>), JoinError>)
        requires
            old(self)@.wf(),
        ensures
            final(self)@.wf(),
            r is Ok <==> (old(self)@.next_id < u64::MAX && exists|rr: int, cc: int|
                in_grid(old(self)@.grid, rr, cc) && #[trigger] old(self)@.grid[rr][cc]
                    == Field::Empty),
            match r {
                Ok(pr) => pr.0 == old(self)@.next_id && exists|cell: (usize, usize), ci: int|
                    in_grid(old(self)@.grid, cell.0 as int, cell.1 as int)
                        && old(self)@.grid[cell.0 as int][cell.1 as int] == Field::Empty
                        && 0 <= ci < COLOR_COUNT && final(self)@ == old(self)@.join_player(
                        cell,
                        Color::from_index_spec(ci),
                    ),
                Err(e) => final(self)@ == old(self)@ && (e == JoinError::IdsExhausted
                    <==> old(self)@.next_id == u64::MAX),
            },
    {
        let ghost orig = self@;
        if self.next_id == u64::MAX {
            return Err(JoinError::IdsExhausted);
        }
        match self.empty_field() {
            None => Err(JoinError::GridFull),
            Some((row, col)) => {
                let ci = random_below(COLOR_COUNT);
                let color = Color::from_index(ci);
                proof {
                    lemma_join_player_wf(orig, (row, col), color);
                }
                let id = self.next_id;
                let mut snake: VecDeque<(usize, usize)> = VecDeque::new();
                snake.push_back((row, col));
                self.state_set(row, col, Field::Snake(color));
                self.players.push((id, Player { snake, color, direction: Direction::default() }));
                self.next_id = id + 1;
                let rx = broadcast_subscribe(&self.events);
                proof {
                    assert(self@.players =~~= orig.players.push((
                        id,
                        PlayerView {
                            snake: seq![(row, col)],
                            color,
                            direction: Direction::Right,
                        },
                    )));
                    assert(self@ =~~= orig.join_player((row, col), color));
                    assert(in_grid(orig.grid, row as int, col as int) && orig.grid[row as int][
                        col as int] == Field::Empty);
                }
                Ok((id, rx))
            }
        }
    }

    /// Removes the player with this session id, turning every cell of its
    /// body into food; does nothing if no such player is registered, so a
    /// second call after a disconnect is harmless.
    pub fn player_remove(&mut self, id: u64)
        requires
            old(self)@.wf(),
        ensures
            final(self)@.wf(),
            final(self)@ == old(self)@.remove_player(id),
    {
        let ghost orig = self@;
        proof {
            lemma_remove_player_wf(orig, id);
        }
        let n = self.players.len();
        let mut idx_opt: Option<usize> = None;
        for i in 0..n
            invariant
                n == self.players@.len(),
                orig == self@,
                orig.players.len() == n,
                forall|j: int| 0 <= j < n ==> (#[trigger] orig.players[j]).0 == self.players@[j].0,
                match idx_opt {
                    Some(fi) => fi < i && orig.players[fi as int].0 == id,
                    None => forall|j: int| 0 <= j < i ==> (#[trigger] orig.players[j]).0 != id,
                },
        {
            if idx_opt.is_none() && self.players[i].0 == id {
                idx_opt = Some(i);
            }
        }
        match idx_opt {
            None => {
                proof {
                    lemma_player_index(orig.players, id);
                    assert(player_index(orig.players, id) < 0);
                    assert(orig.remove_player(id) == orig);
                }
            }
            Some(idx) => {
                proof {
                    assert forall|a: int, b: int| 0 <= a < b < orig.players.len() implies (
                    #[trigger] orig.players[a]).0 != (#[trigger] orig.players[b]).0 by {
                        assert(orig.players[a].0 < orig.players[b].0);
                    }
                    lemma_player_index_of(orig.players, id, idx as int);
                    orig.players.remove_ensures(idx as int);
                    self.players@.remove_ensures(idx as int);
                }
                let ghost p = orig.players[idx as int].1;
                let ghost corpse = corpse_changes(p);
                let entry = self.players.remove(idx);
                let player = entry.1;
                proof {
                    assert(player@ == p);
                    assert(self@.players =~~= orig.players.remove(idx as int));
                    assert(corpse.take(0) =~= Seq::<FieldChangeMessage>::empty());
                    assert(self@.grid == apply_changes(orig.grid, corpse.take(0)));
                    assert(self@.history =~~= orig.history + corpse.take(0));
                }
                let m = player.snake.len();
                let mut k: usize = 0;
                while k < m
                    invariant
                        orig.wf(),
                        (idx as int) < orig.players.len(),
                        p == orig.players[idx as int].1,
                        corpse == corpse_changes(p),
                        player@ == p,
                        m == p.snake.len(),
                        k <= m,
                        self@.players == orig.players.remove(idx as int),
                        self@.next_id == orig.next_id,
                        self@.grid == apply_changes(orig.grid, corpse.take(k as int)),
                        self@.history == orig.history + corpse.take(k as int),
                    decreases m - k,
                {
                    let ghost before = self@;
                    proof {
                        assert forall|k2: int| 0 <= k2 < p.snake.len() implies in_grid(
                            orig.grid,
                            (#[trigger] p.snake[k2]).0 as int,
                            p.snake[k2].1 as int,
                        ) by {
                            assert(orig.players[idx as int].1.snake[k2] == p.snake[k2]);
                        }
                        lemma_corpse_apply(orig.grid, p, k as int);
                        assert(in_grid(orig.grid, p.snake[k as int].0 as int, p.snake[
                            k as int].1 as int));
                    }
                    let cell = player.snake[k];
                    self.state_set(cell.0, cell.1, Field::Food);
                    proof {
                        assert(corpse[k as int] == change_at(cell.0, cell.1, Field::Food));
                        assert(corpse.take(k + 1) =~= corpse.take(k as int).push(
                            corpse[k as int]));
                        lemma_apply_changes_push(orig.grid, corpse.take(k as int), corpse[
                            k as int]);
                        assert(self@.grid == apply_changes(orig.grid, corpse.take(k + 1)));
                        assert(self@.history =~~= orig.history + corpse.take(k + 1));
                    }
                    k += 1;
                }
                proof {
                    assert(corpse.take(m as int) =~= corpse);
                    assert(self@ =~~= orig.remove_player(id));
                }
            }
        }
    }

    /// Records the direction this player will move on its next tick; a
    /// direction change never moves the snake at once, and an unknown id is
    /// a no-op. No reversal filtering happens here: the collision check at
    /// tick time is authoritative, by design.
    pub fn player_direction(&mut self, id: u64, direction: Direction)
        requires
            old(self)@.wf(),
        ensures
            final(self)@.wf(),
            final(self)@ == old(self)@.set_direction(id, direction),
    {
        let ghost orig = self@;
        proof {
            lemma_set_direction_wf(orig, id, direction);
            lemma_player_index(orig.players, id);
        }
        let n = self.players.len();
        let mut i: usize = 0;
        while i < n
            invariant
                orig == self@,
                orig == old(self)@,
                orig.wf(),
                n == self.players@.len(),
                orig.players.len() == n,
                i <= n,
                forall|j: int| 0 <= j < n ==> (#[trigger] orig.players[j]).0 == self.players@[j].0,
                forall|j: int| 0 <= j < i ==> (#[trigger] orig.players[j]).0 != id,
            decreases n - i,
        {
            if self.players[i].0 == id {
                proof {
                    lemma_set_direction_wf(orig, id, direction);
                    assert forall|a: int, b: int| 0 <= a < b < orig.players.len() implies (
                    #[trigger] orig.players[a]).0 != (#[trigger] orig.players[b]).0 by {
                        assert(orig.players[a].0 < orig.players[b].0);
                    }
                    lemma_player_index_of(orig.players, id, i as int);
                }
                let entry = &mut self.players[i];
                entry.1.direction = direction;
                proof {
                    assert(self@.players =~~= orig.set_direction(id, direction).players);
                    assert(self@ =~~= orig.set_direction(id, direction));
                }
                return;
            }
            i += 1;
        }
        proof {
            assert(player_index(orig.players, id) < 0);
        }
    }

    /// Advances one registered player by one step and reports whether it
    /// survived. A step off the field, into a wall or into any snake —
    /// its own body included — returns false and changes nothing: the caller
    /// removes the player. A step onto food grows the snake and spawns one
    /// replacement food; a step into an empty cell moves the snake, head
    /// drawn before the tail is vacated.
    pub fn player_tick(&mut self, id: u64) -> (r: bool)
        requires
            old(self)@.wf(),
            player_index(old(self)@.players, id) >= 0,
        ensures
            final(self)@.wf(),
            final(self)@.players.len() == old(self)@.players.len(),
            forall|x: int|
                0 <= x < old(self)@.players.len() ==> (#[trigger] final(self)@.players[x]).0
                    == old(self)@.players[x].0,
            ({
                let idx = player_index(old(self)@.players, id);
                let p = old(self)@.players[idx].1;
                let np = next_pos(p);
                if !in_grid(old(self)@.grid, np.0, np.1) || old(self)@.grid[np.0][np.1]
                    == Field::Wall || old(self)@.grid[np.0][np.1] is Snake {
                    r == false && final(self)@ == old(self)@
                } else if old(self)@.grid[np.0][np.1] == Field::Food {
                    let mid = old(self)@.grow_player(idx, (np.0 as usize, np.1 as usize));
                    r == true && if mid.has_empty_cell() {
                        exists|cell: (usize, usize)|
                            in_grid(mid.grid, cell.0 as int, cell.1 as int) && mid.grid[
                                cell.0 as int][cell.1 as int] == Field::Empty && final(self)@
                                == #[trigger] mid.with_cell(cell.0, cell.1, Field::Food)
                    } else {
                        final(self)@ == mid
                    }
                } else {
                    r == true && final(self)@ == old(self)@.move_player(
                        idx,
                        (np.0 as usize, np.1 as usize),
                    )
                }
            }),
    {
        let ghost orig = self@;
        proof {
            lemma_player_index(orig.players, id);
        }
        let ghost gidx = player_index(orig.players, id);
        let n = self.players.len();
        let mut idx_opt: Option<usize> = None;
        for i in 0..n
            invariant
                orig == self@,
                orig == old(self)@,
                orig.wf(),
                gidx == player_index(orig.players, id),
                0 <= gidx < orig.players.len(),
                orig.players[gidx].0 == id,
                n == self.players@.len(),
                orig.players.len() == n,
                forall|j: int| 0 <= j < n ==> (#[trigger] orig.players[j]).0 == self.players@[j].0,
                match idx_opt {
                    Some(fi) => fi < n && orig.players[fi as int].0 == id,
                    None => forall|j: int| 0 <= j < i ==> (#[trigger] orig.players[j]).0 != id,
                },
        {
            if idx_opt.is_none() && self.players[i].0 == id {
                idx_opt = Some(i);
            }
        }
        let idx = match idx_opt {
            Some(fi) => fi,
            None => {
                proof {
                    assert(false);
                }
                return false;
            }
        };
        proof {
            assert forall|a: int, b: int| 0 <= a < b < orig.players.len() implies (
            #[trigger] orig.players[a]).0 != (#[trigger] orig.players[b]).0 by {
                assert(orig.players[a].0 < orig.players[b].0);
            }
            lemma_player_index_of(orig.players, id, idx as int);
            assert(gidx == idx as int);
        }
        let ghost p = orig.players[idx as int].1;
        let ghost np = next_pos(p);
        let snake_len = self.players[idx].1.snake.len();
        proof {
            assert(p.snake.len() >= 1);
        }
        let head = self.players[idx].1.snake[snake_len - 1];
        let dir = self.players[idx].1.direction;
        let rows = self.state.len();
        let cols = self.state[0].len();
        proof {
            assert(head == p.snake.last());
            assert(in_grid(orig.grid, head.0 as int, head.1 as int));
        }
        let next_cell: Option<(usize, usize)> = match dir {
            Direction::Up => if head.0 == 0 {
                None
            } else {
                Some((head.0 - 1, head.1))
            },
            Direction::Down => if head.0 + 1 >= rows {
                None
            } else {
                Some((head.0 + 1, head.1))
            },
            Direction::Left => if head.1 == 0 {
                None
            } else {
                Some((head.0, head.1 - 1))
            },
            Direction::Right => if head.1 + 1 >= cols {
                None
            } else {
                Some((head.0, head.1 + 1))
            },
        };
        match next_cell {
            None => {
                proof {
                    assert(!in_grid(orig.grid, np.0, np.1));
                }
                false
            }
            Some((nr, nc)) => {
                proof {
                    assert(np.0 == nr as int && np.1 == nc as int);
                    assert(in_grid(orig.grid, np.0, np.1));
                    assert(self.state@[nr as int]@ == orig.grid[nr as int]);
                }
                let target = self.state[nr][nc];
                match target {
                    Field::Wall => false,
                    Field::Snake(_) => false,
                    Field::Food => {
                        proof {
                            lemma_grow_player_wf(orig, idx as int, (nr, nc));
                        }
                        let entry = &mut self.players[idx];
                        entry.1.snake.push_back((nr, nc));
                        let color = self.players[idx].1.color;
                        self.state_set(nr, nc, Field::Snake(color));
                        let ghost mid = orig.grow_player(idx as int, (nr, nc));
                        proof {
                            assert(self@.players =~~= mid.players);
                            assert(self@ =~~= mid);
                        }
                        let spawned = self.add_food();
                        proof {
                            match spawned {
                                Some(cell) => {
                                    assert(in_grid(mid.grid, cell.0 as int, cell.1 as int)
                                        && mid.grid[cell.0 as int][cell.1 as int]
                                        == Field::Empty);
                                    assert(mid.has_empty_cell());
                                    assert(final(self)@ == mid.with_cell(
                                        cell.0,
                                        cell.1,
                                        Field::Food,
                                    ));
                                }
                                None => {
                                    assert(!mid.has_empty_cell());
                                }
                            }
                        }
                        true
                    }
                    Field::Empty => {
                        proof {
                            lemma_move_player_wf(orig, idx as int, (nr, nc));
                        }
                        let entry = &mut self.players[idx];
                        entry.1.snake.push_back((nr, nc));
                        let tail_opt = entry.1.snake.pop_front();
                        let tail = match tail_opt {
                            Some(t) => t,
                            None => {
                                proof {
                                    assert(false);
                                }
                                (0, 0)
                            }
                        };
                        let color = self.players[idx].1.color;
                        proof {
                            assert(tail == p.snake[0]);
                            assert(self.players@[idx as int].1@.snake =~= p.snake.drop_first()
                                .push((nr, nc)));
                            assert(in_grid(orig.grid, tail.0 as int, tail.1 as int));
                        }
                        self.state_set(nr, nc, Field::Snake(color));
                        self.state_set(tail.0, tail.1, Field::Empty);
                        proof {
                            let w = orig.move_player(idx as int, (nr, nc));
                            assert(self@.players =~~= w.players);
                            assert(self@.history =~~= w.history);
                            assert(self@.grid =~~= w.grid);
                            assert(self@ =~~= w);
                        }
                        true
                    }
                }
            }
        }
    }

    /// Advances every registered player exactly once, in ascending session
    /// id order, so collision outcomes are reproducible. A player that dies
    /// is removed at once, before later players step, so nobody can collide
    /// with a corpse this same tick.
    pub fn tick(&mut self)
        requires
            old(self)@.wf(),
        ensures
            final(self)@.wf(),
            tick_steps_rel(old(self)@, old(self)@.ids(), final(self)@),
    {
        let ghost pre = self@;
        let n = self.players.len();
        let mut ids: Vec<u64> = Vec::new();
        for i in 0..n
            invariant
                pre == self@,
                n == self.players@.len(),
                pre.players.len() == n,
                ids@.len() == i,
                forall|j: int| 0 <= j < n ==> (#[trigger] pre.players[j]).0 == self.players@[j].0,
                forall|j: int| 0 <= j < i ==> #[trigger] ids@[j] == pre.ids()[j],
        {
            ids.push(self.players[i].0);
        }
        proof {
            assert(ids@ =~= pre.ids());
            assert(tick_steps_rel(pre, ids@.take(0), self@));
            assert forall|a: int, b: int| 0 <= a < b < n implies #[trigger] ids@[a]
                != #[trigger] ids@[b] by {
                assert(pre.players[a].0 < pre.players[b].0);
            }
            assert forall|j: int| 0 <= j < n implies player_index(
                self@.players,
                #[trigger] ids@[j],
            ) >= 0 by {
                assert forall|x: int, y: int| 0 <= x < y < pre.players.len() implies (
                #[trigger] pre.players[x]).0 != (#[trigger] pre.players[y]).0 by {
                    assert(pre.players[x].0 < pre.players[y].0);
                }
                lemma_player_index_of(pre.players, ids@[j], j);
            }
        }
        let mut t: usize = 0;
        while t < n
            invariant
                pre == old(self)@,
                pre.wf(),
                n == pre.players.len(),
                ids@ == pre.ids(),
                n == ids@.len(),
                t <= n,
                self@.wf(),
                tick_steps_rel(pre, ids@.take(t as int), self@),
                forall|a: int, b: int| 0 <= a < b < n ==> #[trigger] ids@[a] != #[trigger] ids@[b],
                forall|j: int|
                    t <= j < n ==> player_index(self@.players, #[trigger] ids@[j]) >= 0,
            decreases n - t,
        {
            let id = ids[t];
            let ghost mid0 = self@;
            let alive = self.player_tick(id);
            if !alive {
                self.player_remove(id);
            }
            proof {
                assert(player_step_rel(mid0, id, self@));
                assert(ids@.take(t + 1).drop_last() =~= ids@.take(t as int));
                assert(ids@.take(t + 1).last() == id);
                lemma_tick_steps_snoc(pre, ids@.take(t as int), mid0, id, self@);
                assert(ids@.take(t as int).push(id) =~= ids@.take(t + 1));
                assert(tick_steps_rel(pre, ids@.take(t + 1), self@));
                assert forall|j: int|
                    t + 1 <= j < n implies player_index(self@.players, #[trigger] ids@[j])
                    >= 0 by {
                    assert(ids@[j] != id);
                    if alive {
                        lemma_player_index_same_ids(mid0.players, self@.players, ids@[j]);
                    } else {
                        lemma_remove_keeps_others(mid0, id, ids@[j]);
                    }
                }
            }
            t += 1;
        }
        proof {
            assert(ids@.take(n as int) =~= ids@);
        }
    }

    /// Applies one client message: a direction update records the new
    /// pending direction; restart and quit notices change nothing here, the
    /// session around the engine acts on them.
    pub fn handle(&mut self, id: u64, message: &ClientMessage)
        requires
            old(self)@.wf(),
        ensures
            final(self)@.wf(),
            final(self)@ == match *message {
                ClientMessage::Direction(dm) => old(self)@.set_direction(id, dm.direction),
                _ => old(self)@,
            },
    {
        match message {
            ClientMessage::Direction(dm) => self.player_direction(id, dm.direction),
            _ => {}
        }
    }

    /// The bootstrap burst for a new connection: the current game status,
    /// then one change event for every non-empty cell, in row-major order.
    /// Replaying exactly these events over an empty mirror rebuilds the
    /// whole field.
    pub fn messages_initial(&self) -> (r: Vec<ServerMessage>)
        requires
            grid_dims_wf(self@.grid),
        ensures
            r@ == initial_messages(self@.grid),
    {
        let ghost g = self@.grid;
        let ghost head = seq![
            ServerMessage::PlayerState(PlayerStateMessage { state: PlayerState::Playing }),
        ];
        let ghost wrap = |ch: FieldChangeMessage| ServerMessage::FieldChange(ch);
        let mut messages: Vec<ServerMessage> = Vec::new();
        messages.push(
            ServerMessage::PlayerState(PlayerStateMessage { state: PlayerState::Playing }),
        );
        proof {
            assert(messages@ =~= head + snapshot_prefix(g, 0).map_values(wrap));
        }
        let rows = self.state.len();
        let cols = self.state[0].len();
        let mut y: usize = 0;
        while y < rows
            invariant
                grid_dims_wf(g),
                g == self@.grid,
                rows == g.len(),
                cols == g[0].len(),
                y <= rows,
                head == seq![
                    ServerMessage::PlayerState(PlayerStateMessage { state: PlayerState::Playing }),
                ],
                wrap == (|ch: FieldChangeMessage| ServerMessage::FieldChange(ch)),
                messages@ == head + snapshot_prefix(g, y as int).map_values(wrap),
            decreases rows - y,
        {
            let mut x: usize = 0;
            while x < cols
                invariant
                    grid_dims_wf(g),
                    g == self@.grid,
                    rows == g.len(),
                    cols == g[0].len(),
                    y < rows,
                    x <= cols,
                    head == seq![
                        ServerMessage::PlayerState(
                            PlayerStateMessage { state: PlayerState::Playing },
                        ),
                    ],
                    wrap == (|ch: FieldChangeMessage| ServerMessage::FieldChange(ch)),
                    messages@ == head + (snapshot_prefix(g, y as int) + snapshot_row(
                        g,
                        y as int,
                        x as int,
                    )).map_values(wrap),
                decreases cols - x,
            {
                proof {
                    assert(self.state@[y as int]@ == g[y as int]);
                }
                let cell = self.state[y][x];
                if !(cell == Field::Empty) {
                    messages.push(
                        ServerMessage::FieldChange(
                            FieldChangeMessage {
                                coordinate: crate::model::Coordinate { row: y, col: x },
                                field: cell,
                            },
                        ),
                    );
                }
                proof {
                    let prefix = snapshot_prefix(g, y as int);
                    let rowx = snapshot_row(g, y as int, x as int);
                    let tail = if g[y as int][x as int] != Field::Empty {
                        seq![change_at(y, x, g[y as int][x as int])]
                    } else {
                        Seq::<FieldChangeMessage>::empty()
                    };
                    assert(snapshot_row(g, y as int, x + 1) == rowx + tail);
                    let big = prefix + snapshot_row(g, y as int, x + 1);
                    assert(big =~= (prefix + rowx) + tail);
                    let done = (prefix + rowx).map_values(wrap);
                    if g[y as int][x as int] != Field::Empty {
                        let msg = wrap(change_at(y, x, g[y as int][x as int]));
                        assert(big.map_values(wrap) =~= done.push(msg));
                        assert(messages@ == (head + done).push(msg));
                        assert((head + done).push(msg) =~= head + done.push(msg));
                    } else {
                        assert(big.map_values(wrap) =~= done);
                    }
                    assert(messages@ =~= head + big.map_values(wrap));
                }
                x += 1;
            }
            proof {
                assert(snapshot_prefix(g, y + 1) == snapshot_prefix(g, y as int) + snapshot_row(
                    g,
                    y as int,
                    grid_cols(g),
                ));
                assert(messages@ =~= head + snapshot_prefix(g, y + 1).map_values(wrap));
            }
            y += 1;
        }
        proof {
            assert(messages@ =~= initial_messages(g));
        }
        messages
    }

    /// Places one piece of food on a random empty cell and reports where it
    /// went; reports `None`, changing nothing, exactly when the grid is full.
    pub fn add_food(&mut self) -> (r: Option<(usize, usize)>)
        requires
            old(self)@.wf(),
        ensures
            final(self)@.wf(),
            match r {
                Some(cell) => in_grid(old(self)@.grid, cell.0 as int, cell.1 as int)
                    && old(self)@.grid[cell.0 as int][cell.1 as int] == Field::Empty
                    && final(self)@ == old(self)@.with_cell(cell.0, cell.1, Field::Food),
                None => final(self)@ == old(self)@ && forall|rr: int, cc: int|
                    in_grid(old(self)@.grid, rr, cc) ==> #[trigger] old(self)@.grid[rr][cc]
                        != Field::Empty,
            },
    {
        match self.empty_field() {
            Some((row, col)) => {
                proof {
                    lemma_place_food_wf(self@, row, col);
                }
                self.state_set(row, col, Field::Food);
                Some((row, col))
            }
            None => None,
        }
    }
}

} // verus!
