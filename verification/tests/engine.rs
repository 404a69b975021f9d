use xenopeltis::game::{Game, JoinError};
use xenopeltis::grid::State;
use xenopeltis::model::{Coordinate, Direction, Field};
use xenopeltis::protocol::{
    ClientMessage, DirectionMessage, FieldChangeMessage, PlayerState, ServerMessage,
};
use tokio::sync::broadcast::Receiver;

fn count_food(game: &Game) -> usize {
    let mut n = 0;
    for r in 0..game.rows() {
        for c in 0..game.cols() {
            if game.field_at(r, c) == Some(Field::Food) {
                n += 1;
            }
        }
    }
    n
}

fn grid_cells(game: &Game) -> Vec<Vec<Field>> {
    let mut rows = Vec::new();
    for r in 0..game.rows() {
        let mut row = Vec::new();
        for c in 0..game.cols() {
            row.push(game.field_at(r, c).unwrap());
        }
        rows.push(row);
    }
    rows
}

fn drain_changes(rx: &mut Receiver<ServerMessage>) -> Vec<FieldChangeMessage> {
    let mut changes = Vec::new();
    while let Ok(msg) = rx.try_recv() {
        if let ServerMessage::FieldChange(change) = msg {
            changes.push(change);
        }
    }
    changes
}

#[test]
fn new_game_has_wall_ring_and_empty_inside() {
    let game = Game::new(3, 3);
    assert_eq!(game.rows(), 3);
    assert_eq!(game.cols(), 3);
    assert_eq!(game.player_count(), 0);
    for r in 0..3 {
        for c in 0..3 {
            let expected = if r == 0 || r == 2 || c == 0 || c == 2 {
                Field::Wall
            } else {
                Field::Empty
            };
            assert_eq!(game.field_at(r, c), Some(expected));
        }
    }
    assert_eq!(game.field_at(3, 0), None);
    assert_eq!(game.field_at(0, 3), None);
}

#[test]
fn initial_messages_send_status_then_every_nonempty_cell() {
    let game = Game::new(3, 3);
    let messages = game.messages_initial();
    assert_eq!(messages.len(), 9);
    assert!(matches!(
        messages[0],
        ServerMessage::PlayerState(state) if state.state == PlayerState::Playing
    ));
    let mut wall_coords = Vec::new();
    for msg in &messages[1..] {
        match msg {
            ServerMessage::FieldChange(change) => {
                assert_eq!(change.field, Field::Wall);
                wall_coords.push((change.coordinate.row, change.coordinate.col));
            }
            other => panic!("unexpected message {:?}", other),
        }
    }
    let mut expected = Vec::new();
    for r in 0..3usize {
        for c in 0..3usize {
            if r == 0 || r == 2 || c == 0 || c == 2 {
                expected.push((r, c));
            }
        }
    }
    assert_eq!(wall_coords, expected);
}

#[test]
fn join_places_one_cell_snake_and_full_grid_is_rejected() {
    let mut game = Game::new(3, 3);
    let (id, _rx) = game.player_add().expect("one empty cell is left");
    assert_eq!(id, 0);
    assert_eq!(game.player_count(), 1);
    let body = game.player_body(id).expect("player is registered");
    assert_eq!(body, vec![(1, 1)]);
    assert!(matches!(game.field_at(1, 1), Some(Field::Snake(_))));
    match game.player_add() {
        Err(JoinError::GridFull) => {}
        other => panic!("expected a full grid, got {:?}", other.map(|p| p.0)),
    }
}

#[test]
fn join_on_grid_without_interior_is_rejected() {
    let mut game = Game::new(2, 2);
    match game.player_add() {
        Err(JoinError::GridFull) => {}
        other => panic!("expected a full grid, got {:?}", other.map(|p| p.0)),
    }
}

#[test]
fn movement_into_empty_cell() {
    // A lone snake on an otherwise empty field: pick a sideways direction
    // whose target is certainly inside, then tick once.
    let mut game = Game::new(8, 8);
    let (id, mut rx) = game.player_add().expect("grid is empty");
    let body = game.player_body(id).expect("player is registered");
    let (r, c) = body[0];
    let (dir, target) = if c + 2 <= game.cols() - 2 {
        (Direction::Right, (r, c + 1))
    } else {
        (Direction::Left, (r, c - 1))
    };
    game.player_direction(id, dir);
    game.tick();
    assert_eq!(game.player_body(id).unwrap(), vec![target]);
    assert_eq!(game.field_at(r, c), Some(Field::Empty));
    assert!(matches!(game.field_at(target.0, target.1), Some(Field::Snake(_))));
    let changes = drain_changes(&mut rx);
    assert_eq!(changes.len(), 2);
    assert_eq!(changes[0].coordinate, Coordinate::new(target.0, target.1));
    assert!(matches!(changes[0].field, Field::Snake(_)));
    assert_eq!(changes[1].coordinate, Coordinate::new(r, c));
    assert_eq!(changes[1].field, Field::Empty);
}

#[test]
fn food_growth_keeps_food_count_and_spawns_on_empty() {
    // A 2x2 interior: one snake and one food. Placement is random, so retry
    // until the food lands next to the snake, then eat it.
    for _ in 0..500 {
        let mut game = Game::new(4, 4);
        let (id, mut rx) = game.player_add().expect("grid is empty");
        let body = game.player_body(id).expect("player is registered");
        let (r, c) = body[0];
        game.add_food().expect("three empty cells are left");
        let food = {
            let mut found = None;
            for fr in 1..3 {
                for fc in 1..3 {
                    if game.field_at(fr, fc) == Some(Field::Food) {
                        found = Some((fr, fc));
                    }
                }
            }
            found.expect("one food was placed")
        };
        let dir = if food == (r, c + 1) {
            Direction::Right
        } else if c >= 1 && food == (r, c - 1) {
            Direction::Left
        } else if food == (r + 1, c) {
            Direction::Down
        } else if r >= 1 && food == (r - 1, c) {
            Direction::Up
        } else {
            continue; // food landed diagonally; try a fresh game
        };
        assert_eq!(count_food(&game), 1);
        // the subscription saw the food placement itself; only the tick's
        // events matter below
        let placement = drain_changes(&mut rx);
        assert_eq!(placement.len(), 1);
        assert_eq!(placement[0].field, Field::Food);
        game.player_direction(id, dir);
        game.tick();
        // the snake grew: tail kept, head on the old food cell
        assert_eq!(game.player_body(id).unwrap(), vec![(r, c), food]);
        assert!(matches!(game.field_at(food.0, food.1), Some(Field::Snake(_))));
        // exactly one replacement food stands on a previously empty cell
        assert_eq!(count_food(&game), 1);
        let changes = drain_changes(&mut rx);
        assert_eq!(changes.len(), 2);
        assert_eq!(changes[0].coordinate, Coordinate::new(food.0, food.1));
        assert!(matches!(changes[0].field, Field::Snake(_)));
        assert_eq!(changes[1].field, Field::Food);
        let spawn = changes[1].coordinate;
        assert_ne!((spawn.row, spawn.col), (r, c));
        assert_ne!((spawn.row, spawn.col), food);
        return;
    }
    panic!("food never landed next to the snake");
}

#[test]
fn collision_with_wall_removes_player_and_vacates_body() {
    let mut game = Game::new(3, 3);
    let (id, mut rx) = game.player_add().expect("grid is empty");
    assert_eq!(game.player_body(id).unwrap(), vec![(1, 1)]);
    game.player_direction(id, Direction::Right); // (1, 2) is the wall ring
    game.tick();
    assert_eq!(game.player_count(), 0);
    assert!(game.player_body(id).is_none());
    // the vacated cell turned into food
    assert_eq!(game.field_at(1, 1), Some(Field::Food));
    let changes = drain_changes(&mut rx);
    assert_eq!(changes, vec![FieldChangeMessage {
        coordinate: Coordinate::new(1, 1),
        field: Field::Food,
    }]);
    // later ticks no longer touch the removed player
    game.tick();
    assert!(game.player_body(id).is_none());
    assert_eq!(game.field_at(1, 1), Some(Field::Food));
}

#[test]
fn collision_with_another_snake_removes_the_mover() {
    // A 1x2 interior: the two snakes fill it, the first drives into the
    // second.
    let mut game = Game::new(3, 4);
    let (first, _rx1) = game.player_add().expect("two empty cells are left");
    let (second, _rx2) = game.player_add().expect("one empty cell is left");
    let (r, c) = game.player_body(first).unwrap()[0];
    let (r2, c2) = game.player_body(second).unwrap()[0];
    assert_eq!(r, r2);
    let dir = if c2 == c + 1 { Direction::Right } else { Direction::Left };
    game.player_direction(first, dir);
    // the second would otherwise drive into the wall on its own turn: aim it
    // at the first's cell, which that player's removal will have vacated
    game.player_direction(second, dir.opposite());
    game.tick();
    // the first died against the second's body and was removed at once; its
    // vacated cell turned into food, which the second then ate on its own
    // turn of the same tick
    assert!(game.player_body(first).is_none());
    assert_eq!(game.player_count(), 1);
    assert_eq!(game.player_body(second).unwrap(), vec![(r2, c2), (r, c)]);
    assert!(matches!(game.field_at(r, c), Some(Field::Snake(_))));
    assert!(matches!(game.field_at(r2, c2), Some(Field::Snake(_))));
}

#[test]
fn leave_is_idempotent() {
    let mut game = Game::new(6, 6);
    let (id, _rx) = game.player_add().expect("grid is empty");
    game.player_remove(id);
    assert_eq!(game.player_count(), 0);
    let after_first = grid_cells(&game);
    game.player_remove(id);
    assert_eq!(game.player_count(), 0);
    assert_eq!(grid_cells(&game), after_first);
}

#[test]
fn last_direction_sent_before_the_tick_wins() {
    // Retry until the snake spawns with both the up and the left neighbor
    // inside the field, then send Left followed by Up: only Up may happen.
    for _ in 0..500 {
        let mut game = Game::new(10, 10);
        let (id, _rx) = game.player_add().expect("grid is empty");
        let (r, c) = game.player_body(id).unwrap()[0];
        if r < 2 || c < 2 {
            continue;
        }
        game.handle(id, &ClientMessage::Direction(DirectionMessage {
            direction: Direction::Left,
        }));
        game.handle(id, &ClientMessage::Direction(DirectionMessage {
            direction: Direction::Up,
        }));
        game.tick();
        assert_eq!(game.player_body(id).unwrap(), vec![(r - 1, c)]);
        assert_eq!(game.field_at(r, c - 1), Some(Field::Empty));
        return;
    }
    panic!("snake never spawned away from the border");
}

#[test]
fn restart_and_quit_messages_change_nothing() {
    let mut game = Game::new(6, 6);
    let (id, _rx) = game.player_add().expect("grid is empty");
    let before = grid_cells(&game);
    game.handle(id, &ClientMessage::Restart);
    game.handle(id, &ClientMessage::Quit);
    assert_eq!(grid_cells(&game), before);
    assert_eq!(game.player_count(), 1);
}

#[test]
fn snapshot_plus_stream_mirrors_the_field() {
    // Bootstrap a mirror from the join snapshot, then apply every streamed
    // event across several ticks; the mirror must match the true field.
    let mut game = Game::new(8, 8);
    let (_id, mut rx) = game.player_add().expect("grid is empty");
    let mut mirror: State<Field> = State::new(Field::Empty, 8, 8);
    for msg in game.messages_initial() {
        if let ServerMessage::FieldChange(change) = msg {
            mirror.set(change.coordinate.row, change.coordinate.col, change.field);
        }
    }
    for _ in 0..6 {
        game.tick();
    }
    for change in drain_changes(&mut rx) {
        mirror.set(change.coordinate.row, change.coordinate.col, change.field);
    }
    for r in 0..8 {
        for c in 0..8 {
            assert_eq!(mirror.get(r, c), game.field_at(r, c).as_ref());
        }
    }
}

#[test]
fn two_snakes_never_overlap() {
    let mut game = Game::new(12, 12);
    let (a, _rxa) = game.player_add().expect("grid is empty");
    let (b, _rxb) = game.player_add().expect("grid is nearly empty");
    for _ in 0..4 {
        game.tick();
        let mut seen = Vec::new();
        for id in [a, b] {
            if let Some(body) = game.player_body(id) {
                for cell in body {
                    assert!(!seen.contains(&cell), "two bodies share {:?}", cell);
                    seen.push(cell);
                }
            }
        }
    }
}
