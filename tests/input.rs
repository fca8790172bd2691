use grid_sight::cell_set::PositionSet;
use grid_sight::components::{GameState, MovementRequest};
use grid_sight::input::{player_input, process_movement, Keys, PlayerAction};
use grid_sight::position::Position;

fn keys() -> Keys {
    Keys::default()
}

#[test]
fn moving_right_faces_right() {
    let t = player_input(
        Keys { right: true, ..keys() },
        Position::new(0, 0, 20),
        &vec![],
        &PositionSet::new(),
    );
    assert_eq!(t.face_right, Some(true));
    assert_eq!(t.action, PlayerAction::Move(MovementRequest { x: 1, y: 0 }));
}

#[test]
fn diagonal_keys_add_up() {
    let t = player_input(
        Keys { up_left: true, up: true, ..keys() },
        Position::new(0, 0, 0),
        &vec![],
        &PositionSet::new(),
    );
    assert_eq!(t.face_right, Some(false));
    assert_eq!(t.action, PlayerAction::Move(MovementRequest { x: -1, y: 2 }));
}

#[test]
fn opposite_keys_cancel() {
    let t = player_input(
        Keys { left: true, right: true, ..keys() },
        Position::new(0, 0, 0),
        &vec![],
        &PositionSet::new(),
    );
    assert_eq!(t.face_right, Some(false));
    assert_eq!(t.action, PlayerAction::Wait);
}

#[test]
fn skip_gives_up_the_turn() {
    let t = player_input(
        Keys { skip: true, down: true, ..keys() },
        Position::new(0, 0, 0),
        &vec![],
        &PositionSet::new(),
    );
    assert_eq!(t.action, PlayerAction::Skip);
    assert_eq!(t.face_right, None);
}

#[test]
fn a_monster_in_the_way_is_attacked() {
    let monsters = vec![Position::new(5, 5, 10), Position::new(1, -1, 10), Position::new(1, -1, 3)];
    let t = player_input(
        Keys { down_right: true, ..keys() },
        Position::new(0, 0, 0),
        &monsters,
        &PositionSet::new(),
    );
    assert_eq!(t.action, PlayerAction::Attack(1));
}

#[test]
fn a_wall_stops_the_move() {
    let mut walls = PositionSet::new();
    walls.insert(Position::new(0, -1, 1));
    let t = player_input(Keys { down: true, ..keys() }, Position::new(0, 0, 0), &vec![], &walls);
    assert_eq!(t.action, PlayerAction::Wait);
}

#[test]
fn movement_keeps_the_layer() {
    let p = process_movement(Position::new(3, 4, 20), MovementRequest::left());
    assert_eq!((p.x, p.y, p.z), (2, 4, 20));
}

#[test]
fn play_starts_with_the_player() {
    assert_eq!(GameState::default(), GameState::PlayerTurn);
}
