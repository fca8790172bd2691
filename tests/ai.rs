use grid_sight::ai::{
    chase_player, curse_at_player_action_system, meelee_attack_player_action,
    player_in_meelee_range_scorer, player_visible_scorer_system, ring_around, ActionState,
    IN_ATTACK_RANGE_SCORE, PLAYER_VISIBLE_SCORE,
};
use grid_sight::cell_set::PositionSet;
use grid_sight::components::Viewshed;
use grid_sight::position::Position;

fn set(list: &[(i32, i32)]) -> PositionSet {
    let mut s = PositionSet::new();
    for &(x, y) in list {
        s.insert(Position::new(x, y, 0));
    }
    s
}

#[test]
fn visible_player_scores() {
    let mut v = Viewshed::new(3);
    v.set_visible_tiles(set(&[(1, 1), (2, 2)]));
    assert_eq!(player_visible_scorer_system(Some(&v), &Position::new(2, 2, 9)), 60);
    assert_eq!(PLAYER_VISIBLE_SCORE, 60);
    assert_eq!(player_visible_scorer_system(Some(&v), &Position::new(3, 3, 0)), 0);
    assert_eq!(player_visible_scorer_system(None, &Position::new(2, 2, 0)), 0);
}

#[test]
fn adjacent_player_scores() {
    let p = Position::new(5, 5, 0);
    assert_eq!(player_in_meelee_range_scorer(Some(Position::new(4, 6, 0)), &p), 100);
    assert_eq!(IN_ATTACK_RANGE_SCORE, 100);
    assert_eq!(player_in_meelee_range_scorer(Some(Position::new(5, 7, 0)), &p), 0);
    assert_eq!(player_in_meelee_range_scorer(Some(Position::new(5, 5, 0)), &p), 0);
    assert_eq!(player_in_meelee_range_scorer(None, &p), 0);
}

#[test]
fn cursing_succeeds_on_request() {
    assert_eq!(curse_at_player_action_system(ActionState::Requested), (ActionState::Success, true));
    assert_eq!(curse_at_player_action_system(ActionState::Init), (ActionState::Init, false));
    assert_eq!(curse_at_player_action_system(ActionState::Executing), (ActionState::Success, false));
    assert_eq!(curse_at_player_action_system(ActionState::Failure), (ActionState::Success, false));
}

#[test]
fn melee_attack_asks_for_an_attack() {
    assert_eq!(meelee_attack_player_action(ActionState::Requested, true), (ActionState::Success, true));
    assert_eq!(meelee_attack_player_action(ActionState::Requested, false), (ActionState::Failure, false));
    assert_eq!(meelee_attack_player_action(ActionState::Cancelled, true), (ActionState::Success, false));
    assert_eq!(meelee_attack_player_action(ActionState::Init, true), (ActionState::Init, false));
}

#[test]
fn chase_takes_the_first_step() {
    let player = Position::new(5, 0, 20);
    let (state, step) = chase_player(
        ActionState::Requested,
        Some(Position::new(0, 0, 10)),
        player,
        &set(&[(2, 0), (2, 1)]),
        &PositionSet::new(),
    );
    assert_eq!(state, ActionState::Success);
    let step = step.unwrap();
    assert_eq!(step.z, 10);
    assert!((step.x - 0).abs() <= 1 && (step.y - 0).abs() <= 1 && (step.x, step.y) != (0, 0));
    assert!(!(step.x == 2));
}

#[test]
fn chase_avoids_occupied_cells() {
    let (state, step) = chase_player(
        ActionState::Requested,
        Some(Position::new(0, 0, 0)),
        Position::new(2, 2, 0),
        &PositionSet::new(),
        &set(&[(1, 0), (0, 1)]),
    );
    assert_eq!(state, ActionState::Success);
    let step = step.unwrap();
    assert_eq!((step.x, step.y), (1, 1));
}

#[test]
fn chase_next_to_the_player_stays() {
    let (state, step) = chase_player(
        ActionState::Requested,
        Some(Position::new(4, 0, 0)),
        Position::new(5, 0, 0),
        &PositionSet::new(),
        &PositionSet::new(),
    );
    assert_eq!(state, ActionState::Success);
    assert!(step.is_none());
}

#[test]
fn chase_without_a_route_waits() {
    let walls = set(&[(-1, -1), (0, -1), (1, -1), (-1, 0), (1, 0), (-1, 1), (0, 1), (1, 1)]);
    let (state, step) = chase_player(
        ActionState::Requested,
        Some(Position::new(0, 0, 0)),
        Position::new(8, 8, 0),
        &walls,
        &PositionSet::new(),
    );
    assert_eq!(state, ActionState::Success);
    assert!(step.is_none());
}

#[test]
fn chase_states() {
    let p = Position::new(3, 3, 0);
    let none = PositionSet::new();
    assert_eq!(chase_player(ActionState::Requested, None, p, &none, &none), (ActionState::Failure, None));
    assert_eq!(chase_player(ActionState::Init, Some(p), p, &none, &none), (ActionState::Init, None));
    assert_eq!(chase_player(ActionState::Executing, Some(p), p, &none, &none), (ActionState::Success, None));
}

#[test]
fn ring_has_eight_cells() {
    let r = ring_around(Position::new(0, 0, 0));
    assert_eq!(r.len(), 8);
    assert!(!r.contains(&Position::new(0, 0, 0)));
    assert!(r.contains(&Position::new(-1, 1, 0)));
}
