use grid_sight::ai::ring_around;
use grid_sight::cell_set::PositionSet;
use grid_sight::path::{find_path, step_options};
use grid_sight::position::Position;

fn set(list: &[(i32, i32)]) -> PositionSet {
    let mut s = PositionSet::new();
    for &(x, y) in list {
        s.insert(Position::new(x, y, 0));
    }
    s
}

fn check_steps(path: &[Position]) {
    for w in path.windows(2) {
        let dx = (w[0].x - w[1].x).abs();
        let dy = (w[0].y - w[1].y).abs();
        assert_eq!(dx.max(dy), 1);
    }
}

#[test]
fn detour_around_a_wall() {
    let blockers = set(&[(2, 0), (2, 1)]);
    let goal = set(&[(5, 0)]);
    let path = find_path(Position::new(0, 0, 3), &blockers, &PositionSet::new(), &goal).unwrap();
    assert_eq!((path[0].x, path[0].y), (0, 0));
    assert_eq!((path.last().unwrap().x, path.last().unwrap().y), (5, 0));
    assert!(path.len() >= 6);
    assert!(path.iter().all(|p| !(p.x == 2 && (p.y == 0 || p.y == 1))));
    assert!(path.iter().all(|p| p.z == 3));
    check_steps(&path);
}

#[test]
fn detour_to_the_ring_of_a_target() {
    let blockers = set(&[(2, 0), (2, 1)]);
    let ring = ring_around(Position::new(5, 0, 0));
    let path = find_path(Position::new(0, 0, 0), &blockers, &PositionSet::new(), &ring).unwrap();
    assert_eq!(path.len(), 5);
    assert!(path.iter().all(|p| !(p.x == 2 && (p.y == 0 || p.y == 1))));
    assert!(ring.contains(path.last().unwrap()));
    check_steps(&path);
}

#[test]
fn occupants_are_passed_by_the_diagonal() {
    let occupants = set(&[(1, 0), (0, 1)]);
    let ring = ring_around(Position::new(2, 2, 0));
    assert!(ring.contains(&Position::new(1, 1, 0)));
    let path = find_path(Position::new(0, 0, 0), &PositionSet::new(), &occupants, &ring).unwrap();
    let cells: Vec<(i32, i32)> = path.iter().map(|p| (p.x, p.y)).collect();
    assert_eq!(cells, vec![(0, 0), (1, 1)]);
}

#[test]
fn occupied_goal_cell_may_be_entered() {
    let occupants = set(&[(1, 0)]);
    let goal = set(&[(1, 0)]);
    let path = find_path(Position::new(0, 0, 0), &occupants, &occupants, &goal).unwrap();
    let cells: Vec<(i32, i32)> = path.iter().map(|p| (p.x, p.y)).collect();
    assert_eq!(cells, vec![(0, 0), (1, 0)]);
}

#[test]
fn open_grid_route_is_one_longer_than_the_king_distance() {
    let ring = ring_around(Position::new(5, 3, 0));
    let path = find_path(Position::new(0, 0, 0), &PositionSet::new(), &PositionSet::new(), &ring).unwrap();
    assert_eq!(path.len(), 5);
    check_steps(&path);
    let ring = ring_around(Position::new(-7, 2, 0));
    let path = find_path(Position::new(0, 0, 0), &PositionSet::new(), &PositionSet::new(), &ring).unwrap();
    assert_eq!(path.len(), 7);
}

#[test]
fn walled_in_start_has_no_route() {
    let blockers = set(&[(-1, -1), (0, -1), (1, -1), (-1, 0), (1, 0), (-1, 1), (0, 1), (1, 1)]);
    let ring = ring_around(Position::new(6, 6, 0));
    assert!(find_path(Position::new(0, 0, 0), &blockers, &PositionSet::new(), &ring).is_none());
}

#[test]
fn start_on_a_goal_is_a_route_of_one() {
    let ring = ring_around(Position::new(1, 1, 0));
    let path = find_path(Position::new(0, 0, 0), &PositionSet::new(), &PositionSet::new(), &ring).unwrap();
    assert_eq!(path.len(), 1);
}

#[test]
fn step_options_skip_blocked_cells() {
    let blockers = set(&[(1, 0)]);
    let occupants = set(&[(0, 1), (1, 1)]);
    let goal = set(&[(1, 1)]);
    let mut steps: Vec<(i32, i32)> = step_options((0, 0), &blockers, &occupants, &goal)
        .iter()
        .map(|&(p, c)| {
            assert_eq!(c, 1);
            p
        })
        .collect();
    steps.sort();
    assert_eq!(steps, vec![(-1, -1), (-1, 0), (-1, 1), (0, -1), (1, -1), (1, 1)]);
    let edge = step_options((i32::MAX, 0), &PositionSet::new(), &PositionSet::new(), &PositionSet::new());
    assert_eq!(edge.len(), 5);
}
