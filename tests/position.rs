use grid_sight::components::MovementRequest;
use grid_sight::position::{euclidean_distance, isqrt, Position};

#[test]
fn test() {
    assert_eq!(
        Position { x: 1, y: 1, z: 55 },
        Position { x: 1, y: 1, z: 33 }
    )
}

#[test]
fn positions_differ_by_cell() {
    assert_ne!(Position::new(1, 2, 0), Position::new(2, 1, 0));
}

#[test]
fn integer_square_roots() {
    assert_eq!(isqrt(0), 0);
    assert_eq!(isqrt(1), 1);
    assert_eq!(isqrt(24), 4);
    assert_eq!(isqrt(25), 5);
    assert_eq!(isqrt(26), 5);
    assert_eq!(isqrt(u64::MAX), 4294967295);
}

#[test]
fn euclidean_distance_rounds_down() {
    assert_eq!(euclidean_distance(0, 0, 3, 4), 5);
    assert_eq!(euclidean_distance(0, 0, 1, 1), 1);
    assert_eq!(euclidean_distance(2, 2, 0, 0), 2);
    assert_eq!(euclidean_distance(10, -3, 0, 0), 10);
    assert_eq!(Position::new(0, 0, 7).distance(Position::new(-6, 8, 1)), 10);
}

#[test]
fn euclidean_distance_saturates() {
    assert_eq!(euclidean_distance(i32::MAX, i32::MAX, 0, 0), i32::MAX);
}

#[test]
fn successors_in_order() {
    let p = Position::new(3, -2, 9);
    let s = p.possible_successors();
    let cells: Vec<(i32, i32, i32)> = s.iter().map(|q| (q.x, q.y, q.z)).collect();
    assert_eq!(
        cells,
        vec![
            (3, -1, 9),
            (4, -1, 9),
            (4, -2, 9),
            (4, -3, 9),
            (3, -3, 9),
            (2, -3, 9),
            (2, -2, 9),
            (2, -1, 9)
        ]
    );
}

#[test]
fn next_to_is_king_adjacency() {
    let p = Position::new(0, 0, 0);
    assert!(p.next_to(&Position::new(1, 1, 5)));
    assert!(p.next_to(&Position::new(-1, 0, 0)));
    assert!(!p.next_to(&Position::new(0, 0, 3)));
    assert!(!p.next_to(&Position::new(2, 1, 0)));
    assert!(!p.next_to(&Position::new(i32::MIN, 0, 0)));
}

#[test]
fn movement_requests() {
    assert_eq!(MovementRequest::up(), MovementRequest { x: 0, y: 1 });
    assert_eq!(MovementRequest::right(), MovementRequest { x: 1, y: 0 });
    assert_eq!(MovementRequest::down(), MovementRequest { x: 0, y: -1 });
    assert_eq!(MovementRequest::left(), MovementRequest { x: -1, y: 0 });
}
