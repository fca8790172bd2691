use grid_sight::cell_set::PositionSet;
use grid_sight::components::{compute_fov, Viewshed};
use grid_sight::fov::{field_of_view, whole_distance, MyVisibility};
use grid_sight::position::Position;

fn cells(s: &PositionSet) -> Vec<(i32, i32)> {
    let mut v: Vec<(i32, i32)> = s.to_vec().iter().map(|p| (p.x, p.y)).collect();
    v.sort();
    v
}

fn walls(list: &[(i32, i32)]) -> PositionSet {
    let mut s = PositionSet::new();
    for &(x, y) in list {
        s.insert(Position::new(x, y, 1));
    }
    s
}

fn disc(ox: i32, oy: i32, range: i64) -> Vec<(i32, i32)> {
    let mut v = Vec::new();
    for dx in -range..=range {
        for dy in -range..=range {
            let d = ((dx * dx + dy * dy) as f64).sqrt() as i64;
            if d <= range {
                v.push((ox + dx as i32, oy + dy as i32));
            }
        }
    }
    v.sort();
    v
}

#[test]
fn bounded_open_grid_shows_every_cell() {
    let vis = MyVisibility::new(
        |x: i32, y: i32| x < 0 || y < 0 || x > 4 || y > 4,
        |x: i32, y: i32| whole_distance(x, y),
    );
    let seen = vis.compute(Position::new(2, 2, 0), 10);
    let inside: Vec<(i32, i32)> = cells(&seen)
        .into_iter()
        .filter(|&(x, y)| (0..=4).contains(&x) && (0..=4).contains(&y))
        .collect();
    assert_eq!(inside.len(), 25);
}

#[test]
fn open_field_sees_the_whole_disc() {
    for range in 0..6 {
        let seen = field_of_view(&PositionSet::new(), Position::new(-3, 7, 0), range);
        assert_eq!(cells(&seen), disc(-3, 7, range as i64));
    }
}

#[test]
fn range_zero_sees_only_the_origin() {
    let seen = field_of_view(&walls(&[(1, 0)]), Position::new(0, 0, 4), 0);
    assert_eq!(cells(&seen), vec![(0, 0)]);
    assert_eq!(seen.len(), 1);
}

#[test]
fn origin_sees_itself_inside_walls() {
    let w = walls(&[(-1, -1), (0, -1), (1, -1), (-1, 0), (1, 0), (-1, 1), (0, 1), (1, 1)]);
    let seen = field_of_view(&w, Position::new(0, 0, 0), 5);
    assert!(seen.contains(&Position::new(0, 0, 0)));
    assert_eq!(seen.len(), 9);
    assert!(!seen.contains(&Position::new(2, 0, 0)));
}

#[test]
fn wall_above_hides_the_column_behind_it() {
    let seen = field_of_view(&walls(&[(2, 3)]), Position::new(2, 2, 0), 5);
    assert!(seen.contains(&Position::new(2, 3, 0)));
    assert!(!seen.contains(&Position::new(2, 4, 0)));
    assert!(!seen.contains(&Position::new(2, 5, 0)));
    assert!(!seen.contains(&Position::new(2, 6, 0)));
    assert!(seen.contains(&Position::new(3, 4, 0)));
    assert!(seen.contains(&Position::new(2, 1, 0)));
}

#[test]
fn an_added_wall_can_itself_come_into_view() {
    let before = walls(&[(-3, -1), (2, -1), (2, 2), (4, 3)]);
    let after = walls(&[(-3, -1), (2, -1), (2, 2), (4, 3), (-4, -1)]);
    let a = field_of_view(&before, Position::new(0, 0, 0), 4);
    let b = field_of_view(&after, Position::new(0, 0, 0), 4);
    assert!(!a.contains(&Position::new(-4, -1, 0)));
    assert!(b.contains(&Position::new(-4, -1, 0)));
}

#[test]
fn adding_a_wall_hides_what_lies_behind_it() {
    let a = field_of_view(&PositionSet::new(), Position::new(0, 0, 0), 6);
    let b = field_of_view(&walls(&[(3, 0)]), Position::new(0, 0, 0), 6);
    assert!(a.contains(&Position::new(5, 0, 0)));
    assert!(!b.contains(&Position::new(5, 0, 0)));
    assert!(b.len() < a.len());
}

#[test]
fn viewshed_is_recomputed_whole() {
    let mut v = Viewshed::new(4);
    assert_eq!(v.visible_range(), 4);
    assert!(!v.contains(&Position::new(0, 0, 0)));
    compute_fov(&mut v, Position::new(0, 0, 0), &PositionSet::new());
    assert!(v.contains(&Position::new(4, 0, 0)));
    assert!(!v.contains(&Position::new(5, 0, 0)));
    compute_fov(&mut v, Position::new(10, 0, 0), &PositionSet::new());
    assert!(!v.contains(&Position::new(0, 0, 0)));
    assert!(v.contains(&Position::new(10, 0, 0)));
    assert_eq!(v.visible_tiles.len(), disc(10, 0, 4).len());
}

#[test]
fn set_visible_tiles_replaces_the_set() {
    let mut v = Viewshed::new(2);
    v.set_visible_tiles(walls(&[(1, 1)]));
    assert!(v.contains(&Position::new(1, 1, 8)));
    assert_eq!(v.visible_range(), 2);
}

#[test]
fn position_set_ignores_layer() {
    let mut s = PositionSet::new();
    s.insert(Position::new(1, 2, 0));
    s.insert(Position::new(1, 2, 5));
    assert_eq!(s.len(), 1);
    assert!(s.contains_xy(1, 2));
    assert!(!s.contains_xy(2, 1));
}

#[test]
fn position_set_clones_its_cells() {
    let s = walls(&[(1, 2), (3, 4)]);
    let t = s.clone();
    assert_eq!(cells(&t), vec![(1, 2), (3, 4)]);
    assert_eq!(t.len(), 2);
}
