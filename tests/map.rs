use grid_sight::map::{
    populate_room, DungeonMap, Rect, Spawn, ITEM_Z, MAP_HEIGHT, MAP_WIDTH, MONSTER_Z,
};

#[test]
fn rects() {
    let r = Rect::new(2, 3, 6, 4);
    assert_eq!((r.x1, r.y1, r.x2, r.y2), (2, 3, 8, 7));
    assert_eq!(r.center(), (5, 5));
    assert!(r.intersect(&Rect::new(8, 7, 2, 2)));
    assert!(!r.intersect(&Rect::new(9, 0, 2, 2)));
    for _ in 0..50 {
        let (x, y) = r.rand_position();
        assert!(2 < x && x < 8 && 3 < y && y < 7);
    }
}

#[test]
fn dungeon_rooms_keep_apart() {
    for _ in 0..20 {
        let m = DungeonMap::new_dungeon();
        assert_eq!(m.tile_count(), MAP_WIDTH * MAP_HEIGHT);
        let rooms = m.room_list();
        assert!(!rooms.is_empty());
        for (i, a) in rooms.iter().enumerate() {
            assert!(a.x2 < MAP_WIDTH && a.y2 < MAP_HEIGHT);
            for b in rooms.iter().skip(i + 1) {
                assert!(!a.intersect(b));
            }
            let (cx, cy) = a.center();
            assert!(m.floor_tile(m.xy_idx(cx, cy)));
            assert!(!m.floor_tile(m.xy_idx(a.x1, a.y1)) || m.adjacent_to_floor(a.x1, a.y1));
        }
    }
}

#[test]
fn indices_and_coordinates() {
    let m = DungeonMap::new_dungeon();
    assert_eq!(m.xy_idx(3, 2), 163);
    assert_eq!(m.idx_xy(163), (3, 2));
    assert_eq!(m.idx_xy(0), (0, 0));
    assert_eq!(m.idx_xy(79), (79, 0));
}

#[test]
fn rooms_and_tunnels_carve_floor() {
    let mut m = DungeonMap::new_dungeon();
    let far = m.xy_idx(0, 49);
    let before = m.floor_tile(far);
    m.apply_room_to_map(&Rect::new(10, 10, 3, 3));
    assert!(m.floor_tile(m.xy_idx(11, 11)));
    assert!(m.floor_tile(m.xy_idx(13, 13)));
    assert_eq!(m.floor_tile(far), before);
    m.apply_horizontal_tunnel(30, 20, 1);
    assert!(m.floor_tile(m.xy_idx(20, 1)) && m.floor_tile(m.xy_idx(30, 1)));
    m.apply_vertical_tunnel(40, 45, 77);
    assert!(m.floor_tile(m.xy_idx(77, 42)));
    assert!(m.adjacent_to_floor(78, 42));
    assert!(m.adjacent_to_floor(76, 46));
}

#[test]
fn rooms_are_populated_inside() {
    let room = Rect::new(10, 10, 6, 6);
    for _ in 0..50 {
        let plan = populate_room(&room, 4, 2);
        let monsters: Vec<(i32, i32)> = plan
            .iter()
            .filter_map(|s| match s {
                Spawn::Monster(p) => {
                    assert_eq!(p.z, MONSTER_Z);
                    Some((p.x, p.y))
                }
                Spawn::Item(_) => None,
            })
            .collect();
        let items: Vec<(i32, i32)> = plan
            .iter()
            .filter_map(|s| match s {
                Spawn::Item(p) => {
                    assert_eq!(p.z, ITEM_Z);
                    Some((p.x, p.y))
                }
                Spawn::Monster(_) => None,
            })
            .collect();
        assert!(monsters.len() <= 4 && items.len() <= 2);
        for list in [&monsters, &items] {
            for (i, a) in list.iter().enumerate() {
                assert!(10 < a.0 && a.0 < 16 && 10 < a.1 && a.1 < 16);
                assert!(list.iter().skip(i + 1).all(|b| b != a));
            }
        }
    }
}
