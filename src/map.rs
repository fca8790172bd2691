//! Dungeon layout: rectangular rooms joined by corridors, carved into a grid
//! of walls.

use vstd::prelude::*;

use rand::Rng;

use crate::position::{cell_of, Position};

verus! {

pub const MAP_WIDTH: usize = 80;

pub const MAP_HEIGHT: usize = 50;

pub const MAX_ROOMS: usize = 30;

pub const MIN_SIZE: usize = 6;

pub const MAX_SIZE: usize = 10;

/// Relies on rand::thread_rng and rand::Rng::gen_range: a value drawn from
/// `lo..hi`, which gen_range asserts is not empty.
#[verifier::external_body]
fn draw(lo: usize, hi: usize) -> (r: usize)
    requires
        lo < hi,
    ensures
        lo <= r < hi,
{
    rand::thread_rng().gen_range(lo..hi)
}

#[derive(Debug, Clone, Copy, PartialEq, Eq, Structural)]
pub enum TileType {
    Wall,
    Floor,
}

/// A rectangle from corner `(x1, y1)` to corner `(x2, y2)`.
#[derive(Debug, Clone, Copy, PartialEq, Eq, Structural)]
pub struct Rect {
    pub x1: usize,
    pub x2: usize,
    pub y1: usize,
    pub y2: usize,
}

/// Two rectangles overlap or touch.
pub open spec fn overlaps(a: Rect, b: Rect) -> bool {
    a.x1 <= b.x2 && a.x2 >= b.x1 && a.y1 <= b.y2 && a.y2 >= b.y1
}

impl Rect {
    pub fn new(x: usize, y: usize, w: usize, h: usize) -> (r: Rect)
        requires
            x + w <= usize::MAX,
            y + h <= usize::MAX,
        ensures
            r.x1 == x && r.y1 == y && r.x2 == x + w && r.y2 == y + h,
    {
        Rect { x1: x, y1: y, x2: x + w, y2: y + h }
    }

    /// Whether this rectangle overlaps or touches `other`.
    pub fn intersect(&self, other: &Rect) -> (r: bool)
        ensures
            r == overlaps(*self, *other),
    {
        self.x1 <= other.x2 && self.x2 >= other.x1 && self.y1 <= other.y2 && self.y2 >= other.y1
    }

    pub fn center(&self) -> (r: (usize, usize))
        requires
            self.x1 + self.x2 <= usize::MAX,
            self.y1 + self.y2 <= usize::MAX,
        ensures
            r.0 == (self.x1 + self.x2) / 2,
            r.1 == (self.y1 + self.y2) / 2,
    {
        ((self.x1 + self.x2) / 2, (self.y1 + self.y2) / 2)
    }

    /// A random cell strictly inside the rectangle.
    pub fn rand_position(&self) -> (r: (i32, i32))
        requires
            self.x1 + 1 < self.x2 <= i32::MAX,
            self.y1 + 1 < self.y2 <= i32::MAX,
        ensures
            self.x1 < r.0 < self.x2,
            self.y1 < r.1 < self.y2,
    {
        let x = draw(self.x1 + 1, self.x2);
        let y = draw(self.y1 + 1, self.y2);
        (x as i32, y as i32)
    }
}

/// The index of cell `(x, y)` in a grid `w` cells wide.
pub open spec fn index_of(w: int, x: int, y: int) -> int {
    y * w + x
}

/// Index `i` names a cell of the block `x_lo..=x_hi` by `y_lo..=y_hi`.
pub open spec fn in_block(w: int, x_lo: int, x_hi: int, y_lo: int, y_hi: int, i: int) -> bool {
    exists|x: int, y: int| x_lo <= x <= x_hi && y_lo <= y <= y_hi && i == #[trigger] index_of(w, x, y)
}

/// A tile that is there and is floor.
pub open spec fn floor_at(t: Seq<TileType>, i: int) -> bool {
    0 <= i < t.len() && t[i] == TileType::Floor
}

/// The tiles of `t` after turning to floor each index that `carve` picks.
pub open spec fn carved_to(old_t: Seq<TileType>, t: Seq<TileType>, carve: spec_fn(int) -> bool) -> bool {
    &&& t.len() == old_t.len()
    &&& forall|i: int| 0 <= i < t.len() ==> (#[trigger] t[i] == TileType::Floor <==> (old_t[i] == TileType::Floor || carve(i)))
}

/// The generated map: a grid of tiles, row by row, and the rooms carved in it.
#[derive(Debug, Clone)]
pub struct DungeonMap {
    tiles: Vec<TileType>,
    rooms: Vec<Rect>,
    width: usize,
    height: usize,
}

proof fn lemma_index_bound(w: int, h: int, x: int, y: int)
    requires
        0 <= x < w,
        0 <= y < h,
    ensures
        0 <= index_of(w, x, y) < w * h,
        index_of(w, x, y) + w - x <= w * h,
{
    assert(y * w + x < w * h && y * w + w <= w * h) by (nonlinear_arith)
        requires 0 <= x < w, 0 <= y < h;
    assert(0 <= y * w) by (nonlinear_arith)
        requires 0 <= y, 0 <= w;
}

impl DungeonMap {
    pub closed spec fn tiles(&self) -> Seq<TileType> {
        self.tiles@
    }

    pub closed spec fn rooms(&self) -> Seq<Rect> {
        self.rooms@
    }

    pub closed spec fn width(&self) -> int {
        self.width as int
    }

    pub closed spec fn height(&self) -> int {
        self.height as int
    }

    /// One tile for each cell of the grid.
    pub open spec fn wf(&self) -> bool {
        &&& self.width() > 0
        &&& self.tiles().len() == self.width() * self.height()
    }

    /// Converts coordinates into the index of their tile.
    pub fn xy_idx(&self, x: usize, y: usize) -> (r: usize)
        requires
            index_of(self.width(), x as int, y as int) <= usize::MAX,
        ensures
            r == index_of(self.width(), x as int, y as int),
    {
        proof {
            assert(0 <= y * self.width) by (nonlinear_arith)
                requires 0 <= y, 0 <= self.width;
        }
        (y * self.width) + x
    }

    /// Converts a tile index into its coordinates.
    pub fn idx_xy(&self, idx: usize) -> (r: (usize, usize))
        requires
            self.width() > 0,
        ensures
            r.0 == idx as int % self.width(),
            r.1 == idx as int / self.width(),
    {
        (idx % self.width, idx / self.width)
    }

    /// Turns to floor every tile of the block `x_lo..=x_hi` by `y_lo..=y_hi`.
    fn carve_block(&mut self, x_lo: usize, x_hi: usize, y_lo: usize, y_hi: usize)
        requires
            old(self).wf(),
            x_hi < old(self).width(),
            y_hi < old(self).height(),
            x_lo <= x_hi + 1,
            y_lo <= y_hi + 1,
        ensures
            final(self).wf(),
            final(self).width() == old(self).width(),
            final(self).height() == old(self).height(),
            final(self).rooms() == old(self).rooms(),
            carved_to(
                old(self).tiles(),
                final(self).tiles(),
                |i: int| in_block(old(self).width(), x_lo as int, x_hi as int, y_lo as int, y_hi as int, i) && i > 0,
            ),
    {
        let ghost w = self.width as int;
        let ghost start = self.tiles@;
        let mut y = y_lo;
        while y <= y_hi
            invariant
                self.wf(),
                self.width == w,
                self.height() == old(self).height(),
                self.rooms() == old(self).rooms(),
                start == old(self).tiles(),
                w == old(self).width(),
                x_hi < w,
                y_hi < self.height(),
                y_lo <= y <= y_hi + 1,
                x_lo <= x_hi + 1,
                carved_to(start, self.tiles@, |i: int| in_block(w, x_lo as int, x_hi as int, y_lo as int, y - 1, i) && i > 0),
            decreases y_hi + 1 - y,
        {
            let ghost row_start = self.tiles@;
            let mut x = x_lo;
            while x <= x_hi
                invariant
                    self.wf(),
                    self.width == w,
                    self.height() == old(self).height(),
                    self.rooms() == old(self).rooms(),
                    x_hi < w,
                    y_lo <= y <= y_hi,
                    y_hi < self.height(),
                    x_lo <= x <= x_hi + 1,
                    carved_to(row_start, self.tiles@, |i: int| in_block(w, x_lo as int, x - 1, y as int, y as int, i) && i > 0),
                    carved_to(start, row_start, |i: int| in_block(w, x_lo as int, x_hi as int, y_lo as int, y - 1, i) && i > 0),
                decreases x_hi + 1 - x,
            {
                proof {
                    lemma_index_bound(w, self.height(), x as int, y as int);
                    assert(index_of(w, x as int, y as int) < self.tiles@.len());
                }
                // The length of the tiles bounds every index that fits the grid.
                let _len = self.tiles.len();
                let idx = self.xy_idx(x, y);
                if idx > 0 {
                    self.tiles.set(idx, TileType::Floor);
                }
                assert forall|i: int| 0 <= i < self.tiles@.len() implies (#[trigger] self.tiles@[i] == TileType::Floor <==> (
                row_start[i] == TileType::Floor || (in_block(w, x_lo as int, x as int, y as int, y as int, i) && i > 0))) by {
                    if i == idx && idx > 0 {
                        assert(in_block(w, x_lo as int, x as int, y as int, y as int, i)) by {
                            assert(i == index_of(w, x as int, y as int));
                        }
                    } else if i > 0 {
                        if in_block(w, x_lo as int, x as int, y as int, y as int, i) {
                            let (a, b) = choose|a: int, b: int|
                                x_lo <= a <= x && y <= b <= y && i == #[trigger] index_of(w, a, b);
                            assert(a != x);
                            assert(in_block(w, x_lo as int, x - 1, y as int, y as int, i));
                        }
                        if in_block(w, x_lo as int, x - 1, y as int, y as int, i) {
                            let (a, b) = choose|a: int, b: int|
                                x_lo <= a <= x - 1 && y <= b <= y && i == #[trigger] index_of(w, a, b);
                            assert(in_block(w, x_lo as int, x as int, y as int, y as int, i));
                        }
                    }
                }
                x += 1;
            }
            assert forall|i: int| 0 <= i < self.tiles@.len() implies (#[trigger] self.tiles@[i] == TileType::Floor <==> (
            start[i] == TileType::Floor || (in_block(w, x_lo as int, x_hi as int, y_lo as int, y as int, i) && i > 0))) by {
                if in_block(w, x_lo as int, x_hi as int, y_lo as int, y as int, i) {
                    let (a, b) = choose|a: int, b: int|
                        x_lo <= a <= x_hi && y_lo <= b <= y && i == #[trigger] index_of(w, a, b);
                    if b == y {
                        assert(in_block(w, x_lo as int, x - 1, y as int, y as int, i));
                    } else {
                        assert(in_block(w, x_lo as int, x_hi as int, y_lo as int, y - 1, i));
                    }
                }
                if in_block(w, x_lo as int, x - 1, y as int, y as int, i) {
                    let (a, b) = choose|a: int, b: int|
                        x_lo <= a <= x - 1 && y <= b <= y && i == #[trigger] index_of(w, a, b);
                    assert(in_block(w, x_lo as int, x_hi as int, y_lo as int, y as int, i));
                }
                if in_block(w, x_lo as int, x_hi as int, y_lo as int, y - 1, i) {
                    let (a, b) = choose|a: int, b: int|
                        x_lo <= a <= x_hi && y_lo <= b <= y - 1 && i == #[trigger] index_of(w, a, b);
                    assert(in_block(w, x_lo as int, x_hi as int, y_lo as int, y as int, i));
                }
            }
            y += 1;
        }
    }
}

/// Rooms that keep apart from each other and lie strictly inside a grid
/// `w` by `h`.
pub open spec fn rooms_ok(rooms: Seq<Rect>, w: int, h: int) -> bool {
    &&& forall|i: int| 0 <= i < rooms.len() ==> {
        let r = #[trigger] rooms[i];
        r.x1 < r.x2 < w && r.y1 < r.y2 < h
    }
    &&& forall|i: int, j: int|
        0 <= i < rooms.len() && 0 <= j < rooms.len() && i != j ==> !overlaps(#[trigger] rooms[i], #[trigger] rooms[j])
}

impl DungeonMap {
    /// Turns to floor the inside of `room`: columns `x1 + 1` to `x2` of rows
    /// `y1 + 1` to `y2`.
    pub fn apply_room_to_map(&mut self, room: &Rect)
        requires
            old(self).wf(),
            room.x1 < room.x2 < old(self).width(),
            room.y1 < room.y2 < old(self).height(),
        ensures
            final(self).wf(),
            final(self).width() == old(self).width(),
            final(self).height() == old(self).height(),
            final(self).rooms() == old(self).rooms(),
            carved_to(
                old(self).tiles(),
                final(self).tiles(),
                |i: int| in_block(old(self).width(), room.x1 + 1, room.x2 as int, room.y1 + 1, room.y2 as int, i),
            ),
    {
        let ghost w = self.width();
        self.carve_block(room.x1 + 1, room.x2, room.y1 + 1, room.y2);
        assert forall|i: int| #[trigger] in_block(w, room.x1 + 1, room.x2 as int, room.y1 + 1, room.y2 as int, i) implies i > 0 by {
            let (a, b) = choose|a: int, b: int|
                room.x1 + 1 <= a <= room.x2 && room.y1 + 1 <= b <= room.y2 && i == #[trigger] index_of(w, a, b);
            assert(0 <= b * w) by (nonlinear_arith)
                requires 0 <= b, 0 <= w;
        }
    }

    /// Turns to floor row `y` from column `x1` to column `x2`, either way
    /// round, but for the tile at index 0.
    pub fn apply_horizontal_tunnel(&mut self, x1: usize, x2: usize, y: usize)
        requires
            old(self).wf(),
            x1 < old(self).width(),
            x2 < old(self).width(),
            y < old(self).height(),
        ensures
            final(self).wf(),
            final(self).width() == old(self).width(),
            final(self).height() == old(self).height(),
            final(self).rooms() == old(self).rooms(),
            carved_to(
                old(self).tiles(),
                final(self).tiles(),
                |i: int| in_block(old(self).width(), if x1 < x2 { x1 as int } else { x2 as int }, if x1 < x2 { x2 as int } else { x1 as int }, y as int, y as int, i) && i > 0,
            ),
    {
        if x1 < x2 {
            self.carve_block(x1, x2, y, y);
        } else {
            self.carve_block(x2, x1, y, y);
        }
    }

    /// Turns to floor column `x` from row `y1` to row `y2`, either way
    /// round, but for the tile at index 0.
    pub fn apply_vertical_tunnel(&mut self, y1: usize, y2: usize, x: usize)
        requires
            old(self).wf(),
            y1 < old(self).height(),
            y2 < old(self).height(),
            x < old(self).width(),
        ensures
            final(self).wf(),
            final(self).width() == old(self).width(),
            final(self).height() == old(self).height(),
            final(self).rooms() == old(self).rooms(),
            carved_to(
                old(self).tiles(),
                final(self).tiles(),
                |i: int| in_block(old(self).width(), x as int, x as int, if y1 < y2 { y1 as int } else { y2 as int }, if y1 < y2 { y2 as int } else { y1 as int }, i) && i > 0,
            ),
    {
        if y1 < y2 {
            self.carve_block(x, x, y1, y2);
        } else {
            self.carve_block(x, x, y2, y1);
        }
    }

    fn is_floor(&self, i: usize) -> (r: bool)
        ensures
            r == floor_at(self.tiles(), i as int),
    {
        i < self.tiles.len() && self.tiles[i] == TileType::Floor
    }

    /// Whether a floor tile touches the tile at `(x, y)` by a side or a
    /// corner, going by tile index: the neighbours of index `i` are
    /// `i +- 1`, `i +- width`, and `i +- width +- 1`, where the ones below
    /// exist only from the second row on.
    pub fn adjacent_to_floor(&self, x: usize, y: usize) -> (r: bool)
        requires
            index_of(self.width(), x as int, y as int) + self.width() + 1 <= usize::MAX,
        ensures
            ({
                let t = self.tiles();
                let i = index_of(self.width(), x as int, y as int);
                let w = self.width();
                r == (floor_at(t, i + 1) || floor_at(t, i - 1) || floor_at(t, i + w) || floor_at(t, i - w)
                    || floor_at(t, i + w + 1) || floor_at(t, i + w - 1) || (i >= w && floor_at(t, i - w + 1))
                    || floor_at(t, i - w - 1))
            }),
    {
        let index = self.xy_idx(x, y);
        let up = index + self.width;
        let right = index + 1;
        if self.is_floor(right) {
            return true;
        }
        if index >= 1 && self.is_floor(index - 1) {
            return true;
        }
        if self.is_floor(up) {
            return true;
        }
        if index >= self.width && self.is_floor(index - self.width) {
            return true;
        }
        if self.is_floor(up + 1) {
            return true;
        }
        if up >= 1 && self.is_floor(up - 1) {
            return true;
        }
        if index >= self.width && self.is_floor(index - self.width + 1) {
            return true;
        }
        if index >= self.width + 1 && self.is_floor(index - self.width - 1) {
            return true;
        }
        false
    }

    /// A new dungeon of `MAP_WIDTH` by `MAP_HEIGHT` tiles: up to `MAX_ROOMS`
    /// rooms of random size and place, each kept only where it keeps apart
    /// from the rooms before it, and each joined to the room before it by
    /// an L-shaped corridor that bends one way or the other at random.
    pub fn new_dungeon() -> (r: DungeonMap)
        ensures
            r.wf(),
            r.width() == MAP_WIDTH,
            r.height() == MAP_HEIGHT,
            rooms_ok(r.rooms(), MAP_WIDTH as int, MAP_HEIGHT as int),
    {
        let mut tiles: Vec<TileType> = Vec::new();
        let mut k: usize = 0;
        while k < MAP_WIDTH * MAP_HEIGHT
            invariant
                tiles@.len() == k,
                k <= MAP_WIDTH * MAP_HEIGHT,
            decreases MAP_WIDTH * MAP_HEIGHT - k,
        {
            tiles.push(TileType::Wall);
            k += 1;
        }
        let mut map = DungeonMap { tiles, rooms: Vec::new(), width: MAP_WIDTH, height: MAP_HEIGHT };
        let mut n: usize = 0;
        while n < MAX_ROOMS
            invariant
                map.wf(),
                map.width() == MAP_WIDTH,
                map.height() == MAP_HEIGHT,
                rooms_ok(map.rooms(), MAP_WIDTH as int, MAP_HEIGHT as int),
                n <= MAX_ROOMS,
            decreases MAX_ROOMS - n,
        {
            let w = draw(MIN_SIZE, MAX_SIZE);
            let h = draw(MIN_SIZE, MAX_SIZE);
            let x = draw(1, map.width - w - 1) - 1;
            let y = draw(1, map.height - h - 1) - 1;
            let new_room = Rect::new(x, y, w, h);
            let mut clash = false;
            let mut j: usize = 0;
            while j < map.rooms.len()
                invariant
                    0 <= j <= map.rooms@.len(),
                    !clash ==> forall|m: int| 0 <= m < j ==> !overlaps(new_room, #[trigger] map.rooms@[m]),
                decreases map.rooms@.len() - j,
            {
                if new_room.intersect(&map.rooms[j]) {
                    clash = true;
                }
                j += 1;
            }
            if !clash {
                map.apply_room_to_map(&new_room);
                let (new_x, new_y) = new_room.center();
                if map.rooms.len() > 0 {
                    let last = map.rooms.len() - 1;
                    assert(map.rooms@[last as int] == map.rooms()[last as int]);
                    let (prev_x, prev_y) = map.rooms[last].center();
                    if draw(0, 2) == 1 {
                        map.apply_horizontal_tunnel(prev_x, new_x, prev_y);
                        map.apply_vertical_tunnel(prev_y, new_y, new_x);
                    } else {
                        map.apply_vertical_tunnel(prev_y, new_y, prev_x);
                        map.apply_horizontal_tunnel(prev_x, new_x, new_y);
                    }
                }
                let ghost before = map.rooms@;
                map.rooms.push(new_room);
                assert forall|a: int, b: int|
                    0 <= a < map.rooms@.len() && 0 <= b < map.rooms@.len() && a != b implies !overlaps(
                    #[trigger] map.rooms@[a],
                    #[trigger] map.rooms@[b],
                ) by {
                    if a == before.len() {
                        assert(!overlaps(new_room, before[b]));
                    } else if b == before.len() {
                        assert(!overlaps(new_room, before[a]));
                    } else {
                        assert(map.rooms@[a] == before[a] && map.rooms@[b] == before[b]);
                    }
                }
            }
            n += 1;
        }
        map
    }

    /// The rooms, in the order they were made.
    pub fn room_list(&self) -> (r: Vec<Rect>)
        ensures
            r@ == self.rooms(),
    {
        self.rooms.clone()
    }

    /// Whether the tile at index `i` is there and is floor.
    pub fn floor_tile(&self, i: usize) -> (r: bool)
        ensures
            r == floor_at(self.tiles(), i as int),
    {
        self.is_floor(i)
    }

    pub fn tile_count(&self) -> (r: usize)
        ensures
            r == self.tiles().len(),
    {
        self.tiles.len()
    }
}

/// Where a monster or an item is to be placed.
#[derive(Debug, Clone, Copy, PartialEq, Eq)]
pub enum Spawn {
    Monster(Position),
    Item(Position),
}

/// A cell strictly inside `room`.
pub open spec fn inside(room: Rect, c: (int, int)) -> bool {
    room.x1 < c.0 < room.x2 && room.y1 < c.1 < room.y2
}

/// The cells strictly inside `room`, row by row.
fn interior(room: &Rect) -> (r: Vec<Position>)
    requires
        room.x1 < room.x2 <= i32::MAX,
        room.y1 < room.y2 <= i32::MAX,
    ensures
        r@.len() == (room.x2 - room.x1 - 1) * (room.y2 - room.y1 - 1),
        forall|i: int| 0 <= i < r@.len() ==> inside(*room, cell_of(#[trigger] r@[i])),
        forall|i: int, j: int| 0 <= i < j < r@.len() ==> cell_of(#[trigger] r@[i]) != cell_of(#[trigger] r@[j]),
{
    let mut r: Vec<Position> = Vec::new();
    let w = room.x2 - room.x1 - 1;
    let mut y = room.y1 + 1;
    assert(w * (y - room.y1 - 1) == 0) by (nonlinear_arith)
        requires y - room.y1 - 1 == 0;
    while y < room.y2
        invariant
            room.x1 < room.x2 <= i32::MAX,
            room.y1 < room.y2 <= i32::MAX,
            w == room.x2 - room.x1 - 1,
            room.y1 + 1 <= y <= room.y2,
            r@.len() == w * (y - room.y1 - 1),
            forall|i: int| 0 <= i < r@.len() ==> inside(*room, cell_of(#[trigger] r@[i])) && r@[i].y < y,
            forall|i: int, j: int| 0 <= i < j < r@.len() ==> cell_of(#[trigger] r@[i]) != cell_of(#[trigger] r@[j]),
        decreases room.y2 - y,
    {
        let ghost row_start = r@.len();
        let mut x = room.x1 + 1;
        while x < room.x2
            invariant
                room.x1 < room.x2 <= i32::MAX,
                room.y1 < room.y2 <= i32::MAX,
                room.y1 + 1 <= y < room.y2,
                room.x1 + 1 <= x <= room.x2,
                r@.len() == row_start + (x - room.x1 - 1),
                row_start == w * (y - room.y1 - 1),
                forall|i: int| 0 <= i < row_start ==> inside(*room, cell_of(#[trigger] r@[i])) && r@[i].y < y,
                forall|i: int| row_start <= i < r@.len() ==> inside(*room, cell_of(#[trigger] r@[i])) && r@[i].y == y && r@[i].x < x,
                forall|i: int, j: int| 0 <= i < j < r@.len() ==> cell_of(#[trigger] r@[i]) != cell_of(#[trigger] r@[j]),
            decreases room.x2 - x,
        {
            r.push(Position::new(x as i32, y as i32, 0));
            x += 1;
        }
        assert(w * (y - room.y1 - 1) + w == w * (y + 1 - room.y1 - 1)) by (nonlinear_arith);
        y += 1;
    }
    r
}

/// What `s` places: a monster or an item, as `monster` says, on a cell
/// strictly inside `room`, on layer `z`.
pub open spec fn spawn_ok(s: Spawn, room: Rect, monster: bool, z: i32) -> bool {
    match s {
        Spawn::Monster(p) => monster && inside(room, cell_of(p)) && p.z == z,
        Spawn::Item(p) => !monster && inside(room, cell_of(p)) && p.z == z,
    }
}

/// The cell a spawn is placed on.
pub open spec fn spawn_cell(s: Spawn) -> (int, int) {
    match s {
        Spawn::Monster(p) => cell_of(p),
        Spawn::Item(p) => cell_of(p),
    }
}

/// No two positions of `s` share a cell.
pub open spec fn cells_distinct(s: Seq<Position>) -> bool {
    forall|i: int, j: int| 0 <= i < j < s.len() ==> cell_of(#[trigger] s[i]) != cell_of(#[trigger] s[j])
}

/// Picks `count` cells out of `free`, each uniformly among those still
/// free, and places on them what `monster` tells, on layer `z`.
fn pick_cells(free: &mut Vec<Position>, count: usize, monster: bool, z: i32, room: &Rect, out: &mut Vec<Spawn>)
    requires
        count <= old(free)@.len(),
        cells_distinct(old(free)@),
        forall|i: int| 0 <= i < old(free)@.len() ==> inside(*room, cell_of(#[trigger] old(free)@[i])),
    ensures
        final(out)@.len() == old(out)@.len() + count,
        forall|i: int| 0 <= i < old(out)@.len() ==> final(out)@[i] == old(out)@[i],
        forall|i: int| old(out)@.len() <= i < final(out)@.len() ==> spawn_ok(#[trigger] final(out)@[i], *room, monster, z),
        forall|i: int, j: int|
            old(out)@.len() <= i < j < final(out)@.len() ==> spawn_cell(#[trigger] final(out)@[i]) != spawn_cell(#[trigger] final(out)@[j]),
{
    let mut k: usize = 0;
    let ghost base = old(out)@.len();
    while k < count
        invariant
            0 <= k <= count,
            count - k <= free@.len(),
            base == old(out)@.len(),
            out@.len() == base + k,
            cells_distinct(free@),
            forall|i: int| 0 <= i < free@.len() ==> inside(*room, cell_of(#[trigger] free@[i])),
            forall|i: int| 0 <= i < base ==> out@[i] == old(out)@[i],
            forall|i: int| base <= i < out@.len() ==> spawn_ok(#[trigger] out@[i], *room, monster, z),
            forall|i: int, j: int| base <= i < j < out@.len() ==> spawn_cell(#[trigger] out@[i]) != spawn_cell(#[trigger] out@[j]),
            forall|i: int, j: int| base <= i < out@.len() && 0 <= j < free@.len() ==> spawn_cell(#[trigger] out@[i]) != cell_of(#[trigger] free@[j]),
        decreases count - k,
    {
        let n = free.len();
        let pick = draw(0, n);
        let ghost before = free@;
        let p = free.remove(pick);
        assert(free@ == before.remove(pick as int));
        let placed = Position::new(p.x, p.y, z);
        let ghost prev = out@;
        if monster {
            out.push(Spawn::Monster(placed));
        } else {
            out.push(Spawn::Item(placed));
        }
        assert(spawn_cell(out@[out@.len() - 1]) == cell_of(p));
        assert forall|i: int, j: int| base <= i < out@.len() && 0 <= j < free@.len() implies spawn_cell(#[trigger] out@[i]) != cell_of(#[trigger] free@[j]) by {
            let jj = if j < pick { j } else { j + 1 };
            assert(free@[j] == before[jj]);
            if i < prev.len() {
                assert(out@[i] == prev[i]);
            } else {
                assert(jj != pick);
            }
        }
        assert forall|i: int, j: int| base <= i < j < out@.len() implies spawn_cell(#[trigger] out@[i]) != spawn_cell(#[trigger] out@[j]) by {
            if j == prev.len() {
                assert(out@[i] == prev[i]);
                assert(before[pick as int] == p);
            } else {
                assert(out@[i] == prev[i] && out@[j] == prev[j]);
            }
        }
        assert forall|i: int| base <= i < out@.len() implies spawn_ok(#[trigger] out@[i], *room, monster, z) by {
            if i < prev.len() {
                assert(out@[i] == prev[i]);
            } else {
                assert(before[pick as int] == p);
            }
        }
        assert forall|i: int, j: int| 0 <= i < j < free@.len() implies cell_of(#[trigger] free@[i]) != cell_of(#[trigger] free@[j]) by {
            let ii = if i < pick { i } else { i + 1 };
            let jj = if j < pick { j } else { j + 1 };
            assert(free@[i] == before[ii] && free@[j] == before[jj]);
        }
        assert forall|i: int| 0 <= i < free@.len() implies inside(*room, cell_of(#[trigger] free@[i])) by {
            let ii = if i < pick { i } else { i + 1 };
            assert(free@[i] == before[ii]);
        }
        k += 1;
    }
}

/// The layer monsters are drawn on.
pub const MONSTER_Z: i32 = 10;

/// The layer items are drawn on.
pub const ITEM_Z: i32 = 2;

/// `r` places its first `m` spawns, at most `max_monsters`, as monsters on
/// distinct cells, and the rest, at most `max_items`, as items on distinct
/// cells, all inside `room`.
pub open spec fn room_plan_ok(r: Seq<Spawn>, room: Rect, m: int, max_monsters: int, max_items: int) -> bool {
    &&& 0 <= m <= max_monsters
    &&& m <= r.len()
    &&& r.len() - m <= max_items
    &&& forall|i: int| 0 <= i < m ==> spawn_ok(#[trigger] r[i], room, true, MONSTER_Z)
    &&& forall|i: int| m <= i < r.len() ==> spawn_ok(#[trigger] r[i], room, false, ITEM_Z)
    &&& forall|i: int, j: int| 0 <= i < j < m ==> spawn_cell(#[trigger] r[i]) != spawn_cell(#[trigger] r[j])
    &&& forall|i: int, j: int| m <= i < j < r.len() ==> spawn_cell(#[trigger] r[i]) != spawn_cell(#[trigger] r[j])
}

/// Random monsters and items for `room`: first up to `max_monsters`
/// monsters on distinct cells, then up to `max_items` items on distinct
/// cells, all strictly inside the room. A monster and an item may share a
/// cell.
pub fn populate_room(room: &Rect, max_monsters: u8, max_items: u8) -> (r: Vec<Spawn>)
    requires
        room.x1 < room.x2 <= i32::MAX,
        room.y1 < room.y2 <= i32::MAX,
        max_monsters <= (room.x2 - room.x1 - 1) * (room.y2 - room.y1 - 1),
        max_items <= (room.x2 - room.x1 - 1) * (room.y2 - room.y1 - 1),
    ensures
        exists|m: int| #[trigger] room_plan_ok(r@, *room, m, max_monsters as int, max_items as int),
{
    let monsters_count = draw(0, max_monsters as usize + 1);
    let mut out: Vec<Spawn> = Vec::new();
    let mut free = interior(room);
    pick_cells(&mut free, monsters_count, true, MONSTER_Z, room, &mut out);
    let ghost monsters = out@;
    let items_count = draw(0, max_items as usize + 1);
    let mut free = interior(room);
    pick_cells(&mut free, items_count, false, ITEM_Z, room, &mut out);
    assert forall|i: int| 0 <= i < monsters_count implies spawn_ok(#[trigger] out@[i], *room, true, MONSTER_Z) by {
        assert(out@[i] == monsters[i]);
    }
    assert forall|i: int, j: int| 0 <= i < j < monsters_count implies spawn_cell(#[trigger] out@[i]) != spawn_cell(#[trigger] out@[j]) by {
        assert(out@[i] == monsters[i] && out@[j] == monsters[j]);
    }
    assert(room_plan_ok(out@, *room, monsters_count as int, max_monsters as int, max_items as int));
    out
}

} // verus!
