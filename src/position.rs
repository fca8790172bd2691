//! Grid cells, moves between them, and distances.

use vstd::prelude::*;

verus! {

/// A cell of the grid. `z` orders drawing only: two positions with equal `x`
/// and `y` are the same cell.
#[derive(Debug, Clone, Copy)]
pub struct Position {
    pub x: i32,
    pub y: i32,
    pub z: i32,
}

/// The cell a position stands for.
pub open spec fn cell_of(p: Position) -> (int, int) {
    (p.x as int, p.y as int)
}

/// Whether a pair of integers fits both coordinates of a `Position`.
pub open spec fn in_i32(c: (int, int)) -> bool {
    i32::MIN <= c.0 <= i32::MAX && i32::MIN <= c.1 <= i32::MAX
}

pub open spec fn abs(v: int) -> int {
    if v < 0 { -v } else { v }
}

/// Eight-directional distance: the number of king moves between two cells.
pub open spec fn king_distance(a: (int, int), b: (int, int)) -> int {
    let dx = abs(a.0 - b.0);
    let dy = abs(a.1 - b.1);
    if dx < dy { dy } else { dx }
}

/// Two distinct cells that touch by a side or a corner.
pub open spec fn adjacent(a: (int, int), b: (int, int)) -> bool {
    king_distance(a, b) == 1
}

/// The offsets of the eight neighbours, in the order up, up-right, right,
/// right-down, down, down-left, left, left-up.
pub open spec fn neighbour_offsets() -> Seq<(int, int)> {
    seq![(0, 1), (1, 1), (1, 0), (1, -1), (0, -1), (-1, -1), (-1, 0), (-1, 1)]
}

/// `r` is the integer square root of `n`.
pub open spec fn is_floor_sqrt(n: int, r: int) -> bool {
    0 <= r && r * r <= n && n < (r + 1) * (r + 1)
}

impl PartialEq for Position {
    fn eq(&self, other: &Position) -> (r: bool)
        ensures
            r == (cell_of(*self) == cell_of(*other)),
    {
        self.x == other.x && self.y == other.y
    }
}

impl vstd::std_specs::cmp::PartialEqSpecImpl for Position {
    open spec fn obeys_eq_spec() -> bool {
        true
    }

    open spec fn eq_spec(&self, other: &Position) -> bool {
        cell_of(*self) == cell_of(*other)
    }
}

impl Eq for Position {

}

/// The integer square root of `n`, by bisection.
pub fn isqrt(n: u64) -> (r: u64)
    ensures
        is_floor_sqrt(n as int, r as int),
{
    let mut lo: u64 = 0;
    let mut hi: u64 = 0x1_0000_0000;
    assert(n < 0x1_0000_0000 * 0x1_0000_0000) by (nonlinear_arith)
        requires n <= u64::MAX;
    while hi - lo > 1
        invariant
            lo < hi <= 0x1_0000_0000,
            lo * lo <= n,
            n < hi * hi,
        decreases hi - lo,
    {
        let mid = lo + (hi - lo) / 2;
        assert(mid * mid <= 0xffff_ffff * 0xffff_ffff) by (nonlinear_arith)
            requires mid < 0x1_0000_0000;
        if mid * mid <= n {
            lo = mid;
        } else {
            hi = mid;
        }
    }
    assert(hi == lo + 1);
    lo
}

/// Whole-cell Euclidean distance between two points, rounded down, and held
/// at `i32::MAX` where it would not fit.
pub fn euclidean_distance(p1_x: i32, p1_y: i32, p2_x: i32, p2_y: i32) -> (r: i32)
    requires
        i32::MIN <= p1_x - p2_x <= i32::MAX,
        i32::MIN <= p1_y - p2_y <= i32::MAX,
    ensures
        r >= 0,
        r < i32::MAX ==> is_floor_sqrt(
            (p1_x - p2_x) * (p1_x - p2_x) + (p1_y - p2_y) * (p1_y - p2_y),
            r as int,
        ),
        r == i32::MAX ==> i32::MAX * i32::MAX <= (p1_x - p2_x) * (p1_x - p2_x) + (p1_y - p2_y) * (
        p1_y - p2_y),
{
    let dx: i64 = p1_x as i64 - p2_x as i64;
    let dy: i64 = p1_y as i64 - p2_y as i64;
    let ax: u64 = if dx < 0 { (-dx) as u64 } else { dx as u64 };
    let ay: u64 = if dy < 0 { (-dy) as u64 } else { dy as u64 };
    assert(ax * ax <= 0x8000_0000 * 0x8000_0000) by (nonlinear_arith)
        requires ax <= 0x8000_0000;
    assert(ay * ay <= 0x8000_0000 * 0x8000_0000) by (nonlinear_arith)
        requires ay <= 0x8000_0000;
    let sq: u64 = ax * ax + ay * ay;
    assert(sq == dx * dx + dy * dy) by (nonlinear_arith)
        requires
            ax == abs(dx as int),
            ay == abs(dy as int),
            sq == ax * ax + ay * ay;
    let root = isqrt(sq);
    if root >= i32::MAX as u64 {
        assert(i32::MAX * i32::MAX <= root * root) by (nonlinear_arith)
            requires root >= i32::MAX;
        i32::MAX
    } else {
        root as i32
    }
}

impl Position {
    pub fn new(x: i32, y: i32, z: i32) -> (r: Position)
        ensures
            r.x == x,
            r.y == y,
            r.z == z,
    {
        Position { x, y, z }
    }

    /// The eight cells a single step can reach, in the order of
    /// `neighbour_offsets`, all on the layer of `self`.
    pub fn possible_successors(&self) -> (r: Vec<Position>)
        requires
            i32::MIN < self.x < i32::MAX,
            i32::MIN < self.y < i32::MAX,
        ensures
            r@.len() == 8,
            forall|i: int|
                0 <= i < 8 ==> {
                    &&& #[trigger] r@[i].x == self.x + neighbour_offsets()[i].0
                    &&& r@[i].y == self.y + neighbour_offsets()[i].1
                    &&& r@[i].z == self.z
                },
    {
        let r = vec![
            Position::new(self.x, self.y + 1, self.z),
            Position::new(self.x + 1, self.y + 1, self.z),
            Position::new(self.x + 1, self.y, self.z),
            Position::new(self.x + 1, self.y - 1, self.z),
            Position::new(self.x, self.y - 1, self.z),
            Position::new(self.x - 1, self.y - 1, self.z),
            Position::new(self.x - 1, self.y, self.z),
            Position::new(self.x - 1, self.y + 1, self.z),
        ];
        r
    }

    /// Whole-cell Euclidean distance to `rhs`, as `euclidean_distance` gives it.
    pub fn distance(self, rhs: Position) -> (r: i32)
        requires
            i32::MIN <= self.x - rhs.x <= i32::MAX,
            i32::MIN <= self.y - rhs.y <= i32::MAX,
        ensures
            r >= 0,
            r < i32::MAX ==> is_floor_sqrt(
                (self.x - rhs.x) * (self.x - rhs.x) + (self.y - rhs.y) * (self.y - rhs.y),
                r as int,
            ),
            r == i32::MAX ==> i32::MAX * i32::MAX <= (self.x - rhs.x) * (self.x - rhs.x) + (self.y
                - rhs.y) * (self.y - rhs.y),
    {
        euclidean_distance(self.x, self.y, rhs.x, rhs.y)
    }

    /// Whether `other` touches this cell by a side or a corner.
    pub fn next_to(&self, other: &Position) -> (r: bool)
        ensures
            r == adjacent(cell_of(*self), cell_of(*other)),
    {
        let dx: i64 = self.x as i64 - other.x as i64;
        let dy: i64 = self.y as i64 - other.y as i64;
        let ax: i64 = if dx < 0 { -dx } else { dx };
        let ay: i64 = if dy < 0 { -dy } else { dy };
        let d: i64 = if ax < ay { ay } else { ax };
        d == 1
    }
}

} // verus!
