//! Field of view by recursive shadowcasting over eight octants.
//!
//! A tile's coordinates name its centre. Within an octant, `x` is the depth
//! (the column) and `y` the spread (the row), with `0 <= y <= x`. A sector is
//! bounded by two exact rational slopes, `top` and `bottom`, each written as
//! a pair `(y, x)` for `y / x`. Walls are drawn as diamonds whose corners are
//! bevelled where both orthogonal neighbours of the corner are clear, which
//! keeps the lit region free of jagged edges.

use vstd::prelude::*;

use crate::cell_set::PositionSet;
use crate::position::{cell_of, euclidean_distance, is_floor_sqrt, Position};

verus! {

/// The largest range the sweep accepts; it keeps every product of the exact
/// slope arithmetic inside `u64`.
pub const MAX_RANGE: i32 = 0x1000_0000;

/// `s` passes strictly above the vector `y / x`.
pub open spec fn above(s: (int, int), y: int, x: int) -> bool {
    s.0 * x > s.1 * y
}

/// `s` passes above the vector `y / x` or along it.
pub open spec fn at_or_above(s: (int, int), y: int, x: int) -> bool {
    s.0 * x >= s.1 * y
}

/// `s` passes strictly below the vector `y / x`.
pub open spec fn below(s: (int, int), y: int, x: int) -> bool {
    s.0 * x < s.1 * y
}

/// The world cell at depth `x` and spread `y` of an octant around `origin`.
pub open spec fn world(octant: int, origin: (int, int), x: int, y: int) -> (int, int) {
    let (ox, oy) = origin;
    if octant == 0 {
        (ox + x, oy - y)
    } else if octant == 1 {
        (ox + y, oy - x)
    } else if octant == 2 {
        (ox - y, oy - x)
    } else if octant == 3 {
        (ox - x, oy - y)
    } else if octant == 4 {
        (ox - x, oy + y)
    } else if octant == 5 {
        (ox - y, oy + x)
    } else if octant == 6 {
        (ox + y, oy + x)
    } else {
        (ox + x, oy + y)
    }
}

/// What one octant's sweep works with.
pub struct Sweep {
    pub octant: int,
    pub origin: (int, int),
    pub range: int,
    pub opaque: spec_fn(int, int) -> bool,
    pub dist: spec_fn(int, int) -> int,
}

/// Whether the tile at depth `x` and spread `y` blocks light.
pub open spec fn blocked(c: Sweep, x: int, y: int) -> bool {
    let w = world(c.octant, c.origin, x, y);
    (c.opaque)(w.0, w.1)
}

/// The highest row of column `x` that the sector under `top` reaches. The
/// vector enters the column at row `((2x - 1) * top + 1) / 2`; it climbs one
/// row further where it clears a bevelled wall corner, or where it crosses
/// into a wall tile above before it leaves the column.
pub open spec fn top_row(c: Sweep, x: int, top: (int, int)) -> int {
    if top.1 == 1 {
        x
    } else {
        let ty = ((2 * x - 1) * top.0 + top.1) / (2 * top.1);
        if blocked(c, x, ty) {
            if at_or_above(top, 2 * ty + 1, 2 * x) && !blocked(c, x, ty + 1) {
                ty + 1
            } else {
                ty
            }
        } else if above(top, 2 * ty + 1, 2 * x + 1) && blocked(c, x + 1, ty) {
            ty + 1
        } else {
            ty
        }
    }
}

/// The lowest row of column `x` that the sector over `bottom` reaches. A wall
/// tile the vector enters is skipped where the vector passes over its
/// bevelled top-left corner.
pub open spec fn bottom_row(c: Sweep, x: int, bottom: (int, int)) -> int {
    if bottom.0 == 0 {
        0
    } else {
        let by = ((2 * x - 1) * bottom.0 + bottom.1) / (2 * bottom.1);
        if at_or_above(bottom, 2 * by + 1, 2 * x) && blocked(c, x, by) && !blocked(c, x, by + 1) {
            by + 1
        } else {
            by
        }
    }
}

/// The state of a column scan: the sector's current slopes, whether the last
/// row in range was opaque (1), clear (0) or not seen yet (-1), whether the
/// sector was closed (`ended`) or narrowed to the next column early (`cut`),
/// and the cells found visible so far.
pub struct Scan {
    pub top: (int, int),
    pub bottom: (int, int),
    pub was: int,
    pub ended: bool,
    pub cut: bool,
    pub seen: Set<(int, int)>,
}

/// One row `y` of column `x`, between rows `by` and `ty`.
pub open spec fn row(c: Sweep, x: int, ty: int, by: int, y: int, s: Scan) -> Scan
    decreases (c.range - x) as nat, 0nat, 0nat,
{
    if (c.dist)(x, y) > c.range {
        s
    } else {
        let op = blocked(c, x, y);
        let vis = op || ((y != ty || above(s.top, 4 * y - 1, 4 * x + 1)) && (y != by || below(
            s.bottom,
            4 * y + 1,
            4 * x - 1,
        )));
        let seen = if vis {
            s.seen.insert(world(c.octant, c.origin, x, y))
        } else {
            s.seen
        };
        let n = (2 * y + 1, 2 * x);
        if x >= c.range {
            Scan { seen, ..s }
        } else if op {
            if s.was == 0 {
                if above(s.top, n.0, n.1) {
                    if y == by {
                        Scan { seen, bottom: n, cut: true, ..s }
                    } else {
                        Scan { seen: sweep(c, x + 1, s.top, n, seen), was: 1, ..s }
                    }
                } else if y == by {
                    Scan { seen, ended: true, ..s }
                } else {
                    Scan { seen, was: 1, ..s }
                }
            } else {
                Scan { seen, was: 1, ..s }
            }
        } else if s.was > 0 {
            if at_or_above(s.bottom, n.0, n.1) {
                Scan { seen, ended: true, ..s }
            } else {
                Scan { seen, top: n, was: 0, ..s }
            }
        } else {
            Scan { seen, was: 0, ..s }
        }
    }
}

/// Rows `y` down to `by` of column `x`, stopping once the sector closes or is
/// cut.
pub open spec fn scan(c: Sweep, x: int, ty: int, by: int, y: int, s: Scan) -> Scan
    decreases (c.range - x) as nat, 1nat, (y - by + 1) as nat,
{
    if y < by || s.ended || s.cut {
        s
    } else {
        scan(c, x, ty, by, y - 1, row(c, x, ty, by, y, s))
    }
}

/// `acc` together with every cell the sector between `top` and `bottom` lights
/// from column `x` outwards.
pub open spec fn sweep(c: Sweep, x: int, top: (int, int), bottom: (int, int), acc: Set<(int, int)>) -> Set<(int, int)>
    decreases (c.range - x) as nat, 2nat, 0nat,
{
    if x < 1 || x > c.range {
        acc
    } else {
        let ty = top_row(c, x, top);
        let by = bottom_row(c, x, bottom);
        let s = scan(c, x, ty, by, ty, Scan { top, bottom, was: -1, ended: false, cut: false, seen: acc });
        if s.ended || s.was != 0 || x >= c.range {
            s.seen
        } else {
            sweep(c, x + 1, s.top, s.bottom, s.seen)
        }
    }
}

/// `acc` together with every cell that octants `octant` to 7 light.
pub open spec fn lit_octants(
    origin: (int, int),
    range: int,
    opaque: spec_fn(int, int) -> bool,
    dist: spec_fn(int, int) -> int,
    octant: int,
    acc: Set<(int, int)>,
) -> Set<(int, int)>
    decreases (8 - octant) as nat,
{
    if octant < 0 || octant >= 8 {
        acc
    } else {
        let c = Sweep { octant, origin, range, opaque, dist };
        lit_octants(origin, range, opaque, dist, octant + 1, sweep(c, 1, (1, 1), (0, 1), acc))
    }
}

/// The cells visible from `origin` within `range`: the origin itself and what
/// the sweeps of the eight octants light, where `opaque` tells which world
/// cells block light and `dist` measures a cell of an octant from its origin.
pub open spec fn visible_cells(
    origin: (int, int),
    range: int,
    opaque: spec_fn(int, int) -> bool,
    dist: spec_fn(int, int) -> int,
) -> Set<(int, int)> {
    lit_octants(origin, range, opaque, dist, 0, set![origin])
}

proof fn lemma_row_grows(c: Sweep, x: int, ty: int, by: int, y: int, s: Scan)
    ensures
        s.seen.subset_of(row(c, x, ty, by, y, s).seen),
    decreases (c.range - x) as nat, 0nat, 0nat,
{
    if (c.dist)(x, y) <= c.range && x < c.range && blocked(c, x, y) && s.was == 0 && above(
        s.top,
        2 * y + 1,
        2 * x,
    ) && y != by {
        let seen = s.seen.insert(world(c.octant, c.origin, x, y));
        lemma_sweep_grows(c, x + 1, s.top, (2 * y + 1, 2 * x), seen);
    }
}

proof fn lemma_scan_grows(c: Sweep, x: int, ty: int, by: int, y: int, s: Scan)
    ensures
        s.seen.subset_of(scan(c, x, ty, by, y, s).seen),
    decreases (c.range - x) as nat, 1nat, (y - by + 1) as nat,
{
    if !(y < by || s.ended || s.cut) {
        lemma_row_grows(c, x, ty, by, y, s);
        lemma_scan_grows(c, x, ty, by, y - 1, row(c, x, ty, by, y, s));
    }
}

proof fn lemma_sweep_grows(c: Sweep, x: int, top: (int, int), bottom: (int, int), acc: Set<(int, int)>)
    ensures
        acc.subset_of(sweep(c, x, top, bottom, acc)),
    decreases (c.range - x) as nat, 2nat, 0nat,
{
    if !(x < 1 || x > c.range) {
        let ty = top_row(c, x, top);
        let by = bottom_row(c, x, bottom);
        let s0 = Scan { top, bottom, was: -1, ended: false, cut: false, seen: acc };
        let s = scan(c, x, ty, by, ty, s0);
        lemma_scan_grows(c, x, ty, by, ty, s0);
        if !(s.ended || s.was != 0 || x >= c.range) {
            lemma_sweep_grows(c, x + 1, s.top, s.bottom, s.seen);
        }
    }
}

proof fn lemma_lit_grows(
    origin: (int, int),
    range: int,
    opaque: spec_fn(int, int) -> bool,
    dist: spec_fn(int, int) -> int,
    octant: int,
    acc: Set<(int, int)>,
)
    ensures
        acc.subset_of(lit_octants(origin, range, opaque, dist, octant, acc)),
    decreases (8 - octant) as nat,
{
    if !(octant < 0 || octant >= 8) {
        let c = Sweep { octant, origin, range, opaque, dist };
        let next = sweep(c, 1, (1, 1), (0, 1), acc);
        lemma_sweep_grows(c, 1, (1, 1), (0, 1), acc);
        lemma_lit_grows(origin, range, opaque, dist, octant + 1, next);
    }
}

/// The origin always sees itself, whatever the range and whichever cells
/// block light.
pub proof fn lemma_origin_visible(
    origin: (int, int),
    range: int,
    opaque: spec_fn(int, int) -> bool,
    dist: spec_fn(int, int) -> int,
)
    ensures
        visible_cells(origin, range, opaque, dist).contains(origin),
{
    lemma_lit_grows(origin, range, opaque, dist, 0, set![origin]);
}

/// The origin and every cell of every octant that `dist` puts within `range`.
pub open spec fn cells_in_range(origin: (int, int), range: int, dist: spec_fn(int, int) -> int) -> Set<(int, int)> {
    Set::new(
        |w: (int, int)|
            w == origin || exists|o: int, x: int, y: int|
                0 <= o < 8 && 1 <= x && 0 <= y <= x && #[trigger] dist(x, y) <= range && w == #[trigger] world(o, origin, x, y),
    )
}

/// Rows `0..=y` of column `x` of an octant that lie within range.
pub open spec fn column_in_range(c: Sweep, x: int, y: int) -> Set<(int, int)> {
    Set::new(
        |w: (int, int)|
            exists|j: int| 0 <= j <= y && #[trigger] (c.dist)(x, j) <= c.range && w == world(c.octant, c.origin, x, j),
    )
}

/// Columns `x..=range` of an octant, as far as they lie within range.
pub open spec fn wedge_in_range(c: Sweep, x: int) -> Set<(int, int)> {
    Set::new(
        |w: (int, int)|
            exists|i: int, j: int|
                x <= i <= c.range && 0 <= j <= i && #[trigger] (c.dist)(i, j) <= c.range && w == world(c.octant, c.origin, i, j),
    )
}

/// Nothing blocks light, and `dist` is exact along the axis of an octant.
pub open spec fn open_field(opaque: spec_fn(int, int) -> bool, dist: spec_fn(int, int) -> int) -> bool {
    &&& forall|a: int, b: int| !#[trigger] opaque(a, b)
    &&& forall|x: int| x >= 1 ==> #[trigger] dist(x, 0) == x
}

proof fn lemma_open_row(c: Sweep, x: int, y: int, s: Scan)
    requires
        open_field(c.opaque, c.dist),
        1 <= x <= c.range,
        0 <= y <= x,
        s.top == (1int, 1int),
        s.bottom == (0int, 1int),
        !s.ended,
        !s.cut,
        s.was <= 0,
    ensures
        ({
            let r = row(c, x, x, 0, y, s);
            &&& r.top == s.top
            &&& r.bottom == s.bottom
            &&& !r.ended
            &&& !r.cut
            &&& r.was <= 0
            &&& ((c.dist)(x, y) <= c.range && x < c.range ==> r.was == 0)
            &&& r.seen == if (c.dist)(x, y) <= c.range {
                s.seen.insert(world(c.octant, c.origin, x, y))
            } else {
                s.seen
            }
        }),
{
    let w = world(c.octant, c.origin, x, y);
    assert(!(c.opaque)(w.0, w.1));
    assert(!blocked(c, x, y));
    assert(above(s.top, 4 * x - 1, 4 * x + 1));
    assert(below(s.bottom, 1, 4 * x - 1));
}

proof fn lemma_open_scan(c: Sweep, x: int, y: int, s: Scan)
    requires
        open_field(c.opaque, c.dist),
        1 <= x <= c.range,
        -1 <= y <= x,
        s.top == (1int, 1int),
        s.bottom == (0int, 1int),
        !s.ended,
        !s.cut,
        s.was <= 0,
    ensures
        ({
            let r = scan(c, x, x, 0, y, s);
            &&& r.top == s.top
            &&& r.bottom == s.bottom
            &&& !r.ended
            &&& !r.cut
            &&& r.was <= 0
            &&& (y >= 0 && x < c.range ==> r.was == 0)
            &&& r.seen == s.seen + column_in_range(c, x, y)
        }),
    decreases y + 1,
{
    if y < 0 {
        assert(column_in_range(c, x, y) =~= Set::<(int, int)>::empty());
        assert(s.seen + column_in_range(c, x, y) =~= s.seen);
    } else {
        lemma_open_row(c, x, y, s);
        let r1 = row(c, x, x, 0, y, s);
        lemma_open_scan(c, x, y - 1, r1);
        if y == 0 {
            assert((c.dist)(x, 0) == x);
        }
        let extra = if (c.dist)(x, y) <= c.range {
            set![world(c.octant, c.origin, x, y)]
        } else {
            Set::<(int, int)>::empty()
        };
        assert(column_in_range(c, x, y) =~= column_in_range(c, x, y - 1) + extra) by {
            assert forall|w: (int, int)| column_in_range(c, x, y).contains(w) implies (column_in_range(c, x, y - 1) + extra).contains(w) by {
                let j = choose|j: int| 0 <= j <= y && #[trigger] (c.dist)(x, j) <= c.range && w == world(c.octant, c.origin, x, j);
                if j < y {
                    assert(column_in_range(c, x, y - 1).contains(w));
                }
            }
            assert forall|w: (int, int)| (column_in_range(c, x, y - 1) + extra).contains(w) implies column_in_range(c, x, y).contains(w) by {
                if column_in_range(c, x, y - 1).contains(w) {
                    let j = choose|j: int| 0 <= j <= y - 1 && #[trigger] (c.dist)(x, j) <= c.range && w == world(c.octant, c.origin, x, j);
                    assert((c.dist)(x, j) <= c.range);
                } else {
                    assert((c.dist)(x, y) <= c.range);
                }
            }
        }
        assert(scan(c, x, x, 0, y, s).seen =~= s.seen + column_in_range(c, x, y));
    }
}

proof fn lemma_open_sweep(c: Sweep, x: int, acc: Set<(int, int)>)
    requires
        open_field(c.opaque, c.dist),
        1 <= x <= c.range + 1,
    ensures
        sweep(c, x, (1, 1), (0, 1), acc) == acc + wedge_in_range(c, x),
    decreases c.range + 1 - x,
{
    if x > c.range {
        assert(wedge_in_range(c, x) =~= Set::<(int, int)>::empty());
        assert(acc + wedge_in_range(c, x) =~= acc);
    } else {
        let s0 = Scan { top: (1, 1), bottom: (0, 1), was: -1, ended: false, cut: false, seen: acc };
        assert(top_row(c, x, (1, 1)) == x);
        assert(bottom_row(c, x, (0, 1)) == 0);
        lemma_open_scan(c, x, x, s0);
        let s = scan(c, x, x, 0, x, s0);
        assert(wedge_in_range(c, x) =~= column_in_range(c, x, x) + wedge_in_range(c, x + 1)) by {
            assert forall|w: (int, int)| wedge_in_range(c, x).contains(w) implies (column_in_range(c, x, x) + wedge_in_range(c, x + 1)).contains(w) by {
                let (i, j) = choose|i: int, j: int|
                    x <= i <= c.range && 0 <= j <= i && #[trigger] (c.dist)(i, j) <= c.range && w == world(c.octant, c.origin, i, j);
                if i == x {
                    assert(column_in_range(c, x, x).contains(w));
                } else {
                    assert(wedge_in_range(c, x + 1).contains(w));
                }
            }
            assert forall|w: (int, int)| (column_in_range(c, x, x) + wedge_in_range(c, x + 1)).contains(w) implies wedge_in_range(c, x).contains(w) by {
                if column_in_range(c, x, x).contains(w) {
                    let j = choose|j: int| 0 <= j <= x && #[trigger] (c.dist)(x, j) <= c.range && w == world(c.octant, c.origin, x, j);
                    assert((c.dist)(x, j) <= c.range);
                } else {
                    let (i, j) = choose|i: int, j: int|
                        x + 1 <= i <= c.range && 0 <= j <= i && #[trigger] (c.dist)(i, j) <= c.range && w == world(c.octant, c.origin, i, j);
                    assert((c.dist)(i, j) <= c.range);
                }
            }
        }
        if x < c.range {
            lemma_open_sweep(c, x + 1, s.seen);
        } else {
            assert(wedge_in_range(c, x + 1) =~= Set::<(int, int)>::empty());
        }
        assert(sweep(c, x, (1, 1), (0, 1), acc) =~= acc + wedge_in_range(c, x));
    }
}

/// What octants `octant` to 7 light on an open field.
pub open spec fn open_octants(
    origin: (int, int),
    range: int,
    opaque: spec_fn(int, int) -> bool,
    dist: spec_fn(int, int) -> int,
    octant: int,
) -> Set<(int, int)> {
    Set::new(
        |w: (int, int)|
            exists|o: int, x: int, y: int|
                octant <= o < 8 && 1 <= x <= range && 0 <= y <= x && #[trigger] dist(x, y) <= range && w == #[trigger] world(o, origin, x, y),
    )
}

proof fn lemma_open_lit(
    origin: (int, int),
    range: int,
    opaque: spec_fn(int, int) -> bool,
    dist: spec_fn(int, int) -> int,
    octant: int,
    acc: Set<(int, int)>,
)
    requires
        open_field(opaque, dist),
        range >= 0,
        0 <= octant <= 8,
    ensures
        lit_octants(origin, range, opaque, dist, octant, acc) == acc + open_octants(origin, range, opaque, dist, octant),
    decreases 8 - octant,
{
    if octant == 8 {
        assert(open_octants(origin, range, opaque, dist, octant) =~= Set::<(int, int)>::empty());
        assert(acc + open_octants(origin, range, opaque, dist, octant) =~= acc);
    } else {
        let c = Sweep { octant, origin, range, opaque, dist };
        lemma_open_sweep(c, 1, acc);
        lemma_open_lit(origin, range, opaque, dist, octant + 1, acc + wedge_in_range(c, 1));
        assert(open_octants(origin, range, opaque, dist, octant) =~= wedge_in_range(c, 1) + open_octants(origin, range, opaque, dist, octant + 1)) by {
            assert forall|w: (int, int)| #[trigger] open_octants(origin, range, opaque, dist, octant).contains(w) implies (wedge_in_range(c, 1) + open_octants(origin, range, opaque, dist, octant + 1)).contains(w) by {
                let (o, x, y) = choose|o: int, x: int, y: int|
                    octant <= o < 8 && 1 <= x <= range && 0 <= y <= x && #[trigger] dist(x, y) <= range && w == #[trigger] world(o, origin, x, y);
                if o == octant {
                    assert(wedge_in_range(c, 1).contains(w));
                } else {
                    assert(open_octants(origin, range, opaque, dist, octant + 1).contains(w));
                }
            }
            assert forall|w: (int, int)| (wedge_in_range(c, 1) + open_octants(origin, range, opaque, dist, octant + 1)).contains(w) implies #[trigger] open_octants(origin, range, opaque, dist, octant).contains(w) by {
                if wedge_in_range(c, 1).contains(w) {
                    let (i, j) = choose|i: int, j: int|
                        1 <= i <= c.range && 0 <= j <= i && #[trigger] (c.dist)(i, j) <= c.range && w == world(c.octant, c.origin, i, j);
                    assert(dist(i, j) <= range && w == world(octant, origin, i, j));
                } else {
                    let (o, x, y) = choose|o: int, x: int, y: int|
                        octant + 1 <= o < 8 && 1 <= x <= range && 0 <= y <= x && #[trigger] dist(x, y) <= range && w == #[trigger] world(o, origin, x, y);
                    assert(dist(x, y) <= range && w == world(o, origin, x, y));
                }
            }
        }
        assert(lit_octants(origin, range, opaque, dist, octant, acc) =~= acc + open_octants(origin, range, opaque, dist, octant));
    }
}

/// With no cell blocking light, the origin sees exactly itself and every
/// cell within range. This holds for a distance that is never less than the
/// depth of a cell in its octant and equals it along the octant's axis, as
/// the whole-cell Euclidean distance does.
pub proof fn lemma_open_field_sees_range(
    origin: (int, int),
    range: int,
    opaque: spec_fn(int, int) -> bool,
    dist: spec_fn(int, int) -> int,
)
    requires
        range >= 0,
        forall|a: int, b: int| !#[trigger] opaque(a, b),
        forall|x: int, y: int| 0 <= y <= x ==> #[trigger] dist(x, y) >= x,
        forall|x: int| x >= 1 ==> #[trigger] dist(x, 0) == x,
    ensures
        visible_cells(origin, range, opaque, dist) == cells_in_range(origin, range, dist),
{
    lemma_open_lit(origin, range, opaque, dist, 0, set![origin]);
    assert(visible_cells(origin, range, opaque, dist) =~= cells_in_range(origin, range, dist)) by {
        assert forall|w: (int, int)| #[trigger] cells_in_range(origin, range, dist).contains(w) implies visible_cells(origin, range, opaque, dist).contains(w) by {
            if w != origin {
                let (o, x, y) = choose|o: int, x: int, y: int|
                    0 <= o < 8 && 1 <= x && 0 <= y <= x && #[trigger] dist(x, y) <= range && w == #[trigger] world(o, origin, x, y);
                assert(dist(x, y) >= x);
                assert(open_octants(origin, range, opaque, dist, 0).contains(w));
            }
        }
        assert forall|w: (int, int)| visible_cells(origin, range, opaque, dist).contains(w) implies #[trigger] cells_in_range(origin, range, dist).contains(w) by {
            if w != origin {
                assert(open_octants(origin, range, opaque, dist, 0).contains(w));
                let (o, x, y) = choose|o: int, x: int, y: int|
                    0 <= o < 8 && 1 <= x <= range && 0 <= y <= x && #[trigger] dist(x, y) <= range && w == #[trigger] world(o, origin, x, y);
                assert(dist(x, y) <= range && w == world(o, origin, x, y));
            }
        }
    }
}

/// Every cell the sweep may look at around `origin`, one column past `range`,
/// fits in `i32`.
pub open spec fn origin_fits(origin: (int, int), range: int) -> bool {
    &&& i32::MIN + range + 1 <= origin.0
    &&& origin.0 + range + 1 <= i32::MAX
    &&& i32::MIN + range + 1 <= origin.1
    &&& origin.1 + range + 1 <= i32::MAX
}

/// A light test that takes any cell and answers the same for the same cell.
pub open spec fn light_test_ok<F: Fn(i32, i32) -> bool>(f: F) -> bool {
    &&& forall|x: i32, y: i32| #[trigger] f.requires((x, y))
    &&& forall|x: i32, y: i32, a: bool, b: bool|
        #[trigger] f.ensures((x, y), a) && #[trigger] f.ensures((x, y), b) ==> a == b
}

/// A distance that takes every cell of an octant (`0 <= y <= x`) and answers
/// the same for the same cell.
pub open spec fn measure_ok<H: Fn(i32, i32) -> i32>(h: H) -> bool {
    &&& forall|x: i32, y: i32| 0 <= y <= x ==> #[trigger] h.requires((x, y))
    &&& forall|x: i32, y: i32, a: i32, b: i32|
        #[trigger] h.ensures((x, y), a) && #[trigger] h.ensures((x, y), b) ==> a == b
}

/// The cells a light test reports as blocking.
pub open spec fn opacity_of<F: Fn(i32, i32) -> bool>(f: F) -> spec_fn(int, int) -> bool {
    |x: int, y: int| f.ensures((x as i32, y as i32), true)
}

/// The distance a distance function reports for each cell.
pub open spec fn distance_of<H: Fn(i32, i32) -> i32>(h: H) -> spec_fn(int, int) -> int {
    |x: int, y: int| (choose|d: i32| #[trigger] h.ensures((x as i32, y as i32), d)) as int
}

/// A slope between 0 and 1 whose denominator the sweep can produce.
pub open spec fn slope_ok(s: (int, int)) -> bool {
    0 <= s.0 <= s.1 && 1 <= s.1 <= 2 * MAX_RANGE
}

proof fn lemma_entry_row(x: int, s: (int, int))
    requires
        x >= 1,
        slope_ok(s),
    ensures
        0 <= ((2 * x - 1) * s.0 + s.1) / (2 * s.1) <= x,
{
    assert((2 * x - 1) * s.0 + s.1 <= (2 * x) * s.1) by (nonlinear_arith)
        requires x >= 1, 0 <= s.0 <= s.1;
    assert(0 <= (2 * x - 1) * s.0) by (nonlinear_arith)
        requires x >= 1, 0 <= s.0;
    assert(((2 * x) * s.1) / (2 * s.1) == x) by (nonlinear_arith)
        requires s.1 >= 1;
    lemma_div_mono((2 * x - 1) * s.0 + s.1, (2 * x) * s.1, 2 * s.1);
}

proof fn lemma_div_mono(a: int, b: int, d: int)
    requires
        0 <= a <= b,
        d > 0,
    ensures
        0 <= a / d <= b / d,
{
    vstd::arithmetic::div_mod::lemma_div_is_ordered(a, b, d);
    vstd::arithmetic::div_mod::lemma_div_pos_is_pos(a, d);
}

/// A vector between 0 and 1 that passes over `a / b` has `a <= b`.
proof fn lemma_under_one(s: (int, int), a: int, b: int)
    requires
        slope_ok(s),
        b >= 0,
        s.0 * b >= s.1 * a,
    ensures
        a <= b,
{
    assert(a <= b) by (nonlinear_arith)
        requires 0 <= s.0 <= s.1, 1 <= s.1, b >= 0, s.0 * b >= s.1 * a;
}

/// A vector between 0 and 1 that passes strictly over `a / b` has `a < b`.
proof fn lemma_strictly_under_one(s: (int, int), a: int, b: int)
    requires
        slope_ok(s),
        b >= 0,
        s.0 * b > s.1 * a,
    ensures
        a < b,
{
    assert(a < b) by (nonlinear_arith)
        requires 0 <= s.0 <= s.1, 1 <= s.1, b >= 0, s.0 * b > s.1 * a;
}

/// The slope `y / x` as an exact ratio of two non-negative integers.
#[derive(Clone, Copy)]
struct Slope {
    y: u64,
    x: u64,
}

impl View for Slope {
    type V = (int, int);

    closed spec fn view(&self) -> (int, int) {
        (self.y as int, self.x as int)
    }
}

impl Slope {
    fn new(y: u64, x: u64) -> (r: Slope)
        ensures
            r@ == (y as int, x as int),
    {
        Slope { y, x }
    }

    fn greater(&self, y: u64, x: u64) -> (r: bool)
        requires
            self.y < 0x4000_0000,
            self.x < 0x4000_0000,
            y < 0x8000_0000,
            x < 0x8000_0000,
        ensures
            r == above(self@, y as int, x as int),
    {
        proof {
            lemma_small_product(self.y as int, x as int);
            lemma_small_product(self.x as int, y as int);
        }
        self.y * x > self.x * y
    }

    fn greater_or_equal(&self, y: u64, x: u64) -> (r: bool)
        requires
            self.y < 0x4000_0000,
            self.x < 0x4000_0000,
            y < 0x8000_0000,
            x < 0x8000_0000,
        ensures
            r == at_or_above(self@, y as int, x as int),
    {
        proof {
            lemma_small_product(self.y as int, x as int);
            lemma_small_product(self.x as int, y as int);
        }
        self.y * x >= self.x * y
    }

    fn less(&self, y: u64, x: u64) -> (r: bool)
        requires
            self.y < 0x4000_0000,
            self.x < 0x4000_0000,
            y < 0x8000_0000,
            x < 0x8000_0000,
        ensures
            r == below(self@, y as int, x as int),
    {
        proof {
            lemma_small_product(self.y as int, x as int);
            lemma_small_product(self.x as int, y as int);
        }
        self.y * x < self.x * y
    }
}

proof fn lemma_small_product(a: int, b: int)
    requires
        0 <= a < 0x4000_0000,
        0 <= b < 0x8000_0000,
    ensures
        0 <= a * b < 0x2000_0000_0000_0000,
{
    assert(0 <= a * b < 0x2000_0000_0000_0000) by (nonlinear_arith)
        requires 0 <= a < 0x4000_0000, 0 <= b < 0x8000_0000;
}

/// Computes fields of view with a caller's light test and distance.
///
/// `blocks_light(x, y)` tells whether the world cell `(x, y)` blocks light; it
/// must answer for any cell, in bounds or not. `get_distance(x, y)` measures
/// the cell at depth `x` and spread `y` of an octant from the octant's
/// origin; it is asked only where `0 <= y <= x`.
pub struct MyVisibility<F, H> where F: Fn(i32, i32) -> bool, H: Fn(i32, i32) -> i32 {
    blocks_light: F,
    get_distance: H,
}

impl<F, H> MyVisibility<F, H> where F: Fn(i32, i32) -> bool, H: Fn(i32, i32) -> i32 {
    pub closed spec fn light(&self) -> F {
        self.blocks_light
    }

    pub closed spec fn measure(&self) -> H {
        self.get_distance
    }

    /// Both functions answer every question the sweep asks, the same way each
    /// time.
    pub open spec fn wf(&self) -> bool {
        light_test_ok(self.light()) && measure_ok(self.measure())
    }

    pub open spec fn opaque(&self) -> spec_fn(int, int) -> bool {
        opacity_of(self.light())
    }

    pub open spec fn dist(&self) -> spec_fn(int, int) -> int {
        distance_of(self.measure())
    }

    /// The light test answers by `opaque`, and the distance by `dist` on every
    /// cell of an octant.
    pub closed spec fn answers(&self, opaque: spec_fn(int, int) -> bool, dist: spec_fn(int, int) -> int) -> bool {
        &&& forall|x: i32, y: i32| #[trigger] self.blocks_light.requires((x, y))
        &&& forall|x: i32, y: i32| 0 <= y <= x ==> #[trigger] self.get_distance.requires((x, y))
        &&& forall|x: i32, y: i32, r: bool|
            #[trigger] self.blocks_light.ensures((x, y), r) ==> r == opaque(x as int, y as int)
        &&& forall|x: i32, y: i32, d: i32|
            0 <= y <= x && #[trigger] self.get_distance.ensures((x, y), d) ==> d as int == dist(x as int, y as int)
    }

    proof fn lemma_wf_answers(&self)
        requires
            self.wf(),
        ensures
            self.answers(self.opaque(), self.dist()),
    {
        assert forall|x: i32, y: i32, r: bool| #[trigger] self.blocks_light.ensures((x, y), r) implies r == (self.opaque())(x as int, y as int) by {
            if !r && self.blocks_light.ensures((x, y), true) {
                assert(true == r);
            }
        }
        assert forall|x: i32, y: i32, d: i32|
            0 <= y <= x && #[trigger] self.get_distance.ensures((x, y), d) implies d as int == (self.dist())(x as int, y as int) by {
            let e = choose|e: i32| #[trigger] self.get_distance.ensures((x as int as i32, y as int as i32), e);
            assert(self.get_distance.ensures((x, y), e));
        }
    }

    pub fn new(blocks_light: F, get_distance: H) -> (r: Self)
        ensures
            r.light() == blocks_light,
            r.measure() == get_distance,
    {
        Self { blocks_light, get_distance }
    }

    /// The cells visible from `origin` within `range_limit`, the origin
    /// among them.
    pub fn compute(&self, origin: Position, range_limit: i32) -> (r: PositionSet)
        requires
            self.wf(),
            0 <= range_limit <= MAX_RANGE,
            origin_fits(cell_of(origin), range_limit as int),
        ensures
            r.wf(),
            r@ == visible_cells(cell_of(origin), range_limit as int, self.opaque(), self.dist()),
    {
        proof {
            self.lemma_wf_answers();
        }
        self.compute_as(origin, range_limit, Ghost(self.opaque()), Ghost(self.dist()))
    }

    /// The cells visible from `origin` within `range_limit`, for functions
    /// that answer by `opaque` and `dist`.
    pub(crate) fn compute_as(
        &self,
        origin: Position,
        range_limit: i32,
        Ghost(opaque): Ghost<spec_fn(int, int) -> bool>,
        Ghost(dist): Ghost<spec_fn(int, int) -> int>,
    ) -> (r: PositionSet)
        requires
            self.answers(opaque, dist),
            0 <= range_limit <= MAX_RANGE,
            origin_fits(cell_of(origin), range_limit as int),
        ensures
            r.wf(),
            r@ == visible_cells(cell_of(origin), range_limit as int, opaque, dist),
    {
        let mut visible_pos = PositionSet::new();
        visible_pos.insert(origin);
        assert(visible_pos@ =~= set![cell_of(origin)]);
        let mut octant: u64 = 0;
        while octant < 8
            invariant
                self.answers(opaque, dist),
                visible_pos.wf(),
                0 <= range_limit <= MAX_RANGE,
                origin_fits(cell_of(origin), range_limit as int),
                0 <= octant <= 8,
                lit_octants(cell_of(origin), range_limit as int, opaque, dist, octant as int, visible_pos@)
                    == visible_cells(cell_of(origin), range_limit as int, opaque, dist),
            decreases 8 - octant,
        {
            self.compute_octant(
                octant,
                &origin,
                range_limit,
                1,
                Slope::new(1, 1),
                Slope::new(0, 1),
                &mut visible_pos,
                Ghost(Sweep { octant: octant as int, origin: cell_of(origin), range: range_limit as int, opaque, dist }),
            );
            octant += 1;
        }
        visible_pos
    }

    fn translate_x(&self, octant: u64, x: u64, y: u64, origin: &Position, range: i32) -> (r: i32)
        requires
            octant < 8,
            0 <= range,
            x <= range + 1,
            y <= range + 1,
            origin_fits(cell_of(*origin), range as int),
        ensures
            r == world(octant as int, cell_of(*origin), x as int, y as int).0,
    {
        if octant == 0 {
            origin.x + x as i32
        } else if octant == 1 {
            origin.x + y as i32
        } else if octant == 2 {
            origin.x - y as i32
        } else if octant == 3 {
            origin.x - x as i32
        } else if octant == 4 {
            origin.x - x as i32
        } else if octant == 5 {
            origin.x - y as i32
        } else if octant == 6 {
            origin.x + y as i32
        } else {
            origin.x + x as i32
        }
    }

    fn translate_y(&self, octant: u64, x: u64, y: u64, origin: &Position, range: i32) -> (r: i32)
        requires
            octant < 8,
            0 <= range,
            x <= range + 1,
            y <= range + 1,
            origin_fits(cell_of(*origin), range as int),
        ensures
            r == world(octant as int, cell_of(*origin), x as int, y as int).1,
    {
        if octant == 0 {
            origin.y - y as i32
        } else if octant == 1 {
            origin.y - x as i32
        } else if octant == 2 {
            origin.y - x as i32
        } else if octant == 3 {
            origin.y - y as i32
        } else if octant == 4 {
            origin.y + y as i32
        } else if octant == 5 {
            origin.y + x as i32
        } else if octant == 6 {
            origin.y + x as i32
        } else {
            origin.y + y as i32
        }
    }

    fn is_blocked(
        &self,
        octant: u64,
        x: u64,
        y: u64,
        origin: &Position,
        range: i32,
        Ghost(c): Ghost<Sweep>,
    ) -> (r: bool)
        requires
            self.answers(c.opaque, c.dist),
            c.octant == octant,
            c.origin == cell_of(*origin),
            octant < 8,
            0 <= range,
            x <= range + 1,
            y <= range + 1,
            origin_fits(cell_of(*origin), range as int),
        ensures
            r == blocked(c, x as int, y as int),
    {
        let wx = self.translate_x(octant, x, y, origin, range);
        let wy = self.translate_y(octant, x, y, origin, range);
        (self.blocks_light)(wx, wy)
    }

    /// Lights, into `visible_pos`, the sector between `top` and `bottom` of
    /// one octant from column `x` outwards.
    #[verifier::rlimit(60)]
    fn compute_octant(
        &self,
        octant: u64,
        origin: &Position,
        range_limit: i32,
        x_from: u64,
        top_from: Slope,
        bottom_from: Slope,
        visible_pos: &mut PositionSet,
        Ghost(c): Ghost<Sweep>,
    )
        requires
            self.answers(c.opaque, c.dist),
            c.octant == octant,
            c.origin == cell_of(*origin),
            c.range == range_limit,
            old(visible_pos).wf(),
            octant < 8,
            0 <= range_limit <= MAX_RANGE,
            origin_fits(cell_of(*origin), range_limit as int),
            1 <= x_from <= range_limit + 1,
            slope_ok(top_from@),
            slope_ok(bottom_from@),
        ensures
            final(visible_pos).wf(),
            final(visible_pos)@ == sweep(
                c,
                x_from as int,
                top_from@,
                bottom_from@,
                old(visible_pos)@,
            ),
        decreases range_limit + 1 - x_from,
    {
        let ghost target = sweep(c, x_from as int, top_from@, bottom_from@, old(visible_pos)@);
        let range = range_limit as u64;
        let mut x = x_from;
        let mut top = top_from;
        let mut bottom = bottom_from;
        let mut done = false;
        while x <= range && !done
            invariant
                done ==> visible_pos@ == target,
                !done ==> sweep(c, x as int, top@, bottom@, visible_pos@) == target,
                visible_pos.wf(),
                octant < 8,
                range == range_limit,
                0 <= range_limit <= MAX_RANGE,
                origin_fits(cell_of(*origin), range_limit as int),
                1 <= x <= range + 1,
                x_from <= x,
                slope_ok(top@),
                slope_ok(bottom@),
                self.answers(c.opaque, c.dist),
                c.octant == octant,
                c.origin == cell_of(*origin),
                c.range == range_limit,
            decreases range + 1 - x, if done { 0int } else { 1int },
        {
            let ghost top0 = top@;
            let ghost bottom0 = bottom@;
            let ghost acc0 = visible_pos@;
            let mut top_y: u64;
            if top.x == 1 {
                top_y = x;
            } else {
                proof {
                    lemma_entry_row(x as int, top@);
                    lemma_small_product(top.y as int, 2 * x - 1);
                }
                top_y = ((x * 2 - 1) * top.y + top.x) / (top.x * 2);
                if self.is_blocked(octant, x, top_y, origin, range_limit, Ghost(c)) {
                    if top.greater_or_equal(top_y * 2 + 1, x * 2) && !self.is_blocked(
                        octant,
                        x,
                        top_y + 1,
                        origin,
                        range_limit,
                        Ghost(c),
                    ) {
                        proof {
                            lemma_under_one(top@, 2 * top_y + 1, 2 * x);
                        }
                        top_y += 1;
                    }
                } else if top.greater(top_y * 2 + 1, x * 2 + 1) && self.is_blocked(
                    octant,
                    x + 1,
                    top_y,
                    origin,
                    range_limit,
                    Ghost(c),
                ) {
                    proof {
                        lemma_strictly_under_one(top@, 2 * top_y + 1, 2 * x + 1);
                    }
                    top_y += 1;
                }
            }
            assert(top_y == top_row(c, x as int, top0));
            let mut bottom_y: u64;
            if bottom.y == 0 {
                bottom_y = 0;
            } else {
                proof {
                    lemma_entry_row(x as int, bottom@);
                    lemma_small_product(bottom.y as int, 2 * x - 1);
                }
                bottom_y = ((x * 2 - 1) * bottom.y + bottom.x) / (bottom.x * 2);
                if bottom.greater_or_equal(bottom_y * 2 + 1, x * 2) && self.is_blocked(
                    octant,
                    x,
                    bottom_y,
                    origin,
                    range_limit,
                    Ghost(c),
                ) && !self.is_blocked(octant, x, bottom_y + 1, origin, range_limit, Ghost(c)) {
                    proof {
                        lemma_under_one(bottom@, 2 * bottom_y + 1, 2 * x);
                    }
                    bottom_y += 1;
                }
            }
            assert(bottom_y == bottom_row(c, x as int, bottom0));
            assert(bottom_y <= x);
            let ghost ty = top_y as int;
            let ghost by = bottom_y as int;
            let ghost goal = scan(
                c,
                x as int,
                ty,
                by,
                ty,
                Scan { top: top0, bottom: bottom0, was: -1, ended: false, cut: false, seen: acc0 },
            );
            let mut was_opaque: i8 = -1;
            let mut ended = false;
            let mut cut = false;
            let mut y: i64 = top_y as i64;
            while y >= bottom_y as i64 && !ended && !cut
                invariant
                    visible_pos.wf(),
                    octant < 8,
                    range == range_limit,
                    0 <= range_limit <= MAX_RANGE,
                    origin_fits(cell_of(*origin), range_limit as int),
                    1 <= x <= range,
                    x_from <= x,
                    slope_ok(top@),
                    slope_ok(bottom@),
                    self.answers(c.opaque, c.dist),
                c.octant == octant,
                c.origin == cell_of(*origin),
                c.range == range_limit,
                    ty == top_y,
                    by == bottom_y,
                    0 <= top_y <= x,
                    0 <= bottom_y <= x,
                    y <= ty,
                    by - 1 <= y || y == ty,
                    -1 <= was_opaque <= 1,
                    was_opaque != -1 ==> y < ty,
                    scan(
                        c,
                        x as int,
                        ty,
                        by,
                        y as int,
                        Scan {
                            top: top@,
                            bottom: bottom@,
                            was: was_opaque as int,
                            ended,
                            cut,
                            seen: visible_pos@,
                        },
                    ) == goal,
                decreases y + 1 - by,
            {
                let ghost cur = Scan {
                    top: top@,
                    bottom: bottom@,
                    was: was_opaque as int,
                    ended,
                    cut,
                    seen: visible_pos@,
                };
                let ghost next = row(c, x as int, ty, by, y as int, cur);
                assert(scan(c, x as int, ty, by, y as int, cur) == scan(c, x as int, ty, by, y - 1, next));
                let yy = y as u64;
                let d = (self.get_distance)(x as i32, yy as i32);
                if d <= range_limit {
                    let is_opaque = self.is_blocked(octant, x, yy, origin, range_limit, Ghost(c));
                    let is_visible = is_opaque || ((yy != top_y || yy == 0 || top.greater(
                        yy * 4 - 1,
                        x * 4 + 1,
                    )) && (yy != bottom_y || bottom.less(yy * 4 + 1, x * 4 - 1)));
                    proof {
                        if yy == 0 {
                            assert(above(top@, -1, 4 * x + 1)) by (nonlinear_arith)
                                requires top@.0 >= 0, top@.1 >= 1, x >= 1;
                        }
                    }
                    assert(is_visible == (is_opaque || ((yy != top_y || above(top@, 4 * yy - 1, 4 * x + 1))
                        && (yy != bottom_y || below(bottom@, 4 * yy + 1, 4 * x - 1)))));
                    if is_visible {
                        let wx = self.translate_x(octant, x, yy, origin, range_limit);
                        let wy = self.translate_y(octant, x, yy, origin, range_limit);
                        visible_pos.insert(Position::new(wx, wy, 0));
                    }
                    if x != range {
                        if is_opaque {
                            if was_opaque == 0 {
                                let nx = x * 2;
                                let ny = yy * 2 + 1;
                                if top.greater(ny, nx) {
                                    proof {
                                        lemma_strictly_under_one(top@, ny as int, nx as int);
                                    }
                                    if yy == bottom_y {
                                        bottom = Slope::new(ny, nx);
                                        cut = true;
                                    } else {
                                        assert(range_limit + 1 - (x + 1) < range_limit + 1 - x_from);
                                        self.compute_octant(
                                            octant,
                                            origin,
                                            range_limit,
                                            x + 1,
                                            top,
                                            Slope::new(ny, nx),
                                            visible_pos,
                                            Ghost(c),
                                        );
                                        was_opaque = 1;
                                    }
                                } else {
                                    if yy == bottom_y {
                                        ended = true;
                                    } else {
                                        was_opaque = 1;
                                    }
                                }
                            } else {
                                was_opaque = 1;
                            }
                        } else {
                            if was_opaque > 0 {
                                let nx = x * 2;
                                let ny = yy * 2 + 1;
                                if bottom.greater_or_equal(ny, nx) {
                                    ended = true;
                                } else {
                                    top = Slope::new(ny, nx);
                                    was_opaque = 0;
                                }
                            } else {
                                was_opaque = 0;
                            }
                        }
                    }
                }
                assert(Scan {
                    top: top@,
                    bottom: bottom@,
                    was: was_opaque as int,
                    ended,
                    cut,
                    seen: visible_pos@,
                } == next);
                y -= 1;
            }
            let ghost last = Scan {
                top: top@,
                bottom: bottom@,
                was: was_opaque as int,
                ended,
                cut,
                seen: visible_pos@,
            };
            assert(scan(c, x as int, ty, by, y as int, last) == last);
            assert(last == goal);
            assert(sweep(c, x as int, top0, bottom0, acc0) == (if goal.ended || goal.was != 0 || x >= range {
                goal.seen
            } else {
                sweep(c, x + 1, goal.top, goal.bottom, goal.seen)
            }));
            if ended || was_opaque != 0 {
                done = true;
            } else {
                x += 1;
            }
        }
    }
}

/// `d` is the whole-cell Euclidean distance of `(x, y)` from `(0, 0)`: the
/// integer square root of `x * x + y * y`, held at `i32::MAX` where it would
/// not fit.
pub open spec fn whole_distance_ok(x: int, y: int, d: int) -> bool {
    let n = x * x + y * y;
    &&& 0 <= d <= i32::MAX
    &&& d < i32::MAX ==> is_floor_sqrt(n, d)
    &&& d == i32::MAX ==> i32::MAX * i32::MAX <= n
}

/// The whole-cell Euclidean distance of each cell from `(0, 0)`.
pub open spec fn euclid_measure() -> spec_fn(int, int) -> int {
    |x: int, y: int| choose|d: int| whole_distance_ok(x, y, d)
}

/// The cells of `walls` block light; no other cell does.
pub open spec fn walls_block(walls: Set<(int, int)>) -> spec_fn(int, int) -> bool {
    |a: int, b: int| walls.contains((a, b))
}

/// `walls` holds the cell `(x, y)`.
pub open spec fn wall_at(walls: Set<(int, int)>, x: i32, y: i32) -> bool {
    walls.contains((x as int, y as int))
}

/// `d` is the whole-cell Euclidean distance of `(x, y)` from `(0, 0)`.
pub open spec fn distance_answer(x: i32, y: i32, d: i32) -> bool {
    whole_distance_ok(x as int, y as int, d as int)
}

proof fn lemma_whole_distance_unique(x: int, y: int, a: int, b: int)
    requires
        whole_distance_ok(x, y, a),
        whole_distance_ok(x, y, b),
    ensures
        a == b,
{
    let n = x * x + y * y;
    if a < b {
        assert((a + 1) * (a + 1) <= b * b) by (nonlinear_arith)
            requires 0 <= a, a + 1 <= b;
        assert((a + 1) * (a + 1) <= i32::MAX * i32::MAX) by (nonlinear_arith)
            requires 0 <= a, a + 1 <= i32::MAX;
    } else if b < a {
        assert((b + 1) * (b + 1) <= a * a) by (nonlinear_arith)
            requires 0 <= b, b + 1 <= a;
        assert((b + 1) * (b + 1) <= i32::MAX * i32::MAX) by (nonlinear_arith)
            requires 0 <= b, b + 1 <= i32::MAX;
    }
}

/// The whole-cell Euclidean distance of `(x, y)` from `(0, 0)`.
pub fn whole_distance(x: i32, y: i32) -> (d: i32)
    ensures
        distance_answer(x, y, d),
{
    let d = euclidean_distance(x, y, 0, 0);
    assert((x - 0) * (x - 0) + (y - 0) * (y - 0) == x * x + y * y);
    d
}

/// The cells visible from `origin` within `range`, where exactly the cells
/// of `walls` block light and distance is whole-cell Euclidean.
pub fn field_of_view(walls: &PositionSet, origin: Position, range: i32) -> (r: PositionSet)
    requires
        0 <= range <= MAX_RANGE,
        origin_fits(cell_of(origin), range as int),
    ensures
        r.wf(),
        r@ == visible_cells(cell_of(origin), range as int, walls_block(walls@), euclid_measure()),
{
    let light = (|x: i32, y: i32| -> (b: bool)
        ensures
            b == wall_at(walls@, x, y),
        { walls.contains_xy(x, y) });
    let v = MyVisibility::new(light, whole_distance);
    proof {
        assert forall|x: i32, y: i32, d: i32|
            0 <= y <= x && #[trigger] v.get_distance.ensures((x, y), d) implies d as int == (euclid_measure())(
            x as int,
            y as int,
        ) by {
            let e = choose|e: int| whole_distance_ok(x as int, y as int, e);
            lemma_whole_distance_unique(x as int, y as int, d as int, e);
        }
        assert(v.answers(walls_block(walls@), euclid_measure()));
    }
    v.compute_as(origin, range, Ghost(walls_block(walls@)), Ghost(euclid_measure()))
}

} // verus!
