//! Shortest-route search on the eight-neighbour grid, with blocked and
//! occupied cells.

use vstd::prelude::*;

use crate::cell_set::PositionSet;
use crate::position::{adjacent, cell_of, euclidean_distance, in_i32, king_distance, Position};

verus! {

/// The cell a pair of coordinates names.
pub open spec fn cell2(t: (i32, i32)) -> (int, int) {
    (t.0 as int, t.1 as int)
}

/// A cell may be entered when it is a goal, or when neither terrain nor
/// another agent holds it.
pub open spec fn can_enter(
    c: (int, int),
    blockers: Set<(int, int)>,
    occupants: Set<(int, int)>,
    goal: Set<(int, int)>,
) -> bool {
    goal.contains(c) || (!blockers.contains(c) && !occupants.contains(c))
}

/// One move of the search: to a neighbouring cell that may be entered.
pub open spec fn step_ok(
    a: (int, int),
    b: (int, int),
    blockers: Set<(int, int)>,
    occupants: Set<(int, int)>,
    goal: Set<(int, int)>,
) -> bool {
    adjacent(a, b) && in_i32(b) && can_enter(b, blockers, occupants, goal)
}

/// `p` leads from `start` by single moves to a goal cell, and meets no goal
/// before its last cell.
pub open spec fn is_route(
    p: Seq<(int, int)>,
    start: (int, int),
    blockers: Set<(int, int)>,
    occupants: Set<(int, int)>,
    goal: Set<(int, int)>,
) -> bool {
    &&& p.len() >= 1
    &&& p[0] == start
    &&& goal.contains(p.last())
    &&& forall|i: int| 0 <= i < p.len() - 1 ==> !goal.contains(#[trigger] p[i])
    &&& forall|i: int|
        0 <= i < p.len() - 1 ==> step_ok(#[trigger] p[i], p[i + 1], blockers, occupants, goal)
}

pub open spec fn route_exists(
    start: (int, int),
    blockers: Set<(int, int)>,
    occupants: Set<(int, int)>,
    goal: Set<(int, int)>,
) -> bool {
    exists|p: Seq<(int, int)>| is_route(p, start, blockers, occupants, goal)
}

/// No move leads out of `s`.
pub open spec fn closed_under_steps(
    s: Set<(int, int)>,
    blockers: Set<(int, int)>,
    occupants: Set<(int, int)>,
    goal: Set<(int, int)>,
) -> bool {
    forall|a: (int, int), b: (int, int)|
        #[trigger] s.contains(a) && step_ok(a, b, blockers, occupants, goal) ==> #[trigger] s.contains(b)
}

/// The search from `start` comes to an end: a route exists, or the cells
/// reachable from `start` lie within a finite region that no move leaves.
pub open spec fn search_ends(
    start: (int, int),
    blockers: Set<(int, int)>,
    occupants: Set<(int, int)>,
    goal: Set<(int, int)>,
) -> bool {
    route_exists(start, blockers, occupants, goal) || exists|s: Set<(int, int)>|
        s.finite() && s.contains(start) && closed_under_steps(s, blockers, occupants, goal)
}

/// The cells of a list of positions, in order.
pub open spec fn cells_of(v: Seq<Position>) -> Seq<(int, int)> {
    v.map_values(|p: Position| cell_of(p))
}

/// Each listed move leads from `p` by one step of cost 1.
pub open spec fn moves_ok(
    p: (i32, i32),
    v: Seq<((i32, i32), u64)>,
    blockers: Set<(int, int)>,
    occupants: Set<(int, int)>,
    goal: Set<(int, int)>,
) -> bool {
    forall|i: int|
        #![trigger v[i]]
        0 <= i < v.len() ==> v[i].1 == 1 && step_ok(
            cell2(p),
            cell2(v[i].0),
            blockers,
            occupants,
            goal,
        )
}

/// Offers the move from `p` by `(dx, dy)` when it is one.
fn offer_step(
    p: (i32, i32),
    dx: i32,
    dy: i32,
    blockers: &PositionSet,
    occupants: &PositionSet,
    goal: &PositionSet,
    out: &mut Vec<((i32, i32), u64)>,
)
    requires
        -1 <= dx <= 1,
        -1 <= dy <= 1,
        dx != 0 || dy != 0,
        moves_ok(p, old(out)@, blockers@, occupants@, goal@),
    ensures
        final(out)@.len() >= old(out)@.len(),
        forall|i: int| 0 <= i < old(out)@.len() ==> final(out)@[i] == old(out)@[i],
        moves_ok(p, final(out)@, blockers@, occupants@, goal@),
        step_ok(cell2(p), (p.0 + dx, p.1 + dy), blockers@, occupants@, goal@) ==> exists|i: int|
            0 <= i < final(out)@.len() && cell2(#[trigger] final(out)@[i].0) == (p.0 + dx, p.1 + dy),
{
    let x: i64 = p.0 as i64 + dx as i64;
    let y: i64 = p.1 as i64 + dy as i64;
    if i32::MIN as i64 <= x && x <= i32::MAX as i64 && i32::MIN as i64 <= y && y <= i32::MAX as i64 {
        let q: (i32, i32) = (x as i32, y as i32);
        if goal.contains_xy(q.0, q.1) || (!blockers.contains_xy(q.0, q.1) && !occupants.contains_xy(
            q.0,
            q.1,
        )) {
            let ghost prev = out@;
            assert(moves_ok(p, prev, blockers@, occupants@, goal@));
            assert(adjacent(cell2(p), cell2(q)));
            out.push((q, 1));
            assert(out@ == prev.push((q, 1u64)));
            assert(moves_ok(p, out@, blockers@, occupants@, goal@)) by {
                assert forall|i: int| 0 <= i < out@.len() implies out@[i].1 == 1 && step_ok(
                    cell2(p),
                    cell2(#[trigger] out@[i].0),
                    blockers@,
                    occupants@,
                    goal@,
                ) by {
                    if i < prev.len() {
                        assert(out@[i] == prev[i]);
                    } else {
                        assert(out@[i] == (q, 1u64));
                        assert(in_i32(cell2(q)));
                        assert(can_enter(cell2(q), blockers@, occupants@, goal@));
                    }
                }
            }
            assert(cell2(out@[out@.len() - 1].0) == (p.0 + dx, p.1 + dy));
        }
    }
}

/// The moves the search may make from `p`, each of cost 1.
pub fn step_options(
    p: (i32, i32),
    blockers: &PositionSet,
    occupants: &PositionSet,
    goal: &PositionSet,
) -> (r: Vec<((i32, i32), u64)>)
    ensures
        moves_ok(p, r@, blockers@, occupants@, goal@),
        forall|q: (int, int)|
            step_ok(cell2(p), q, blockers@, occupants@, goal@) ==> exists|i: int|
                0 <= i < r@.len() && cell2(#[trigger] r@[i].0) == q,
{
    let mut out: Vec<((i32, i32), u64)> = Vec::new();
    offer_step(p, 0, 1, blockers, occupants, goal, &mut out);
    let ghost o1 = out@;
    offer_step(p, 1, 1, blockers, occupants, goal, &mut out);
    let ghost o2 = out@;
    offer_step(p, 1, 0, blockers, occupants, goal, &mut out);
    let ghost o3 = out@;
    offer_step(p, 1, -1, blockers, occupants, goal, &mut out);
    let ghost o4 = out@;
    offer_step(p, 0, -1, blockers, occupants, goal, &mut out);
    let ghost o5 = out@;
    offer_step(p, -1, -1, blockers, occupants, goal, &mut out);
    let ghost o6 = out@;
    offer_step(p, -1, 0, blockers, occupants, goal, &mut out);
    let ghost o7 = out@;
    offer_step(p, -1, 1, blockers, occupants, goal, &mut out);
    assert forall|q: (int, int)| step_ok(cell2(p), q, blockers@, occupants@, goal@) implies exists|i: int|
        0 <= i < out@.len() && cell2(#[trigger] out@[i].0) == q by {
        let dx = q.0 - p.0;
        let dy = q.1 - p.1;
        assert(-1 <= dx <= 1 && -1 <= dy <= 1 && (dx != 0 || dy != 0));
        let i: int = if dx == 0 && dy == 1 {
            choose|i: int| 0 <= i < o1.len() && cell2(#[trigger] o1[i].0) == q
        } else if dx == 1 && dy == 1 {
            choose|i: int| 0 <= i < o2.len() && cell2(#[trigger] o2[i].0) == q
        } else if dx == 1 && dy == 0 {
            choose|i: int| 0 <= i < o3.len() && cell2(#[trigger] o3[i].0) == q
        } else if dx == 1 && dy == -1 {
            choose|i: int| 0 <= i < o4.len() && cell2(#[trigger] o4[i].0) == q
        } else if dx == 0 && dy == -1 {
            choose|i: int| 0 <= i < o5.len() && cell2(#[trigger] o5[i].0) == q
        } else if dx == -1 && dy == -1 {
            choose|i: int| 0 <= i < o6.len() && cell2(#[trigger] o6[i].0) == q
        } else if dx == -1 && dy == 0 {
            choose|i: int| 0 <= i < o7.len() && cell2(#[trigger] o7[i].0) == q
        } else {
            choose|i: int| 0 <= i < out@.len() && cell2(#[trigger] out@[i].0) == q
        };
        assert(cell2(out@[i].0) == q);
    }
    out
}

/// The estimate the search ranks cells by: a third of the whole-cell
/// distance back to the start, which favours cells near the start.
fn heuristic(p: (i32, i32), start: (i32, i32)) -> (r: u64)
    ensures
        r <= i32::MAX,
{
    let dx: i64 = p.0 as i64 - start.0 as i64;
    let dy: i64 = p.1 as i64 - start.1 as i64;
    if i32::MIN as i64 <= dx && dx <= i32::MAX as i64 && i32::MIN as i64 <= dy && dy
        <= i32::MAX as i64 {
        (euclidean_distance(p.0, p.1, start.0, start.1) / 3) as u64
    } else {
        (i32::MAX / 3) as u64
    }
}

/// Relies on pathfinding::directed::astar::astar. The path it returns is
/// rebuilt from the parent links of the search, each set from the successor
/// list of an expanded node; it starts at `start`, ends at the first node
/// found to pass `success`, and every node before that was expanded, so
/// failed `success`. It returns `None` only once every reachable node has
/// been expanded. On a search that never ends it does not return.
#[verifier::external_body]
fn astar_route(
    start: (i32, i32),
    blockers: &PositionSet,
    occupants: &PositionSet,
    goal: &PositionSet,
) -> (r: Option<Vec<(i32, i32)>>)
    requires
        search_ends(cell2(start), blockers@, occupants@, goal@),
    ensures
        match r {
            Some(p) => is_route(p@.map_values(|t: (i32, i32)| cell2(t)), cell2(start), blockers@, occupants@, goal@),
            None => !route_exists(cell2(start), blockers@, occupants@, goal@),
        },
{
    pathfinding::directed::astar::astar(
        &start,
        |p| step_options(*p, blockers, occupants, goal),
        |p| heuristic(*p, start),
        |p| goal.contains_xy(p.0, p.1),
    ).map(|(path, _cost)| path)
}

/// A route from `start` to a goal cell, moving one king step at a time onto
/// cells that are goals or free of both blockers and occupants. The route
/// holds the start and the goal cell it ends on, on the layer of `start`.
/// `None` means that no such route exists.
pub fn find_path(
    start: Position,
    static_blockers: &PositionSet,
    dynamic_occupants: &PositionSet,
    goal: &PositionSet,
) -> (r: Option<Vec<Position>>)
    requires
        search_ends(cell_of(start), static_blockers@, dynamic_occupants@, goal@),
    ensures
        match r {
            Some(p) => {
                &&& is_route(cells_of(p@), cell_of(start), static_blockers@, dynamic_occupants@, goal@)
                &&& forall|i: int| 0 <= i < p@.len() ==> (#[trigger] p@[i]).z == start.z
            },
            None => !route_exists(cell_of(start), static_blockers@, dynamic_occupants@, goal@),
        },
{
    match astar_route((start.x, start.y), static_blockers, dynamic_occupants, goal) {
        None => None,
        Some(steps) => {
            let ghost route = steps@.map_values(|t: (i32, i32)| cell2(t));
            let mut out: Vec<Position> = Vec::new();
            let mut i: usize = 0;
            while i < steps.len()
                invariant
                    0 <= i <= steps@.len(),
                    route == steps@.map_values(|t: (i32, i32)| cell2(t)),
                    out@.len() == i,
                    cells_of(out@) == route.subrange(0, i as int),
                    forall|k: int| 0 <= k < out@.len() ==> (#[trigger] out@[k]).z == start.z,
                decreases steps@.len() - i,
            {
                let ghost prev = out@;
                out.push(Position::new(steps[i].0, steps[i].1, start.z));
                assert(out@ == prev.push(out@[i as int]));
                assert(cells_of(out@) =~= cells_of(prev).push(cell_of(out@[i as int])));
                assert(cells_of(out@) =~= route.subrange(0, i + 1));
                i += 1;
            }
            assert(route.subrange(0, steps@.len() as int) =~= route);
            Some(out)
        },
    }
}

/// A route enters a cell that terrain blocks, or that another agent holds,
/// only where that cell is a goal: past its start, every cell of a route
/// lies outside both sets unless it passes the goal test.
pub proof fn lemma_route_avoids_blockers(
    p: Seq<(int, int)>,
    start: (int, int),
    blockers: Set<(int, int)>,
    occupants: Set<(int, int)>,
    goal: Set<(int, int)>,
)
    requires
        is_route(p, start, blockers, occupants, goal),
    ensures
        forall|i: int|
            1 <= i < p.len() && (blockers.contains(#[trigger] p[i]) || occupants.contains(p[i]))
                ==> goal.contains(p[i]),
{
    assert forall|i: int|
        1 <= i < p.len() && (blockers.contains(#[trigger] p[i]) || occupants.contains(p[i]))
            implies goal.contains(p[i]) by {
        assert(step_ok(p[i - 1], p[i], blockers, occupants, goal));
    }
}

/// A start walled in has no route: where a region holds the start, no move
/// leads out of it and none of its cells is a goal, no route exists, so the
/// search answers `None`.
pub proof fn lemma_enclosed_start_has_no_route(
    region: Set<(int, int)>,
    start: (int, int),
    blockers: Set<(int, int)>,
    occupants: Set<(int, int)>,
    goal: Set<(int, int)>,
)
    requires
        region.contains(start),
        closed_under_steps(region, blockers, occupants, goal),
        forall|c: (int, int)| region.contains(c) ==> !goal.contains(c),
    ensures
        !route_exists(start, blockers, occupants, goal),
{
    if route_exists(start, blockers, occupants, goal) {
        let p = choose|p: Seq<(int, int)>| is_route(p, start, blockers, occupants, goal);
        lemma_route_stays_in(region, p, start, blockers, occupants, goal, p.len() - 1);
    }
}

proof fn lemma_route_stays_in(
    region: Set<(int, int)>,
    p: Seq<(int, int)>,
    start: (int, int),
    blockers: Set<(int, int)>,
    occupants: Set<(int, int)>,
    goal: Set<(int, int)>,
    k: int,
)
    requires
        region.contains(start),
        closed_under_steps(region, blockers, occupants, goal),
        is_route(p, start, blockers, occupants, goal),
        0 <= k < p.len(),
    ensures
        region.contains(p[k]),
    decreases k,
{
    if k > 0 {
        lemma_route_stays_in(region, p, start, blockers, occupants, goal, k - 1);
        assert(step_ok(p[k - 1], p[k], blockers, occupants, goal));
    }
}

/// A route is never shorter than one cell more than the king distance from
/// its start to the goal cell it ends on.
pub proof fn lemma_route_length(
    p: Seq<(int, int)>,
    start: (int, int),
    blockers: Set<(int, int)>,
    occupants: Set<(int, int)>,
    goal: Set<(int, int)>,
)
    requires
        is_route(p, start, blockers, occupants, goal),
    ensures
        goal.contains(p.last()),
        p.len() >= 1 + king_distance(start, p.last()),
{
    lemma_prefix_distance(p, start, blockers, occupants, goal, p.len() - 1);
}

proof fn lemma_prefix_distance(
    p: Seq<(int, int)>,
    start: (int, int),
    blockers: Set<(int, int)>,
    occupants: Set<(int, int)>,
    goal: Set<(int, int)>,
    k: int,
)
    requires
        is_route(p, start, blockers, occupants, goal),
        0 <= k < p.len(),
    ensures
        king_distance(start, p[k]) <= k,
    decreases k,
{
    if k > 0 {
        lemma_prefix_distance(p, start, blockers, occupants, goal, k - 1);
        assert(step_ok(p[k - 1], p[k], blockers, occupants, goal));
    }
}

} // verus!
