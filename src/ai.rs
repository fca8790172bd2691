//! Turning what an agent sees and where it stands into scores, and carrying
//! out the actions a scheduler picks from them.
//!
//! Scores are hundredths: 100 stands for full certainty.

use vstd::prelude::*;

use crate::cell_set::PositionSet;
use crate::components::Viewshed;
use crate::path::{find_path, is_route, route_exists, search_ends, cells_of};
use crate::position::{adjacent, cell_of, Position};

verus! {

/// The score of a monster that sees the player.
pub const PLAYER_VISIBLE_SCORE: u32 = 60;

/// The score of a monster standing next to the player.
pub const IN_ATTACK_RANGE_SCORE: u32 = 100;

/// Where an action stands in the scheduler's lifecycle.
#[derive(Debug, Clone, Copy, PartialEq, Eq, Structural)]
pub enum ActionState {
    /// Idle: nothing asked yet.
    Init,
    /// The scheduler asks the action to run.
    Requested,
    Executing,
    Cancelled,
    Success,
    Failure,
}

/// The eight cells around `c`.
pub open spec fn ring_of(c: (int, int)) -> Set<(int, int)> {
    Set::new(|q: (int, int)| adjacent(q, c))
}

/// The state an action is left in when it is found in a state other than
/// idle or requested: success, so that the scheduler does not stall.
pub open spec fn settled(state: ActionState) -> ActionState {
    match state {
        ActionState::Init => ActionState::Init,
        _ => ActionState::Success,
    }
}

/// The cells around `p`, where an agent may attack it from.
pub fn ring_around(p: Position) -> (r: PositionSet)
    requires
        i32::MIN < p.x < i32::MAX,
        i32::MIN < p.y < i32::MAX,
    ensures
        r.wf(),
        r@ == ring_of(cell_of(p)),
{
    let around = p.possible_successors();
    let mut r = PositionSet::new();
    let mut i: usize = 0;
    while i < around.len()
        invariant
            r.wf(),
            0 <= i <= 8,
            around@.len() == 8,
            forall|k: int|
                0 <= k < 8 ==> {
                    &&& #[trigger] around@[k].x == p.x + crate::position::neighbour_offsets()[k].0
                    &&& around@[k].y == p.y + crate::position::neighbour_offsets()[k].1
                },
            r@ == Set::new(|q: (int, int)| exists|k: int| 0 <= k < i && q == #[trigger] cell_of(around@[k])),
        decreases 8 - i,
    {
        let ghost before = r@;
        r.insert(around[i]);
        assert(r@ =~= Set::new(|q: (int, int)| exists|k: int| 0 <= k < i + 1 && q == #[trigger] cell_of(around@[k]))) by {
            assert forall|q: (int, int)| r@.contains(q) implies exists|k: int| 0 <= k < i + 1 && q == #[trigger] cell_of(around@[k]) by {
                if q == cell_of(around@[i as int]) {
                } else {
                    assert(before.contains(q));
                }
            }
        }
        i += 1;
    }
    assert(r@ =~= ring_of(cell_of(p))) by {
        assert forall|q: (int, int)| r@.contains(q) implies ring_of(cell_of(p)).contains(q) by {
            let k = choose|k: int| 0 <= k < 8 && q == #[trigger] cell_of(around@[k]);
            assert(around@[k].x == p.x + crate::position::neighbour_offsets()[k].0);
        }
        assert forall|q: (int, int)| ring_of(cell_of(p)).contains(q) implies r@.contains(q) by {
            let dx = q.0 - p.x;
            let dy = q.1 - p.y;
            let k: int = if dx == 0 && dy == 1 {
                0
            } else if dx == 1 && dy == 1 {
                1
            } else if dx == 1 && dy == 0 {
                2
            } else if dx == 1 && dy == -1 {
                3
            } else if dx == 0 && dy == -1 {
                4
            } else if dx == -1 && dy == -1 {
                5
            } else if dx == -1 && dy == 0 {
                6
            } else {
                7
            };
            assert(around@[k].x == p.x + crate::position::neighbour_offsets()[k].0);
            assert(q == cell_of(around@[k]));
        }
    }
    r
}

/// The score for a monster whose field of view is `viewshed` (`None` where
/// it has none): `PLAYER_VISIBLE_SCORE` where the player's cell is in it,
/// else 0. It reads the field of view as last computed.
pub fn player_visible_scorer_system(viewshed: Option<&Viewshed>, player: &Position) -> (r: u32)
    ensures
        r == match viewshed {
            Some(v) => if v.visible_tiles@.contains(cell_of(*player)) {
                PLAYER_VISIBLE_SCORE
            } else {
                0
            },
            None => 0,
        },
{
    match viewshed {
        Some(v) => if v.contains(player) {
            PLAYER_VISIBLE_SCORE
        } else {
            0
        },
        None => 0,
    }
}

/// The score for a monster at `monster` (`None` where it has no position):
/// `IN_ATTACK_RANGE_SCORE` where it stands next to the player, by a side or
/// a corner, else 0.
pub fn player_in_meelee_range_scorer(monster: Option<Position>, player: &Position) -> (r: u32)
    ensures
        r == match monster {
            Some(m) => if adjacent(cell_of(m), cell_of(*player)) {
                IN_ATTACK_RANGE_SCORE
            } else {
                0
            },
            None => 0,
        },
{
    match monster {
        Some(m) => if m.next_to(player) {
            IN_ATTACK_RANGE_SCORE
        } else {
            0
        },
        None => 0,
    }
}

/// Cursing at the player: a request succeeds at once and asks for a line in
/// the log (the `true` of the result), with no other effect.
pub fn curse_at_player_action_system(state: ActionState) -> (r: (ActionState, bool))
    ensures
        r == match state {
            ActionState::Requested => (ActionState::Success, true),
            _ => (settled(state), false),
        },
{
    match state {
        ActionState::Requested => (ActionState::Success, true),
        ActionState::Init => (ActionState::Init, false),
        _ => (ActionState::Success, false),
    }
}

/// Attacking the player in melee. A request from an agent that still
/// exists succeeds and asks for an attack on the player (the `true` of the
/// result); from one that no longer exists, it fails.
pub fn meelee_attack_player_action(state: ActionState, actor_exists: bool) -> (r: (ActionState, bool))
    ensures
        r == match state {
            ActionState::Requested => if actor_exists {
                (ActionState::Success, true)
            } else {
                (ActionState::Failure, false)
            },
            _ => (settled(state), false),
        },
{
    match state {
        ActionState::Requested => if actor_exists {
            (ActionState::Success, true)
        } else {
            (ActionState::Failure, false)
        },
        ActionState::Init => (ActionState::Init, false),
        _ => (ActionState::Success, false),
    }
}

/// Chasing the player. On a request, the agent at `agent` searches a route
/// to a cell next to the player, around `blockers` (terrain) and
/// `occupants` (the other agents), and takes its first step; the new
/// position is the second element of the result. Finding no route, or
/// standing next to the player already, it stays where it is. Either way
/// the action succeeds. An agent that no longer exists (`agent` is `None`)
/// fails.
pub fn chase_player(
    state: ActionState,
    agent: Option<Position>,
    player: Position,
    blockers: &PositionSet,
    occupants: &PositionSet,
) -> (r: (ActionState, Option<Position>))
    requires
        i32::MIN < player.x < i32::MAX,
        i32::MIN < player.y < i32::MAX,
        state == ActionState::Requested && agent is Some ==> search_ends(
            cell_of(agent->0),
            blockers@,
            occupants@,
            ring_of(cell_of(player)),
        ),
    ensures
        state != ActionState::Requested ==> r == (settled(state), None::<Position>),
        state == ActionState::Requested && agent is None ==> r == (ActionState::Failure, None::<Position>),
        state == ActionState::Requested && agent is Some ==> {
            let start = cell_of(agent->0);
            let ring = ring_of(cell_of(player));
            &&& r.0 == ActionState::Success
            &&& (r.1 is None <==> (!route_exists(start, blockers@, occupants@, ring) || ring.contains(start)))
            &&& (r.1 is Some ==> r.1->0.z == agent->0.z && exists|p: Seq<(int, int)>|
                is_route(p, start, blockers@, occupants@, ring) && p.len() >= 2 && p[1] == cell_of(r.1->0))
        },
{
    match state {
        ActionState::Requested => {
            match agent {
                None => (ActionState::Failure, None),
                Some(pos) => {
                    let ring = ring_around(player);
                    match find_path(pos, blockers, occupants, &ring) {
                        None => (ActionState::Success, None),
                        Some(path) => {
                            proof {
                                let cells = cells_of(path@);
                                assert(cells.len() == path@.len());
                                assert(is_route(cells, cell_of(pos), blockers@, occupants@, ring@));
                                assert(cells[0] == cell_of(path@[0]));
                                if ring@.contains(cell_of(pos)) {
                                    assert(cells.len() == 1);
                                }
                                if path@.len() == 1 {
                                    assert(cells.last() == cells[0]);
                                }
                            }
                            if path.len() >= 2 {
                                let step = path[1];
                                proof {
                                    let cells = cells_of(path@);
                                    assert(cells[1] == cell_of(step));
                                    assert(path@[1].z == pos.z);
                                    if ring@.contains(cell_of(pos)) {
                                        assert(!ring@.contains(cells[0]));
                                    }
                                }
                                (ActionState::Success, Some(step))
                            } else {
                                (ActionState::Success, None)
                            }
                        },
                    }
                },
            }
        },
        ActionState::Init => (ActionState::Init, None),
        _ => (ActionState::Success, None),
    }
}

} // verus!
