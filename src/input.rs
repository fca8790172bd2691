//! The player's turn: from the keys pressed to a move, an attack or a wait.

use vstd::prelude::*;

use crate::cell_set::PositionSet;
use crate::components::MovementRequest;
use crate::position::{cell_of, Position};

verus! {

/// The move keys pressed this frame, one flag for each direction, and the
/// key that skips the turn.
#[derive(Debug, Clone, Copy, PartialEq, Eq, Default)]
pub struct Keys {
    pub right: bool,
    pub left: bool,
    pub up: bool,
    pub down: bool,
    pub up_right: bool,
    pub down_right: bool,
    pub down_left: bool,
    pub up_left: bool,
    pub skip: bool,
}

/// What the player's input asks for.
#[derive(Debug, Clone, Copy, PartialEq, Eq)]
pub enum PlayerAction {
    /// Nothing happens and it stays the player's turn.
    Wait,
    /// The player gives up the turn.
    Skip,
    /// The player attacks the monster of this index.
    Attack(usize),
    /// The player moves.
    Move(MovementRequest),
}

/// The outcome of the player's input: which way the sprite should now face
/// (`Some(true)` for right), and the action.
#[derive(Debug, Clone, Copy, PartialEq, Eq)]
pub struct PlayerTurn {
    pub face_right: Option<bool>,
    pub action: PlayerAction,
}

pub open spec fn flag(b: bool) -> int {
    if b { 1 } else { 0 }
}

/// The sideways step the keys add up to.
pub open spec fn step_x(k: Keys) -> int {
    flag(k.right) - flag(k.left) + flag(k.up_right) + flag(k.down_right) - flag(k.down_left) - flag(k.up_left)
}

/// The upward step the keys add up to.
pub open spec fn step_y(k: Keys) -> int {
    flag(k.up) - flag(k.down) + flag(k.up_right) - flag(k.down_right) - flag(k.down_left) + flag(k.up_left)
}

/// The way the sprite faces after the keys: the last pressed of right,
/// left, up-right, down-right, down-left, up-left decides.
pub open spec fn facing(k: Keys) -> Option<bool> {
    if k.up_left || k.down_left {
        Some(false)
    } else if k.down_right || k.up_right {
        Some(true)
    } else if k.left {
        Some(false)
    } else if k.right {
        Some(true)
    } else {
        None
    }
}

/// The first monster standing on cell `c`, if any.
pub open spec fn first_at(monsters: Seq<Position>, c: (int, int), i: int) -> bool {
    0 <= i < monsters.len() && cell_of(monsters[i]) == c && forall|j: int|
        0 <= j < i ==> cell_of(#[trigger] monsters[j]) != c
}

fn flag_value(b: bool) -> (r: i32)
    ensures
        r == flag(b),
{
    if b {
        1
    } else {
        0
    }
}

/// The step the keys add up to, and the way the sprite faces after them.
fn key_steps(k: Keys) -> (r: (i32, i32, Option<bool>))
    ensures
        r.0 == step_x(k),
        r.1 == step_y(k),
        r.2 == facing(k),
        -3 <= r.0 <= 3,
        -3 <= r.1 <= 3,
{
    let x = flag_value(k.right) - flag_value(k.left) + flag_value(k.up_right) + flag_value(k.down_right)
        - flag_value(k.down_left) - flag_value(k.up_left);
    let y = flag_value(k.up) - flag_value(k.down) + flag_value(k.up_right) - flag_value(k.down_right)
        - flag_value(k.down_left) + flag_value(k.up_left);
    let face = if k.up_left || k.down_left {
        Some(false)
    } else if k.down_right || k.up_right {
        Some(true)
    } else if k.left {
        Some(false)
    } else if k.right {
        Some(true)
    } else {
        None
    };
    (x, y, face)
}

/// Decides the player's action from the keys pressed. Skipping gives up the
/// turn. Otherwise the steps of the keys add up to one move; a monster on
/// the cell it leads to is attacked (the first listed, where several
/// stand there), a cell in `impassable` stops it, and any other cell is
/// moved to. Keys that cancel out ask for nothing.
pub fn player_input(
    keys: Keys,
    player: Position,
    monsters: &Vec<Position>,
    impassable: &PositionSet,
) -> (r: PlayerTurn)
    requires
        i32::MIN + 3 <= player.x <= i32::MAX - 3,
        i32::MIN + 3 <= player.y <= i32::MAX - 3,
    ensures
        r.face_right == facing(keys),
        ({
            let target = (player.x + step_x(keys), player.y + step_y(keys));
            if keys.skip {
                r.action == PlayerAction::Skip
            } else if step_x(keys) == 0 && step_y(keys) == 0 {
                r.action == PlayerAction::Wait
            } else if exists|i: int| first_at(monsters@, target, i) {
                exists|i: int| first_at(monsters@, target, i) && r.action == PlayerAction::Attack(i as usize)
            } else if impassable@.contains(target) {
                r.action == PlayerAction::Wait
            } else {
                r.action == PlayerAction::Move(MovementRequest { x: step_x(keys) as i32, y: step_y(keys) as i32 })
            }
        }),
{
    let (x, y, face) = key_steps(keys);
    if keys.skip {
        return PlayerTurn { face_right: face, action: PlayerAction::Skip };
    }
    if x == 0 && y == 0 {
        return PlayerTurn { face_right: face, action: PlayerAction::Wait };
    }
    let tx = player.x + x;
    let ty = player.y + y;
    let ghost target = (tx as int, ty as int);
    let mut i: usize = 0;
    while i < monsters.len()
        invariant
            0 <= i <= monsters@.len(),
            target == (tx as int, ty as int),
            tx == player.x + step_x(keys),
            ty == player.y + step_y(keys),
            x == step_x(keys),
            y == step_y(keys),
            face == facing(keys),
            !keys.skip,
            !(x == 0 && y == 0),
            forall|j: int| 0 <= j < i ==> cell_of(#[trigger] monsters@[j]) != target,
        decreases monsters@.len() - i,
    {
        if monsters[i].x == tx && monsters[i].y == ty {
            assert(first_at(monsters@, target, i as int));
            return PlayerTurn { face_right: face, action: PlayerAction::Attack(i) };
        }
        i += 1;
    }
    assert(!exists|k: int| first_at(monsters@, target, k));
    if impassable.contains_xy(tx, ty) {
        return PlayerTurn { face_right: face, action: PlayerAction::Wait };
    }
    PlayerTurn { face_right: face, action: PlayerAction::Move(MovementRequest { x, y }) }
}

/// The position after moving by `request`, on the same layer.
pub fn process_movement(position: Position, request: MovementRequest) -> (r: Position)
    requires
        i32::MIN <= position.x + request.x <= i32::MAX,
        i32::MIN <= position.y + request.y <= i32::MAX,
    ensures
        r.x == position.x + request.x,
        r.y == position.y + request.y,
        r.z == position.z,
{
    Position { x: position.x + request.x, y: position.y + request.y, z: position.z }
}

} // verus!
