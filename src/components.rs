//! Markers and small records attached to the agents and tiles of the game.

use vstd::prelude::*;

use crate::cell_set::PositionSet;
use crate::fov::{euclid_measure, field_of_view, origin_fits, visible_cells, walls_block};
use crate::position::{cell_of, Position};

verus! {

/// The name an agent is shown under.
#[derive(Debug, Clone, PartialEq, Eq)]
pub struct Name(pub String);

/// Marks the agent the player controls.
#[derive(Debug, Clone, Copy, PartialEq, Eq)]
pub struct Player;

/// Marks a wall: it blocks both movement and sight.
#[derive(Debug, Clone, Copy, PartialEq, Eq)]
pub struct Wall;

/// Marks a floor tile that agents may stand on.
#[derive(Debug, Clone, Copy, PartialEq, Eq)]
pub struct Floor;

/// Marks what cannot be walked through.
#[derive(Debug, Clone, Copy, PartialEq, Eq)]
pub struct Impassable;

/// Marks what is currently in the player's field of view.
#[derive(Debug, Clone, Copy, PartialEq, Eq)]
pub struct Visible;

/// Marks what has been in the player's field of view at least once.
#[derive(Debug, Clone, Copy, PartialEq, Eq)]
pub struct Revealed;

/// Marks an agent hostile to the player.
#[derive(Debug, Clone, Copy, PartialEq, Eq)]
pub struct Monster;

/// Marks what fog of war hides once it leaves the player's field of view.
#[derive(Debug, Clone, Copy, PartialEq, Eq)]
pub struct FogOfWar;

/// Marks what blocks sight.
#[derive(Debug, Clone, Copy, PartialEq, Eq)]
pub struct BlocksSight;

/// Marks the box that holds the combat log.
#[derive(Debug, Clone, Copy)]
pub struct LogContainer;

/// Marks a line of the combat log.
#[derive(Debug, Clone, Copy)]
pub struct LogText;

/// Marks the box that holds the hit-point bar.
#[derive(Debug, Clone, Copy)]
pub struct HpNode;

/// Marks the text of the hit-point bar.
#[derive(Debug, Clone, Copy)]
pub struct HpText;

/// The phases of play.
#[derive(Debug, Clone, Copy, PartialEq, Eq, Hash)]
pub enum GameState {
    Menu,
    PlayerTurn,
    EnemyTurn,
    PlayerDead,
}

impl Default for GameState {
    /// Play starts with the player's turn.
    fn default() -> (r: GameState)
        ensures
            r == GameState::PlayerTurn,
    {
        GameState::PlayerTurn
    }
}

/// Where the player and the monsters start.
#[derive(Debug, Clone)]
pub struct SpawnPoints {
    pub player: Position,
    pub monsters: Vec<Position>,
}

/// A request to move by `(x, y)`.
#[derive(Debug, Clone, Copy, PartialEq, Eq)]
pub struct MovementRequest {
    pub x: i32,
    pub y: i32,
}

impl MovementRequest {
    pub fn up() -> (r: MovementRequest)
        ensures
            r.x == 0 && r.y == 1,
    {
        MovementRequest { x: 0, y: 1 }
    }

    pub fn right() -> (r: MovementRequest)
        ensures
            r.x == 1 && r.y == 0,
    {
        MovementRequest { x: 1, y: 0 }
    }

    pub fn down() -> (r: MovementRequest)
        ensures
            r.x == 0 && r.y == -1,
    {
        MovementRequest { x: 0, y: -1 }
    }

    pub fn left() -> (r: MovementRequest)
        ensures
            r.x == -1 && r.y == 0,
    {
        MovementRequest { x: -1, y: 0 }
    }
}

/// An agent's field of view: how far it sees, and the cells it saw when last
/// computed. The set is replaced whole on each recompute.
#[derive(Debug)]
pub struct Viewshed {
    pub visible_range: u8,
    pub visible_tiles: PositionSet,
}

impl Viewshed {
    pub fn new(visible_range: u8) -> (r: Viewshed)
        ensures
            r.visible_range == visible_range,
            r.visible_tiles.wf(),
            r.visible_tiles@ == Set::<(int, int)>::empty(),
    {
        Viewshed { visible_range, visible_tiles: PositionSet::new() }
    }

    pub fn visible_range(&self) -> (r: u8)
        ensures
            r == self.visible_range,
    {
        self.visible_range
    }

    pub fn set_visible_tiles(&mut self, visible_tiles: PositionSet)
        ensures
            final(self).visible_range == old(self).visible_range,
            final(self).visible_tiles == visible_tiles,
    {
        self.visible_tiles = visible_tiles;
    }

    pub fn contains(&self, pos: &Position) -> (r: bool)
        ensures
            r == self.visible_tiles@.contains(cell_of(*pos)),
    {
        self.visible_tiles.contains(pos)
    }
}

/// Recomputes the field of view of an agent standing at `position`, where
/// the cells of `walls` block sight.
pub fn compute_fov(viewshed: &mut Viewshed, position: Position, walls: &PositionSet)
    requires
        origin_fits(cell_of(position), old(viewshed).visible_range as int),
    ensures
        final(viewshed).visible_range == old(viewshed).visible_range,
        final(viewshed).visible_tiles.wf(),
        final(viewshed).visible_tiles@ == visible_cells(
            cell_of(position),
            old(viewshed).visible_range as int,
            walls_block(walls@),
            euclid_measure(),
        ),
{
    let tiles = field_of_view(walls, position, viewshed.visible_range() as i32);
    viewshed.set_visible_tiles(tiles);
}

} // verus!
