//! Spatial reasoning for a turn-based grid game: what each agent sees and
//! where it moves next.
//!
//! - `fov`: field of view by recursive shadowcasting, proved equal to its
//!   model `visible_cells`, with the laws it obeys on an open field.
//! - `path`: routes on the eight-neighbour grid around blocked and occupied
//!   cells, found by A* search.
//! - `ai`: scores and actions of the monsters, from what they see and where
//!   they stand.
//! - `input`: the player's turn, from keys to a move or an attack.
//! - `map`: dungeon generation.
//! - `combat`, `components`, `position`, `cell_set`: the records these work on.


pub mod ai;
pub mod cell_set;
pub mod combat;
pub mod components;
pub mod fov;
pub mod input;
pub mod map;
pub mod path;
pub mod position;
