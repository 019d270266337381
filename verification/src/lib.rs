//! The rules of a board game for two on a board of nine by nine cells, and
//! players for it. Each player walks a pawn to the far row and may place
//! walls in the way of the other, as long as both keep a way to their rows.
//!
//! [`board_state`] holds the board with the walls, the edges that they leave
//! open and each player's shortest distances, [`validation`] says which
//! actions are legal, and [`minimax_player`] searches for the best of them.
//! [`grid`] states what a shortest distance is, and [`distance`] computes the
//! distances, from scratch and wall by wall.

pub mod action;
pub mod action_type;
pub mod board_state;
mod chance;
pub mod distance;
pub mod game;
pub mod grid;
pub mod legality;
pub mod minimax_player;
pub mod player;
pub mod random_player;
pub mod shortest_path_player;
pub mod tally;
pub mod turn;
pub mod validation;
pub mod vector2;
pub mod wall_orientation;
