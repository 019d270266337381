//! A record of one turn.

use vstd::prelude::*;
use crate::action::Action;
use crate::board_state::BoardState;

verus! {

/// One turn of a game: the board before it, who acted, and what they did.
pub struct Turn {
    pub board_state: BoardState,
    pub player_index: usize,
    pub action: Action,
}

impl Turn {
    /// A turn made of its parts.
    pub fn new(board_state: BoardState, player_index: usize, action: Action) -> (turn: Self)
        ensures
            turn.board_state == board_state,
            turn.player_index == player_index,
            turn.action == action,
    {
        Turn { board_state, player_index, action }
    }
}

} // verus!
