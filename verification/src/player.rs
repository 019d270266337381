//! What a player is.

use vstd::prelude::*;
use crate::action::Action;
use crate::board_state::BoardState;
use crate::minimax_player::game_over;
use crate::validation::{legal, trapped};

verus! {

/// After the roll `roll` of a die with the faces 0 to 99 a player with the
/// chance `move_chance` in a hundred to move wants to move where the roll is
/// below the chance.
pub open spec fn wants_move(roll: int, move_chance: int) -> bool {
    roll < move_chance
}

/// Someone who can play: asked for an action on a board where the game goes
/// on, a player answers with a legal one.
pub trait Player {
    fn take_action(&self, board_state: &BoardState, player_index: usize) -> (action: Action)
        requires
            board_state.well_formed(),
            player_index < 2,
            !game_over(*board_state),
            !trapped(*board_state, 0),
            !trapped(*board_state, 1),
        ensures
            legal(*board_state, player_index as int, action),
    ;
}

} // verus!
