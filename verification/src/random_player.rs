//! A player that draws its actions at random.

use vstd::prelude::*;
use crate::action::Action;
use crate::board_state::BoardState;
use crate::chance::{random_action, random_in_range};
use crate::legality::{lemma_legal_action_applies, lemma_some_move};
use crate::minimax_player::game_over;
use crate::player::{wants_move, Player};
use crate::validation::{
    as_moves, get_valid_block_actions, get_valid_move_actions, legal, legal_actions, legal_blocks,
    player_moves, trapped,
};

verus! {

/// A player that takes a legal action at random.
pub struct RandomPlayer {
    move_chance: isize,
}

impl RandomPlayer {
    /// A player that moves in about `move_chance` of 100 turns and places a
    /// wall in the others.
    pub fn new(move_chance: isize) -> (player: RandomPlayer)
        ensures
            player.move_chance() == move_chance,
    {
        RandomPlayer { move_chance }
    }

    /// In how many of 100 turns the player moves.
    pub closed spec fn move_chance(&self) -> isize {
        self.move_chance
    }

    /// The actions among which a player draws: the walls that the player may
    /// place where the player does not want to move and there is such a
    /// wall, and else the moves.
    pub open spec fn drawn_from(board_state: BoardState, player_index: int, wants_move: bool) -> Seq<
        Action,
    > {
        if !wants_move && legal_blocks(board_state, player_index).len() > 0 {
            legal_blocks(board_state, player_index)
        } else {
            as_moves(player_moves(board_state, player_index))
        }
    }

    /// The actions among which a player draws who wants to move, or does
    /// not.
    pub fn candidates(board_state: &BoardState, player_index: usize, wants_move: bool) -> (actions:
        Vec<Action>)
        requires
            board_state.well_formed(),
            player_index < 2,
        ensures
            actions@ == Self::drawn_from(*board_state, player_index as int, wants_move),
    {
        if !wants_move && board_state.get_player_wall_count(player_index) > 0 {
            let blocks = get_valid_block_actions(board_state, player_index);
            if blocks.len() > 0 {
                return blocks;
            }
        }
        get_valid_move_actions(board_state, player_index)
    }

    /// Draws one of the walls that the player may place, or one of the
    /// moves, each as likely as the others of its kind.
    pub fn draw_action(board_state: &BoardState, player_index: usize, wants_move: bool) -> (action:
        Action)
        requires
            board_state.well_formed(),
            player_index < 2,
            !game_over(*board_state),
            !trapped(*board_state, 0),
            !trapped(*board_state, 1),
        ensures
            Self::drawn_from(*board_state, player_index as int, wants_move).contains(action),
            legal(*board_state, player_index as int, action),
    {
        let actions = RandomPlayer::candidates(board_state, player_index, wants_move);
        proof {
            lemma_drawn_from_legal(*board_state, player_index as int, wants_move);
        }
        random_action(&actions).unwrap()
    }
}

/// The actions that a random player draws from are legal ones, and there is
/// one at least while the game goes on.
pub proof fn lemma_drawn_from_legal(board_state: BoardState, player_index: int, wants_move: bool)
    requires
        board_state.well_formed(),
        0 <= player_index < 2,
        !game_over(board_state),
        !trapped(board_state, 0),
        !trapped(board_state, 1),
    ensures
        RandomPlayer::drawn_from(board_state, player_index, wants_move).len() > 0,
        forall|j: int|
            0 <= j < RandomPlayer::drawn_from(board_state, player_index, wants_move).len()
                ==> legal(
                board_state,
                player_index,
                #[trigger] RandomPlayer::drawn_from(board_state, player_index, wants_move)[j],
            ),
{
    let drawn = RandomPlayer::drawn_from(board_state, player_index, wants_move);
    let moves = as_moves(player_moves(board_state, player_index));
    let blocks = legal_blocks(board_state, player_index);
    let cell = lemma_some_move(board_state, player_index);
    assert(player_moves(board_state, player_index).len() > 0);
    assert(moves.len() > 0);
    assert forall|j: int| 0 <= j < drawn.len() implies legal(
        board_state,
        player_index,
        #[trigger] drawn[j],
    ) by {
        if drawn == blocks && blocks.len() > 0 {
            assert(legal_actions(board_state, player_index)[moves.len() + j] == drawn[j]);
            lemma_legal_action_applies(board_state, player_index, moves.len() + j);
        } else {
            assert(legal_actions(board_state, player_index)[j] == drawn[j]);
            lemma_legal_action_applies(board_state, player_index, j);
        }
    }
}

impl Player for RandomPlayer {
    /// Rolls a die with the faces 0 to 99, and draws one of the moves where
    /// the roll is below the chance to move, and else one of the walls that
    /// the player may place, if there is one.
    fn take_action(&self, board_state: &BoardState, player_index: usize) -> (action: Action)
        ensures
            exists|roll: int|
                0 <= roll < 100 && RandomPlayer::drawn_from(
                    *board_state,
                    player_index as int,
                    #[trigger] wants_move(roll, self.move_chance() as int),
                ).contains(action),
    {
        let roll = random_in_range(0, 100);
        let action = RandomPlayer::draw_action(board_state, player_index, roll < self.move_chance);
        assert(RandomPlayer::drawn_from(
            *board_state,
            player_index as int,
            wants_move(roll as int, self.move_chance() as int),
        ).contains(action));
        action
    }
}

} // verus!
