//! A game between two players, turn by turn.

use vstd::prelude::*;
use crate::action::applied;
use crate::board_state::BoardState;
use crate::legality::{lemma_legal_applies, lemma_legal_sound};
use crate::minimax_player::game_over;
use crate::player::Player;
use crate::turn::Turn;
use crate::validation::{legal, lemma_trapped_distance, trapped};

verus! {

/// A game between two players: the board, whose turn it is, and the turns
/// that were taken.
pub struct Game<'a> {
    players: (&'a dyn Player, &'a dyn Player),
    current_player_index: usize,
    is_over: bool,
    pub turns: Vec<Turn>,
    current_board_state: BoardState,
}

impl<'a> Game<'a> {
    /// The board as it stands.
    pub closed spec fn board(&self) -> BoardState {
        self.current_board_state
    }

    /// The player whose turn it is.
    pub closed spec fn current(&self) -> int {
        self.current_player_index as int
    }

    /// The two players: first the one who takes the first turn and has the
    /// index 0, then the one with the index 1.
    pub closed spec fn seats(&self) -> (&'a dyn Player, &'a dyn Player) {
        self.players
    }

    /// The turns that were taken, the first one first.
    pub closed spec fn history(&self) -> Seq<Turn> {
        self.turns@
    }

    /// The game has ended.
    pub closed spec fn over(&self) -> bool {
        self.is_over
    }

    /// The board is well-formed, nobody is trapped, and while the game goes
    /// on nobody has reached the goal row.
    pub closed spec fn well_formed(&self) -> bool {
        &&& self.current_player_index < 2
        &&& self.current_board_state.well_formed()
        &&& !trapped(self.current_board_state, 0)
        &&& !trapped(self.current_board_state, 1)
        &&& !self.is_over ==> !game_over(self.current_board_state)
    }

    /// A game at its start, with `player_1` to take the first turn.
    pub fn new(player_1: &'a dyn Player, player_2: &'a dyn Player) -> (game: Self)
        ensures
            game.well_formed(),
            game.seats() == (player_1, player_2),
            game.board().is_start_layout(),
            !game.over(),
            game.current() == 0,
            game.history().len() == 0,
    {
        let board_state = BoardState::new();
        proof {
            lemma_trapped_distance(board_state, 0);
            lemma_trapped_distance(board_state, 1);
            crate::legality::lemma_new_board_distances(board_state);
        }
        let players = (player_1, player_2);
        Game {
            players,
            current_player_index: 0,
            is_over: false,
            turns: Vec::new(),
            current_board_state: board_state,
        }
    }

    /// Lets the player whose turn it is take an action, notes the turn, and
    /// passes the turn on. Returns whether the game is over: it is once the
    /// player who acted stands on the goal row, and nothing happens any more
    /// from then on.
    pub fn take_turn(&mut self) -> (is_over: bool)
        requires
            old(self).well_formed(),
        ensures
            final(self).well_formed(),
            final(self).seats() == old(self).seats(),
            is_over == final(self).over(),
            old(self).over() ==> is_over && final(self).board() == old(self).board() && final(self).current() == old(self).current() && final(self).history() == old(self).history(),
            !old(self).over() ==> {
                &&& final(self).history().len() == old(self).history().len() + 1
                &&& final(self).history().subrange(0, old(self).history().len() as int) == old(self).history()
                &&& final(self).history().last().board_state == old(self).board()
                &&& final(self).history().last().player_index == old(self).current()
                &&& legal(old(self).board(), old(self).current(), final(self).history().last().action)
                &&& final(self).board() == applied(
                    old(self).board(),
                    old(self).current(),
                    final(self).history().last().action,
                )
                &&& is_over == (final(self).board().player_distance(old(self).current()) == 0)
                &&& final(self).current() == if is_over {
                    old(self).current()
                } else {
                    1 - old(self).current()
                }
            },
    {
        if self.is_over {
            return true;
        }
        let ghost before = self.current_board_state;
        let ghost acting = self.current_player_index as int;
        let current_player = if self.current_player_index == 0 {
            self.players.0
        } else {
            self.players.1
        };
        let action = current_player.take_action(
            &self.current_board_state,
            self.current_player_index,
        );

        self.turns.push(Turn::new(self.current_board_state, self.current_player_index, action));

        let mut new_board_state = self.current_board_state;
        proof {
            lemma_legal_applies(before, acting, action);
        }
        action.apply(&mut new_board_state, self.current_player_index);
        proof {
            lemma_legal_sound(before, acting, action, new_board_state);
            lemma_trapped_distance(new_board_state, 0);
            lemma_trapped_distance(new_board_state, 1);
            lemma_trapped_distance(before, 0);
            lemma_trapped_distance(before, 1);
            crate::legality::lemma_distance_kept(before, acting, action, new_board_state);
        }
        self.current_board_state = new_board_state;

        if self.current_board_state.get_player_distance(self.current_player_index) == 0 {
            self.is_over = true;
            return true;
        }
        self.switch_players();
        false
    }

    /// Starts the game again.
    pub fn reset(&mut self)
        ensures
            final(self).well_formed(),
            final(self).seats() == old(self).seats(),
            final(self).board().is_start_layout(),
            !final(self).over(),
            final(self).current() == 0,
            final(self).history().len() == 0,
    {
        self.current_player_index = 0;
        self.is_over = false;
        self.current_board_state = BoardState::new();
        self.turns.clear();
        proof {
            lemma_trapped_distance(self.current_board_state, 0);
            lemma_trapped_distance(self.current_board_state, 1);
            crate::legality::lemma_new_board_distances(self.current_board_state);
        }
    }

    /// Whether the game has ended.
    pub fn is_game_over(&self) -> (is_over: bool)
        ensures
            is_over == self.over(),
    {
        self.is_over
    }

    /// The player whose turn it is, or who took the last turn of a game
    /// that has ended.
    pub fn get_current_player_index(&self) -> (player_index: usize)
        ensures
            player_index == self.current(),
    {
        self.current_player_index
    }

    fn switch_players(&mut self)
        requires
            old(self).current_player_index < 2,
        ensures
            final(self).current_player_index == 1 - old(self).current_player_index,
            final(self).is_over == old(self).is_over,
            final(self).turns == old(self).turns,
            final(self).current_board_state == old(self).current_board_state,
            final(self).players == old(self).players,
    {
        self.current_player_index = 1 - self.current_player_index;
    }
}

} // verus!
