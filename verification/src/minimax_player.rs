//! A player that searches the tree of legal actions to a given depth.

use vstd::prelude::*;
use crate::action::{applied, Action};
use crate::board_state::BoardState;
use crate::legality::{
    lemma_distances_bounded, lemma_legal_action_applies, lemma_legal_action_sound,
    lemma_some_legal_action,
};
use crate::validation::{
    get_valid_block_actions, get_valid_move_actions, is_either_player_trapped, legal,
    legal_actions, lemma_trapped_distance, trapped,
};

verus! {

/// One of the two players has reached the goal row.
pub open spec fn game_over(board_state: BoardState) -> bool {
    board_state.player_distance(0) == 0 || board_state.player_distance(1) == 0
}

/// What a board is worth to player `scoring_player`: how much further the
/// opponent is from the goal row than the player.
pub open spec fn leaf_score(board_state: BoardState, scoring_player: int) -> int {
    board_state.player_distance(1 - scoring_player) - board_state.player_distance(scoring_player)
}

/// What a board is worth to player `scoring_player` when player
/// `player_index` is to act and both look `depth` turns ahead: the score of
/// the board itself at depth 0 or once a player has arrived, else the best of
/// the values of the boards that the legal actions lead to, the highest
/// where the turn is one that maximizes, the lowest where it minimizes.
pub open spec fn minimax(
    board_state: BoardState,
    player_index: int,
    depth: nat,
    scoring_player: int,
    maximizing: bool,
) -> int
    decreases depth, 0nat, 0nat,
{
    if depth == 0 || game_over(board_state) {
        leaf_score(board_state, scoring_player)
    } else {
        best_upto(
            board_state,
            player_index,
            (depth - 1) as nat,
            scoring_player,
            maximizing,
            legal_actions(board_state, player_index).len(),
        )
    }
}

/// The value of the board that the `j`-th legal action leads to, for the
/// other player's turn.
pub open spec fn child_value(
    board_state: BoardState,
    player_index: int,
    child_depth: nat,
    scoring_player: int,
    maximizing: bool,
    j: int,
) -> int
    decreases child_depth, 0nat, 1nat,
{
    minimax(
        applied(board_state, player_index, legal_actions(board_state, player_index)[j]),
        1 - player_index,
        child_depth,
        scoring_player,
        !maximizing,
    )
}

/// The best of the values that the first `n` legal actions lead to: the
/// highest for a turn that maximizes, the lowest for one that minimizes.
/// Without any action it is the worst value there is.
pub open spec fn best_upto(
    board_state: BoardState,
    player_index: int,
    child_depth: nat,
    scoring_player: int,
    maximizing: bool,
    n: nat,
) -> int
    decreases child_depth, 1nat, n,
{
    if n == 0 {
        if maximizing {
            isize::MIN as int
        } else {
            isize::MAX as int
        }
    } else {
        let before = best_upto(
            board_state,
            player_index,
            child_depth,
            scoring_player,
            maximizing,
            (n - 1) as nat,
        );
        let value = child_value(
            board_state,
            player_index,
            child_depth,
            scoring_player,
            maximizing,
            n - 1,
        );
        if maximizing {
            if value > before {
                value
            } else {
                before
            }
        } else {
            if value < before {
                value
            } else {
                before
            }
        }
    }
}

/// The best value of the first `n` actions is no worse than the value of any
/// one of them, nor than the best value of fewer.
pub proof fn lemma_best_covers(
    board_state: BoardState,
    player_index: int,
    child_depth: nat,
    scoring_player: int,
    maximizing: bool,
    n: nat,
    j: int,
)
    requires
        0 <= j < n,
    ensures
        maximizing ==> child_value(
            board_state,
            player_index,
            child_depth,
            scoring_player,
            maximizing,
            j,
        ) <= best_upto(board_state, player_index, child_depth, scoring_player, maximizing, n),
        !maximizing ==> child_value(
            board_state,
            player_index,
            child_depth,
            scoring_player,
            maximizing,
            j,
        ) >= best_upto(board_state, player_index, child_depth, scoring_player, maximizing, n),
    decreases n,
{
    if j < n - 1 {
        lemma_best_covers(
            board_state,
            player_index,
            child_depth,
            scoring_player,
            maximizing,
            (n - 1) as nat,
            j,
        );
    }
}

/// For a turn that maximizes, `first` is at least as high as `second`; for
/// one that minimizes, at least as low.
pub open spec fn as_good(maximizing: bool, first: int, second: int) -> bool {
    if maximizing {
        first >= second
    } else {
        first <= second
    }
}

/// For a turn that maximizes, `first` is higher than `second`; for one that
/// minimizes, lower.
pub open spec fn better(maximizing: bool, first: int, second: int) -> bool {
    if maximizing {
        first > second
    } else {
        first < second
    }
}

/// `action` is the first of the legal actions of player `player_index` that
/// leads to a board of the best value, looking `child_depth` turns ahead
/// from there: of the highest value to player `scoring_player` where the
/// turn maximizes, of the lowest where it minimizes.
pub open spec fn is_first_best(
    board_state: BoardState,
    player_index: int,
    child_depth: nat,
    scoring_player: int,
    maximizing: bool,
    action: Action,
) -> bool {
    exists|i: int|
        {
            &&& 0 <= i < legal_actions(board_state, player_index).len()
            &&& #[trigger] legal_actions(board_state, player_index)[i] == action
            &&& forall|j: int|
                0 <= j < legal_actions(board_state, player_index).len() ==> as_good(
                    maximizing,
                    child_value(board_state, player_index, child_depth, scoring_player, maximizing, i),
                    #[trigger] child_value(
                        board_state,
                        player_index,
                        child_depth,
                        scoring_player,
                        maximizing,
                        j,
                    ),
                )
            &&& forall|j: int|
                0 <= j < i ==> better(
                    maximizing,
                    child_value(board_state, player_index, child_depth, scoring_player, maximizing, i),
                    #[trigger] child_value(
                        board_state,
                        player_index,
                        child_depth,
                        scoring_player,
                        maximizing,
                        j,
                    ),
                )
        }
}

/// What a search within the bounds `alpha` and `beta` tells of the value of
/// a board: the value itself where the score lies between the bounds, and
/// else on which side of the score the value lies.
pub open spec fn within_window(score: int, value: int, alpha: int, beta: int) -> bool {
    &&& score <= alpha ==> value <= score
    &&& score >= beta ==> value >= score
    &&& alpha < score < beta ==> value == score
}

/// A player that looks a number of turns ahead and takes the action that is
/// best if the opponent answers as well as can be.
pub struct MinimaxPlayer {}

impl MinimaxPlayer {
    /// The first of the legal actions of player `player_index` that is best
    /// when both players look `branch_depth` turns ahead.
    pub fn take_action(board_state: &BoardState, player_index: usize, branch_depth: usize) -> (action:
        Action)
        requires
            board_state.well_formed(),
            player_index < 2,
            branch_depth > 0,
            !game_over(*board_state),
            !trapped(*board_state, 0),
            !trapped(*board_state, 1),
        ensures
            legal(*board_state, player_index as int, action),
            is_first_best(
                *board_state,
                player_index as int,
                (branch_depth - 1) as nat,
                player_index as int,
                true,
                action,
            ),
    {
        let mut node = MinimaxBoardNode::new(board_state, player_index);
        let _turn_play_count = node.build_children(
            branch_depth,
            player_index,
            true,
            isize::MIN,
            isize::MAX,
        );
        node.best_action.unwrap()
    }
}

/// A board in the search, with the player to act on it, and what the search
/// found: the score of the board and the action that leads to it.
struct MinimaxBoardNode<'a> {
    pub board_state: &'a BoardState,
    pub player_index: usize,
    pub best_action: Option<Action>,
    pub score: isize,
}

impl<'a> MinimaxBoardNode<'a> {
    fn new(board_state: &'a BoardState, player_index: usize) -> (node: Self)
        ensures
            node.board_state == board_state,
            node.player_index == player_index,
            node.best_action is None,
            node.score == 0,
    {
        MinimaxBoardNode { board_state, player_index, best_action: None, score: 0 }
    }

    /// Searches the boards that the legal actions lead to, `branch_depth`
    /// turns deep, and leaves off where the bounds `alpha` and `beta` show
    /// that nothing more can change the outcome. Returns the number of boards
    /// looked at, as far as it can be counted.
    fn build_children(
        &mut self,
        branch_depth: usize,
        scoring_player: usize,
        maximizing: bool,
        alpha: isize,
        beta: isize,
    ) -> (turn_play_count: usize)
        requires
            old(self).board_state.well_formed(),
            !trapped(*old(self).board_state, 0),
            !trapped(*old(self).board_state, 1),
            old(self).player_index < 2,
            scoring_player < 2,
            alpha < beta,
        ensures
            final(self).board_state == old(self).board_state,
            final(self).player_index == old(self).player_index,
            -80 <= final(self).score <= 80,
            within_window(
                final(self).score as int,
                minimax(
                    *old(self).board_state,
                    old(self).player_index as int,
                    branch_depth as nat,
                    scoring_player as int,
                    maximizing,
                ),
                alpha as int,
                beta as int,
            ),
            turn_play_count >= 1,
            branch_depth == 0 || game_over(*old(self).board_state) ==> final(self).score
                == leaf_score(*old(self).board_state, scoring_player as int) && final(self).best_action == old(self).best_action && turn_play_count == 1,
            branch_depth > 0 && !game_over(*old(self).board_state) ==> final(self).best_action
                is Some && legal(
                *old(self).board_state,
                old(self).player_index as int,
                final(self).best_action->0,
            ),
            alpha == isize::MIN && beta == isize::MAX && branch_depth > 0 && !game_over(
                *old(self).board_state,
            ) ==> final(self).score == minimax(
                *old(self).board_state,
                old(self).player_index as int,
                branch_depth as nat,
                scoring_player as int,
                maximizing,
            ) && is_first_best(
                *old(self).board_state,
                old(self).player_index as int,
                (branch_depth - 1) as nat,
                scoring_player as int,
                maximizing,
                final(self).best_action->0,
            ),
        decreases branch_depth,
    {
        let ghost board = *self.board_state;
        let ghost acting = self.player_index as int;
        let ghost scoring = scoring_player as int;
        let opp_index = 1 - scoring_player;
        proof {
            lemma_trapped_distance(board, 0);
            lemma_trapped_distance(board, 1);
            lemma_distances_bounded(board, 0);
            lemma_distances_bounded(board, 1);
        }
        let opp_distance = self.board_state.get_player_distance(opp_index);
        let player_distance = self.board_state.get_player_distance(scoring_player);
        if player_distance == 0 || opp_distance == 0 || branch_depth == 0 {
            // Nothing follows this board: it is worth what the distances say.
            self.score = opp_distance - player_distance;
            return 1;
        }
        let ghost child_depth = (branch_depth - 1) as nat;
        let mut valid_actions: Vec<Action> = Vec::new();
        let mut move_actions = get_valid_move_actions(self.board_state, self.player_index);
        let mut block_actions = get_valid_block_actions(self.board_state, self.player_index);
        valid_actions.append(&mut move_actions);
        valid_actions.append(&mut block_actions);
        let ghost actions = valid_actions@;
        proof {
            assert(actions =~= legal_actions(board, acting));
            lemma_some_legal_action(board, acting);
        }

        let mut a = alpha;
        let mut b = beta;
        let mut score = if maximizing {
            isize::MIN
        } else {
            isize::MAX
        };
        let mut best_action_index: usize = 0;
        let mut turn_play_count: usize = 1;
        let mut i: usize = 0;
        while i < valid_actions.len()
            invariant_except_break
                i <= valid_actions.len(),
                maximizing ==> b == beta && a == (if score > alpha {
                    score
                } else {
                    alpha
                }) && (score <= alpha ==> best_upto(
                    board,
                    acting,
                    child_depth,
                    scoring,
                    maximizing,
                    i as nat,
                ) <= score) && (score > alpha ==> best_upto(
                    board,
                    acting,
                    child_depth,
                    scoring,
                    maximizing,
                    i as nat,
                ) == score),
                !maximizing ==> a == alpha && b == (if score < beta {
                    score
                } else {
                    beta
                }) && (score >= beta ==> best_upto(
                    board,
                    acting,
                    child_depth,
                    scoring,
                    maximizing,
                    i as nat,
                ) >= score) && (score < beta ==> best_upto(
                    board,
                    acting,
                    child_depth,
                    scoring,
                    maximizing,
                    i as nat,
                ) == score),
                a < b,
                i == 0 ==> score == (if maximizing {
                    isize::MIN
                } else {
                    isize::MAX
                }),
                i > 0 ==> -80 <= score <= 80,
                alpha == isize::MIN && beta == isize::MAX && i > 0 ==> {
                    &&& best_action_index < i
                    &&& child_value(
                        board,
                        acting,
                        child_depth,
                        scoring,
                        maximizing,
                        best_action_index as int,
                    ) == score
                    &&& forall|j: int|
                        0 <= j < best_action_index ==> better(
                            maximizing,
                            score as int,
                            #[trigger] child_value(
                                board,
                                acting,
                                child_depth,
                                scoring,
                                maximizing,
                                j,
                            ),
                        )
                },
            invariant
                turn_play_count >= 1,
                board == *self.board_state,
                acting == self.player_index,
                scoring == scoring_player,
                child_depth == branch_depth - 1,
                branch_depth > 0,
                !game_over(board),
                board.well_formed(),
                !trapped(board, 0),
                !trapped(board, 1),
                acting < 2,
                scoring < 2,
                alpha < beta,
                actions == valid_actions@,
                actions == legal_actions(board, acting),
                actions.len() > 0,
                best_action_index < valid_actions.len(),
                self.board_state == old(self).board_state,
                self.player_index == old(self).player_index,
            ensures
                -80 <= score <= 80,
                within_window(
                    score as int,
                    best_upto(
                        board,
                        acting,
                        child_depth,
                        scoring,
                        maximizing,
                        actions.len(),
                    ),
                    alpha as int,
                    beta as int,
                ),
                alpha == isize::MIN && beta == isize::MAX ==> {
                    &&& child_value(
                        board,
                        acting,
                        child_depth,
                        scoring,
                        maximizing,
                        best_action_index as int,
                    ) == score
                    &&& score == best_upto(
                        board,
                        acting,
                        child_depth,
                        scoring,
                        maximizing,
                        actions.len(),
                    )
                    &&& forall|j: int|
                        0 <= j < best_action_index ==> better(
                            maximizing,
                            score as int,
                            #[trigger] child_value(
                                board,
                                acting,
                                child_depth,
                                scoring,
                                maximizing,
                                j,
                            ),
                        )
                },
            decreases valid_actions.len() - i,
        {
            let action = valid_actions[i];
            let mut new_board_state = *self.board_state;
            proof {
                lemma_legal_action_applies(board, acting, i as int);
            }
            action.apply(&mut new_board_state, self.player_index);
            proof {
                lemma_legal_action_sound(board, acting, i as int, new_board_state);
            }
            let ghost value = child_value(board, acting, child_depth, scoring, maximizing, i as int);
            let ghost before = best_upto(board, acting, child_depth, scoring, maximizing, i as nat);
            let ghost after = best_upto(
                board,
                acting,
                child_depth,
                scoring,
                maximizing,
                (i + 1) as nat,
            );
            // No legal action traps a player; the test guards the search all
            // the same.
            if !is_either_player_trapped(&new_board_state) {
                let mut child_node = MinimaxBoardNode::new(&new_board_state, 1 - self.player_index);
                let child_count = child_node.build_children(
                    branch_depth - 1,
                    scoring_player,
                    !maximizing,
                    a,
                    b,
                );
                turn_play_count = turn_play_count.saturating_add(child_count);
                assert(within_window(child_node.score as int, value, a as int, b as int));
                if maximizing {
                    if child_node.score > score {
                        score = child_node.score;
                        best_action_index = i;
                    }
                    a = if a > score {
                        a
                    } else {
                        score
                    };
                    if a >= b {
                        proof {
                            lemma_best_rest(
                                board,
                                acting,
                                child_depth,
                                scoring,
                                maximizing,
                                (i + 1) as nat,
                                actions.len(),
                            );
                        }
                        break;
                    }
                } else {
                    if child_node.score < score {
                        score = child_node.score;
                        best_action_index = i;
                    }
                    b = if b < score {
                        b
                    } else {
                        score
                    };
                    if a >= b {
                        proof {
                            lemma_best_rest(
                                board,
                                acting,
                                child_depth,
                                scoring,
                                maximizing,
                                (i + 1) as nat,
                                actions.len(),
                            );
                        }
                        break;
                    }
                }
                proof {
                    if alpha == isize::MIN && beta == isize::MAX {
                        assert forall|j: int| 0 <= j < best_action_index implies better(
                            maximizing,
                            score as int,
                            #[trigger] child_value(
                                board,
                                acting,
                                child_depth,
                                scoring,
                                maximizing,
                                j,
                            ),
                        ) by {
                            if best_action_index == i {
                                lemma_best_covers(
                                    board,
                                    acting,
                                    child_depth,
                                    scoring,
                                    maximizing,
                                    i as nat,
                                    j,
                                );
                            }
                        }
                    }
                }
            }
            i += 1;
        }

        self.best_action = Some(valid_actions[best_action_index]);
        self.score = score;
        proof {
            let best = best_action_index as int;
            lemma_legal_action_applies(board, acting, best);
            if alpha == isize::MIN && beta == isize::MAX {
                assert forall|j: int| 0 <= j < actions.len() implies as_good(
                    maximizing,
                    child_value(board, acting, child_depth, scoring, maximizing, best),
                    #[trigger] child_value(board, acting, child_depth, scoring, maximizing, j),
                ) by {
                    lemma_best_covers(
                        board,
                        acting,
                        child_depth,
                        scoring,
                        maximizing,
                        actions.len(),
                        j,
                    );
                }
                assert(legal_actions(board, acting)[best] == actions[best]);
            }
        }
        turn_play_count
    }
}

/// The best value of more actions is no worse than the best value of fewer.
pub proof fn lemma_best_rest(
    board_state: BoardState,
    player_index: int,
    child_depth: nat,
    scoring_player: int,
    maximizing: bool,
    k: nat,
    n: nat,
)
    requires
        k <= n,
    ensures
        maximizing ==> best_upto(
            board_state,
            player_index,
            child_depth,
            scoring_player,
            maximizing,
            k,
        ) <= best_upto(board_state, player_index, child_depth, scoring_player, maximizing, n),
        !maximizing ==> best_upto(
            board_state,
            player_index,
            child_depth,
            scoring_player,
            maximizing,
            k,
        ) >= best_upto(board_state, player_index, child_depth, scoring_player, maximizing, n),
    decreases n - k,
{
    if k < n {
        lemma_best_rest(
            board_state,
            player_index,
            child_depth,
            scoring_player,
            maximizing,
            k,
            (n - 1) as nat,
        );
    }
}

} // verus!
