//! An exhaustive minimax agent for small boards: X maximises the score, O
//! minimises it.

use vstd::prelude::*;
use crate::board::{
    Board, Cell, Player, board_ok, game_over_of, is_empty_cell, lemma_fill_removes_one_move,
    lemma_moves_are_empty_cells, moves_of, other, piece_of, score_of, with_cell,
};

verus! {

/// The score a search starts from before any move is tried: the worst one for
/// the player to move.
pub open spec fn start_score(p: Player) -> int {
    match p {
        Player::X => i32::MIN as int,
        Player::O => i32::MAX as int,
    }
}

/// Score `s` is strictly better for `p` than `best`.
pub open spec fn improves(p: Player, s: int, best: int) -> bool {
    match p {
        Player::X => s > best,
        Player::O => s < best,
    }
}

/// The board after `p` plays `m` on `c`.
pub open spec fn after_move(c: Seq<Seq<Cell>>, m: (usize, usize), p: Player) -> Seq<Seq<Cell>> {
    with_cell(c, m.0 as int, m.1 as int, piece_of(p))
}

/// The minimax value of a position with `p` to move: the final score when the
/// game is over, otherwise the best value `p` can reach by one move.
pub open spec fn minimax(c: Seq<Seq<Cell>>, p: Player) -> int
    decreases moves_of(c).len(), 1int,
{
    if !board_ok(c) || game_over_of(c) {
        score_of(c)
    } else {
        best_reply(c, p, moves_of(c).len() as int).0
    }
}

/// The best value and move for `p` among the first `k` moves, in move order,
/// a later move replacing the current one only when strictly better.
pub open spec fn best_reply(c: Seq<Seq<Cell>>, p: Player, k: int) -> (int, (usize, usize))
    decreases moves_of(c).len(), 0int, k,
{
    if k <= 0 || !board_ok(c) || k > moves_of(c).len() {
        (start_score(p), moves_of(c)[0])
    } else {
        let (b, m) = best_reply(c, p, k - 1);
        let mv = moves_of(c)[k - 1];
        proof {
            lemma_moves_are_empty_cells(c);
            lemma_fill_removes_one_move(c, mv, piece_of(p));
        }
        let s = minimax(after_move(c, mv, p), other(p));
        if improves(p, s, b) {
            (s, mv)
        } else {
            (b, m)
        }
    }
}

/// What the agent answers on `c` with `p` to move: the final score and `(0, 0)`
/// when the game is over, otherwise the minimax value and the first move that
/// reaches it.
pub open spec fn agent_answer(c: Seq<Seq<Cell>>, p: Player) -> (int, usize, usize) {
    if game_over_of(c) {
        (score_of(c), 0, 0)
    } else {
        let (b, m) = best_reply(c, p, moves_of(c).len() as int);
        (b, m.0, m.1)
    }
}

/// The minimax value reached by the `t`-th move.
pub open spec fn child_value(c: Seq<Seq<Cell>>, p: Player, t: int) -> int {
    minimax(after_move(c, moves_of(c)[t], p), other(p))
}

proof fn lemma_best_reply(c: Seq<Seq<Cell>>, p: Player, k: int)
    requires
        board_ok(c),
        !game_over_of(c),
        1 <= k <= moves_of(c).len(),
        forall|t: int| 0 <= t < moves_of(c).len() ==> -1024 <= #[trigger] child_value(c, p, t) <= 1024,
    ensures
        -1024 <= best_reply(c, p, k).0 <= 1024,
        exists|t: int|
            0 <= t < k && best_reply(c, p, k).1 == moves_of(c)[t] && best_reply(c, p, k).0 == #[trigger] child_value(c, p, t),
        forall|t: int| 0 <= t < k ==> !improves(p, #[trigger] child_value(c, p, t), best_reply(c, p, k).0),
    decreases k,
{
    assert(child_value(c, p, k - 1) == minimax(after_move(c, moves_of(c)[k - 1], p), other(p)));
    if k > 1 {
        lemma_best_reply(c, p, k - 1);
        let (b, m) = best_reply(c, p, k - 1);
        let t0 = choose|t: int| 0 <= t < k - 1 && m == moves_of(c)[t] && b == #[trigger] child_value(c, p, t);
        if improves(p, child_value(c, p, k - 1), b) {
            assert(best_reply(c, p, k).1 == moves_of(c)[k - 1]);
        } else {
            assert(best_reply(c, p, k) == (b, m));
            assert(best_reply(c, p, k).0 == child_value(c, p, t0));
        }
    } else {
        assert(best_reply(c, p, 0).0 == start_score(p));
        assert(best_reply(c, p, 1).1 == moves_of(c)[0]);
    }
}

/// Every minimax value is a score, between -1024 and 1024.
pub proof fn lemma_minimax_range(c: Seq<Seq<Cell>>, p: Player)
    requires
        board_ok(c),
    ensures
        -1024 <= minimax(c, p) <= 1024,
    decreases moves_of(c).len(),
{
    crate::board::lemma_score_bound(c);
    if !game_over_of(c) {
        lemma_moves_are_empty_cells(c);
        assert forall|t: int| 0 <= t < moves_of(c).len() implies -1024 <= #[trigger] child_value(c, p, t) <= 1024 by {
            assert(is_empty_cell(c, moves_of(c)[t]));
            lemma_fill_removes_one_move(c, moves_of(c)[t], piece_of(p));
            lemma_minimax_range(after_move(c, moves_of(c)[t], p), other(p));
        }
        lemma_best_reply(c, p, moves_of(c).len() as int);
    }
}

/// The agent plays optimally: while the game is not over, the move it answers
/// is available and reaches the value it answers, and no available move
/// reaches a value better for the player to move.
pub proof fn law_agent_move_is_optimal(c: Seq<Seq<Cell>>, p: Player)
    requires
        board_ok(c),
        !game_over_of(c),
    ensures
        exists|t: int|
            0 <= t < moves_of(c).len() && moves_of(c)[t] == (agent_answer(c, p).1, agent_answer(c, p).2)
                && #[trigger] child_value(c, p, t) == agent_answer(c, p).0,
        forall|t: int| 0 <= t < moves_of(c).len() ==> !improves(p, #[trigger] child_value(c, p, t), agent_answer(c, p).0),
        agent_answer(c, p).0 == minimax(c, p),
{
    lemma_moves_are_empty_cells(c);
    assert forall|t: int| 0 <= t < moves_of(c).len() implies -1024 <= #[trigger] child_value(c, p, t) <= 1024 by {
        assert(is_empty_cell(c, moves_of(c)[t]));
        lemma_fill_removes_one_move(c, moves_of(c)[t], piece_of(p));
        lemma_minimax_range(after_move(c, moves_of(c)[t], p), other(p));
    }
    lemma_best_reply(c, p, moves_of(c).len() as int);
    let t = choose|t: int|
        0 <= t < moves_of(c).len() && best_reply(c, p, moves_of(c).len() as int).1 == moves_of(c)[t]
            && best_reply(c, p, moves_of(c).len() as int).0 == #[trigger] child_value(c, p, t);
    assert(moves_of(c)[t] == (agent_answer(c, p).1, agent_answer(c, p).2));
}

/// Exhaustive minimax search.
pub struct SolutionAgent {}

impl SolutionAgent {
    /// Returns `(score, row, col)`: the minimax value of the position with
    /// `player` to move and the first move reaching it; `board` is left as it
    /// was.
    pub fn solve(board: &mut Board, player: Player, _time_limit: u64) -> (res: (i32, usize, usize))
        requires
            old(board).wf(),
        ensures
            final(board)@ == old(board)@,
            res.0 as int == agent_answer(old(board)@, player).0,
            res.1 == agent_answer(old(board)@, player).1,
            res.2 == agent_answer(old(board)@, player).2,
        decreases moves_of(old(board)@).len(),
    {
        if board.game_over() {
            return (board.score(), 0, 0);
        }
        let moves = board.moves();
        if moves.len() == 0 {
            return (board.score(), 0, 0);
        }
        let ghost c = board@;
        proof {
            lemma_moves_are_empty_cells(c);
        }
        let mut best_move = moves[0];
        let mut best_score: i32 = match player {
            Player::X => i32::MIN,
            Player::O => i32::MAX,
        };
        for idx in 0..moves.len()
            invariant
                board.wf(),
                board@ == c,
                c == old(board)@,
                board_ok(c),
                !game_over_of(c),
                moves@ == moves_of(c),
                forall|t: int| 0 <= t < moves_of(c).len() ==> is_empty_cell(c, #[trigger] moves_of(c)[t]),
                (best_score as int, best_move) == best_reply(c, player, idx as int),
        {
            let m = moves[idx];
            proof {
                assert(is_empty_cell(c, moves_of(c)[idx as int]));
                lemma_fill_removes_one_move(c, m, piece_of(player));
            }
            board.apply_move(m, player);
            let ghost child = board@;
            proof {
                assert(child == after_move(c, m, player));
                assert(board_ok(child));
            }
            let (score, _, _) = SolutionAgent::solve(board, player.flip(), _time_limit);
            proof {
                assert(score as int == minimax(child, other(player)));
                assert(m == moves_of(c)[idx as int]);
            }
            board.undo_move(m, player);
            proof {
                crate::board::law_undo_restores(c, m, player);
            }
            let better = match player {
                Player::X => score > best_score,
                Player::O => score < best_score,
            };
            if better {
                best_score = score;
                best_move = m;
            }
        }
        (best_score, best_move.0, best_move.1)
    }
}

} // verus!
