//! Exhaustive minimax search.
//!
//! `O` is the maximising side and `X` the minimising side. A finished game is
//! worth -1 if `X` has won, +1 if `O` has won and 0 if it is a draw. The value
//! of any other position is the best value among the positions that the player
//! to move can reach with one mark, and the move returned is the lowest cell
//! index that reaches it.

use vstd::prelude::*;
use crate::board::{
    are_fields_full, cell_at, cells, check_for_winners, empty_cells, is_terminal,
    lemma_cells_determine_board, lemma_move_fills_a_cell, opponent, opponent_of, winner, Board,
    FieldData,
};

verus! {

/// A position's value and the move that achieves it; no move at a finished game.
#[derive(Copy, Clone, Debug)]
pub struct MinimaxRes {
    pub score: i32,
    pub index: Option<i32>,
}

/// What a finished game is worth.
pub open spec fn terminal_score(c: Seq<FieldData>) -> int {
    match winner(c) {
        FieldData::X => -1,
        FieldData::O => 1,
        FieldData::Empty => 0,
    }
}

/// Whether the player `p` prefers the value `a` to the value `b`.
pub open spec fn improves(p: FieldData, a: int, b: int) -> bool {
    if p is O {
        a > b
    } else {
        a < b
    }
}

/// The value of position `c` with `p` to move, under best play of both sides.
pub open spec fn minimax_value(c: Seq<FieldData>, p: FieldData) -> int
    decreases empty_cells(c).len(), 10int,
{
    if c.len() != 9 || p is Empty {
        0
    } else if is_terminal(c) {
        terminal_score(c)
    } else {
        match best_reply(c, p, 9) {
            Some(best) => best.0,
            None => 0,
        }
    }
}

/// The value of the position that `p` reaches by marking cell `i`.
pub open spec fn reply_value(c: Seq<FieldData>, p: FieldData, i: int) -> int
    recommends
        c.len() == 9,
        0 <= i < 9,
        c[i] is Empty,
        p !is Empty,
{
    minimax_value(c.update(i, p), opponent_of(p))
}

/// The best value that `p` can reach by marking an empty cell below `k`, with
/// the first cell that reaches it; `None` if no cell below `k` is empty.
pub open spec fn best_reply(c: Seq<FieldData>, p: FieldData, k: int) -> Option<(int, int)>
    decreases empty_cells(c).len(), k,
{
    if c.len() != 9 || p is Empty || k <= 0 || k > 9 {
        None
    } else if c[k - 1] !is Empty {
        best_reply(c, p, k - 1)
    } else {
        proof {
            lemma_move_fills_a_cell(c, k - 1, p);
        }
        let s = minimax_value(c.update(k - 1, p), opponent_of(p));
        match best_reply(c, p, k - 1) {
            None => Some((s, k - 1)),
            Some(best) => if improves(p, s, best.0) {
                Some((s, k - 1))
            } else {
                Some(best)
            },
        }
    }
}

/// The move that `minimax` returns for position `c` with `p` to move.
pub open spec fn minimax_choice(c: Seq<FieldData>, p: FieldData) -> Option<i32> {
    if is_terminal(c) {
        None
    } else {
        match best_reply(c, p, 9) {
            Some(best) => Some(best.1 as i32),
            None => None,
        }
    }
}

/// `res` is what the search returns for position `c` with `p` to move.
pub open spec fn is_minimax_result(c: Seq<FieldData>, p: FieldData, res: MinimaxRes) -> bool {
    &&& res.score == minimax_value(c, p)
    &&& res.index == minimax_choice(c, p)
}

/// Marking cell `i` is the best that `p` can do among the empty cells below
/// `k`: the cell is empty, marking it leads to a position of value `score`,
/// no empty cell below `k` leads to a value that `p` prefers, and no empty
/// cell before `i` leads to the same value.
pub open spec fn is_best_move_below(
    c: Seq<FieldData>,
    p: FieldData,
    k: int,
    i: int,
    score: int,
) -> bool {
    &&& 0 <= i < k
    &&& c[i] is Empty
    &&& score == reply_value(c, p, i)
    &&& forall|j: int|
        0 <= j < k && c[j] is Empty ==> !improves(p, #[trigger] reply_value(c, p, j), score)
    &&& forall|j: int| 0 <= j < i && c[j] is Empty ==> #[trigger] reply_value(c, p, j) != score
}

/// Marking cell `i` is the best move of `p` on the whole board, and the first
/// such cell.
pub open spec fn is_best_move(c: Seq<FieldData>, p: FieldData, i: int, score: int) -> bool {
    is_best_move_below(c, p, 9, i, score)
}

/// What `best_reply` picks: an empty cell below `k` whose value no other
/// empty cell below `k` improves on, and the first such cell.
pub proof fn lemma_best_reply(c: Seq<FieldData>, p: FieldData, k: int)
    requires
        c.len() == 9,
        p !is Empty,
        0 <= k <= 9,
    ensures
        best_reply(c, p, k) is None <==> forall|j: int| 0 <= j < k ==> c[j] !is Empty,
        best_reply(c, p, k) matches Some(best) ==> is_best_move_below(c, p, k, best.1, best.0),
    decreases k,
{
    if k > 0 {
        lemma_best_reply(c, p, k - 1);
    }
}

/// Every position is worth -1, 0 or +1.
pub proof fn lemma_minimax_value_bounds(c: Seq<FieldData>, p: FieldData)
    ensures
        -1 <= minimax_value(c, p) <= 1,
    decreases empty_cells(c).len(),
{
    if c.len() == 9 && p !is Empty && !is_terminal(c) {
        lemma_best_reply(c, p, 9);
        match best_reply(c, p, 9) {
            Some(best) => {
                lemma_move_fills_a_cell(c, best.1, p);
                lemma_minimax_value_bounds(c.update(best.1, p), opponent_of(p));
            },
            None => {},
        }
    }
}

/// The search is a function of the position and of the player to move: two
/// results for the same board and the same player agree in score and in move.
pub proof fn lemma_minimax_is_deterministic(
    board: Board,
    p: FieldData,
    first: MinimaxRes,
    second: MinimaxRes,
)
    requires
        is_minimax_result(cells(board), p, first),
        is_minimax_result(cells(board), p, second),
    ensures
        first == second,
{
}

/// On a board with one empty cell and no winner the search returns that cell.
pub proof fn lemma_minimax_takes_the_last_cell(
    board: Board,
    p: FieldData,
    i: int,
    res: MinimaxRes,
)
    requires
        p !is Empty,
        0 <= i < 9,
        cells(board)[i] is Empty,
        forall|j: int| 0 <= j < 9 && j != i ==> cells(board)[j] !is Empty,
        winner(cells(board)) is Empty,
        is_minimax_result(cells(board), p, res),
    ensures
        res.index == Some(i as i32),
{
    lemma_best_reply(cells(board), p, 9);
}

/// A win at the first empty cell is taken: if the player to move wins the game
/// by marking the first empty cell, the search returns that cell, with the
/// score of a game that this player has won.
pub proof fn lemma_minimax_takes_a_win_at_the_first_empty_cell(
    board: Board,
    p: FieldData,
    i: int,
    res: MinimaxRes,
)
    requires
        p !is Empty,
        0 <= i < 9,
        cells(board)[i] is Empty,
        forall|j: int| 0 <= j < i ==> cells(board)[j] !is Empty,
        winner(cells(board)) is Empty,
        winner(cells(board).update(i, p)) == p,
        is_minimax_result(cells(board), p, res),
    ensures
        res.index == Some(i as i32),
        res.score == if p is O {
            1int
        } else {
            -1int
        },
{
    let c = cells(board);
    lemma_best_reply(c, p, 9);
    let best = best_reply(c, p, 9)->0;
    lemma_move_fills_a_cell(c, i, p);
    assert(reply_value(c, p, i) == terminal_score(c.update(i, p)));
    lemma_minimax_value_bounds(c.update(best.1, p), opponent_of(p));
}

/// The move that the search returns is an empty cell: marking it changes
/// that one cell from `Empty` to the mover's mark and no other cell.
pub proof fn lemma_minimax_move_changes_one_cell(
    board: Board,
    p: FieldData,
    res: MinimaxRes,
    after: Board,
)
    requires
        p !is Empty,
        is_minimax_result(cells(board), p, res),
        res.index is Some,
        cells(after) == cells(board).update(res.index->0 as int, p),
    ensures
        0 <= res.index->0 < 9,
        cells(board)[res.index->0 as int] is Empty,
        cells(after)[res.index->0 as int] == p,
        forall|j: int|
            0 <= j < 9 && j != res.index->0 ==> cells(after)[j] == cells(board)[j],
{
    lemma_best_reply(cells(board), p, 9);
}

/// The value of the position on `board` with `curr_player` to move, and the
/// move that achieves it.
///
/// At a finished game the result holds the game's worth and no move.
/// Otherwise the move is an empty cell, the score is the value of the
/// position reached by marking it, no other empty cell leads to a value that
/// `curr_player` prefers, and no empty cell before it leads to the same
/// value. The board is handed back as it was given.
pub fn minimax(board: &mut Board, curr_player: &FieldData) -> (res: MinimaxRes)
    requires
        *curr_player !is Empty,
    ensures
        *final(board) == *old(board),
        is_minimax_result(cells(*old(board)), *curr_player, res),
        -1 <= res.score <= 1,
        is_terminal(cells(*old(board))) ==> res.index is None && res.score == terminal_score(
            cells(*old(board)),
        ),
        !is_terminal(cells(*old(board))) ==> (res.index matches Some(i) && is_best_move(
            cells(*old(board)),
            *curr_player,
            i as int,
            res.score as int,
        )),
    decreases empty_cells(cells(*old(board))).len(),
{
    let ghost c = cells(*board);
    let curr_winner = check_for_winners(board);
    if curr_winner == FieldData::X {
        return MinimaxRes { score: -1, index: None };
    } else if curr_winner == FieldData::O {
        return MinimaxRes { score: 1, index: None };
    } else if are_fields_full(board) {
        return MinimaxRes { score: 0, index: None };
    }
    let maximising = *curr_player == FieldData::O;
    let next_player = opponent(*curr_player);
    let mut best_test_play = MinimaxRes { score: 0, index: Some(0) };
    let mut best_score: i32 = if maximising {
        -10000
    } else {
        10000
    };
    let mut i: usize = 0;
    while i < 9
        invariant
            i <= 9,
            *board == *old(board),
            c == cells(*board),
            *curr_player !is Empty,
            !is_terminal(c),
            maximising == (*curr_player is O),
            next_player == opponent_of(*curr_player),
            match best_reply(c, *curr_player, i as int) {
                None => best_score == if maximising {
                    -10000i32
                } else {
                    10000i32
                },
                Some(best) => {
                    &&& best_score == best.0
                    &&& best_test_play.score == best.0
                    &&& best_test_play.index == Some(best.1 as i32)
                    &&& -1 <= best.0 <= 1
                },
            },
        decreases 9 - i,
    {
        if cell_at(board, i) == FieldData::Empty {
            proof {
                lemma_move_fills_a_cell(c, i as int, *curr_player);
            }
            // Try the move, value the position it leads to, and take it back.
            board[i / 3][i % 3] = *curr_player;
            assert(cells(*board) == c.update(i as int, *curr_player));
            let res = minimax(board, &next_player);
            board[i / 3][i % 3] = FieldData::Empty;
            proof {
                assert(cells(*board) =~= c);
                lemma_cells_determine_board(*board, *old(board));
            }
            let better = if maximising {
                res.score > best_score
            } else {
                res.score < best_score
            };
            if better {
                best_score = res.score;
                best_test_play = MinimaxRes { score: res.score, index: Some(i as i32) };
            }
        }
        i += 1;
    }
    proof {
        lemma_best_reply(c, *curr_player, 9);
    }
    best_test_play
}

} // verus!
