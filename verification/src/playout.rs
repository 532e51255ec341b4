//! Playouts: games played to the end by marking empty cells in turn.

use vstd::prelude::*;
use crate::board::{is_terminal, opponent_of, winner, FieldData};

verus! {

/// The player who makes move number `k` of a playout that `first` begins.
pub open spec fn mover(first: FieldData, k: int) -> FieldData {
    if k % 2 == 0 {
        first
    } else {
        opponent_of(first)
    }
}

/// The board after the cells `moves` were marked in turn on board `c`, by
/// `first` and the other player alternately, `first` beginning.
pub open spec fn play(c: Seq<FieldData>, first: FieldData, moves: Seq<usize>) -> Seq<FieldData>
    decreases moves.len(),
{
    if moves.len() == 0 {
        c
    } else {
        play(c, first, moves.drop_last()).update(
            moves.last() as int,
            mover(first, moves.len() - 1),
        )
    }
}

/// `moves` is a playout from board `c`: each move marks a cell that is empty
/// at that time, and no move is made once the game is over.
pub open spec fn is_playout(c: Seq<FieldData>, first: FieldData, moves: Seq<usize>) -> bool {
    forall|k: int|
        0 <= k < moves.len() ==> {
            let before = #[trigger] play(c, first, moves.take(k));
            &&& !is_terminal(before)
            &&& moves[k] < 9
            &&& before[moves[k] as int] is Empty
        }
}

/// What a finished game is worth to `player`: 10 if `player` has won, -10 if
/// the other player has won, 0 if nobody has.
pub open spec fn reward(c: Seq<FieldData>, player: FieldData) -> int {
    if winner(c) is Empty {
        0
    } else if winner(c) == player {
        10
    } else {
        -10
    }
}

/// `r` is the reward of some playout that `player` begins on board `c` and
/// that is played to the end of the game.
pub open spec fn is_rollout_reward(c: Seq<FieldData>, player: FieldData, r: int) -> bool {
    exists|moves: Seq<usize>|
        is_playout(c, player, moves) && is_terminal(#[trigger] play(c, player, moves)) && r
            == reward(play(c, player, moves), player)
}

/// A playout that has not ended the game goes on with any empty cell.
pub proof fn lemma_playout_goes_on(
    c: Seq<FieldData>,
    first: FieldData,
    moves: Seq<usize>,
    cell: usize,
)
    requires
        is_playout(c, first, moves),
        !is_terminal(play(c, first, moves)),
        cell < 9,
        play(c, first, moves)[cell as int] is Empty,
    ensures
        is_playout(c, first, moves.push(cell)),
        play(c, first, moves.push(cell)) == play(c, first, moves).update(
            cell as int,
            mover(first, moves.len() as int),
        ),
{
    let longer = moves.push(cell);
    assert(longer.drop_last() =~= moves);
    assert forall|k: int| 0 <= k < longer.len() implies {
        let before = #[trigger] play(c, first, longer.take(k));
        &&& !is_terminal(before)
        &&& longer[k] < 9
        &&& before[longer[k] as int] is Empty
    } by {
        if k < moves.len() {
            assert(longer.take(k) =~= moves.take(k));
        } else {
            assert(longer.take(k) =~= moves);
        }
    }
}

} // verus!
