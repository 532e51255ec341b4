//! The strategies of the bot, and how one is picked.
//!
//! The bot plays `O`.

use vstd::prelude::*;
use rand::rngs::StdRng;
use crate::board::{cells, is_terminal, lemma_empty_cells, winner, Board, FieldData};
use crate::mcts::mcts;
use crate::minimax::{lemma_best_reply, minimax, minimax_choice};
use crate::random::random_bot_move;
use crate::search::{is_mcts_move, lemma_mcts_move_is_legal};

verus! {

/// How the bot picks its moves.
#[derive(Copy, Clone, Debug, PartialEq, Eq, Structural)]
pub enum GameType {
    /// Any empty cell, each with the same chance.
    Random,
    /// The best move under perfect play of both sides.
    Minimax,
    /// The move that a Monte Carlo tree search of `LIMIT` steps prefers.
    MCTS,
}

/// The number of steps of a Monte Carlo tree search for one move of the bot.
pub const LIMIT: u32 = 1000;

/// `field_num` may be the move of a bot of the given kind on board `c`.
pub open spec fn is_bot_move(c: Seq<FieldData>, game_type: GameType, field_num: usize) -> bool {
    match game_type {
        GameType::Random => field_num < 9 && c[field_num as int] is Empty,
        GameType::Minimax => field_num < 9 && minimax_choice(c, FieldData::O) == Some(
            field_num as i32,
        ),
        GameType::MCTS => is_mcts_move(c, FieldData::O, LIMIT as nat, field_num),
    }
}

impl GameType {
    /// The kind of bot that a menu number stands for: 1 for the random bot,
    /// 2 for minimax, 3 for Monte Carlo tree search, and nothing for any
    /// other number.
    pub fn from_number(number: i32) -> (game_type: Option<GameType>)
        ensures
            game_type == if number == 1 {
                Some(GameType::Random)
            } else if number == 2 {
                Some(GameType::Minimax)
            } else if number == 3 {
                Some(GameType::MCTS)
            } else {
                None
            },
    {
        match number {
            1 => Some(GameType::Random),
            2 => Some(GameType::Minimax),
            3 => Some(GameType::MCTS),
            _ => None,
        }
    }
}

/// Who moves first, from a number drawn at random: `X` on an even number,
/// `O` on an odd one.
pub fn first_player(drawn: u8) -> (player: FieldData)
    ensures
        player == if drawn % 2 == 0 {
            FieldData::X
        } else {
            FieldData::O
        },
{
    if drawn % 2 == 0 {
        FieldData::X
    } else {
        FieldData::O
    }
}

/// The move of the bot on a board on which the game is not over.
///
/// Whatever the kind of bot, the move is an empty cell, and the board is
/// handed back as it was given.
pub fn generate_bot_move(board: &mut Board, game_type: &GameType, rng: &mut StdRng) -> (field_num:
    usize)
    requires
        !is_terminal(cells(*old(board))),
    ensures
        *final(board) == *old(board),
        is_bot_move(cells(*old(board)), *game_type, field_num),
        field_num < 9,
        cells(*old(board))[field_num as int] is Empty,
{
    proof {
        lemma_empty_cells(cells(*board));
    }
    match game_type {
        GameType::Random => random_bot_move(board, rng),
        GameType::Minimax => {
            let res = minimax(board, &FieldData::O);
            match res.index {
                None => vstd::pervasive::unreached(),
                Some(i) => i as usize,
            }
        },
        GameType::MCTS => mcts(board, &FieldData::O, LIMIT, rng),
    }
}

/// Whatever the kind of bot, the move it picks while the game is not over is
/// an empty cell: playing it changes that one cell from `Empty` to the bot's
/// mark and no other cell.
pub proof fn lemma_bot_move_changes_one_cell(
    board: Board,
    game_type: GameType,
    field_num: usize,
    after: Board,
)
    requires
        !is_terminal(cells(board)),
        is_bot_move(cells(board), game_type, field_num),
        cells(after) == cells(board).update(field_num as int, FieldData::O),
    ensures
        field_num < 9,
        cells(board)[field_num as int] is Empty,
        cells(after)[field_num as int] is O,
        forall|j: int| 0 <= j < 9 && j != field_num ==> cells(after)[j] == cells(board)[j],
{
    match game_type {
        GameType::Random => {},
        GameType::Minimax => {
            lemma_best_reply(cells(board), FieldData::O, 9);
        },
        GameType::MCTS => {
            lemma_mcts_move_is_legal(cells(board), FieldData::O, LIMIT as nat, field_num);
        },
    }
}

/// On a board with one empty cell and no winner every kind of bot picks that
/// cell.
pub proof fn lemma_bot_takes_the_last_cell(
    board: Board,
    game_type: GameType,
    i: int,
    field_num: usize,
)
    requires
        0 <= i < 9,
        cells(board)[i] is Empty,
        forall|j: int| 0 <= j < 9 && j != i ==> cells(board)[j] !is Empty,
        winner(cells(board)) is Empty,
        is_bot_move(cells(board), game_type, field_num),
    ensures
        field_num == i,
{
    match game_type {
        GameType::Random => {},
        GameType::Minimax => {
            lemma_best_reply(cells(board), FieldData::O, 9);
        },
        GameType::MCTS => {
            lemma_mcts_move_is_legal(cells(board), FieldData::O, LIMIT as nat, field_num);
        },
    }
}

} // verus!
