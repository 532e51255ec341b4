//! The 3x3 board, its cells and the rules of the game.
//!
//! Every rule is stated over the nine cells of a board in row-major order
//! (`cells`), so a cell is named by one index from 0 to 8.

use vstd::prelude::*;

verus! {

/// What a cell holds: one of the two players' marks, or nothing.
#[derive(Copy, Clone, Debug, PartialEq, Eq, Structural)]
pub enum FieldData {
    X,
    O,
    Empty,
}

/// Why a move is not legal.
#[derive(Copy, Clone, Debug, PartialEq, Eq, Structural)]
pub enum MoveError {
    /// The index names no cell of the board.
    OutOfRange,
    /// The cell already holds a mark.
    CellOccupied,
}

impl MoveError {
    /// What is wrong with the move, in words.
    pub fn message(&self) -> (text: &'static str)
        ensures
            text@ == match *self {
                MoveError::OutOfRange => "Move out of range"@,
                MoveError::CellOccupied => "Field already taken"@,
            },
    {
        match self {
            MoveError::OutOfRange => "Move out of range",
            MoveError::CellOccupied => "Field already taken",
        }
    }
}

/// Three rows of three cells.
pub type Board = [[FieldData; 3]; 3];

/// The nine cells of a board in row-major order.
pub open spec fn cells(board: Board) -> Seq<FieldData> {
    Seq::new(9, |i: int| board[i / 3][i % 3])
}

/// A board is determined by its nine cells.
pub proof fn lemma_cells_determine_board(a: Board, b: Board)
    requires
        cells(a) == cells(b),
    ensures
        a == b,
{
    assert forall|r: int| 0 <= r < 3 implies a[r] == b[r] by {
        assert forall|col: int| 0 <= col < 3 implies a[r][col] == b[r][col] by {
            assert(cells(a)[3 * r + col] == a[r][col]);
            assert(cells(b)[3 * r + col] == b[r][col]);
        }
        assert(a[r] =~= b[r]);
    }
    assert(a =~= b);
}

/// The cell indices of line `k`: the three rows, the three columns, the
/// diagonal from the top left and the diagonal from the top right.
pub open spec fn line(k: int) -> (int, int, int) {
    if k == 0 {
        (0, 1, 2)
    } else if k == 1 {
        (3, 4, 5)
    } else if k == 2 {
        (6, 7, 8)
    } else if k == 3 {
        (0, 3, 6)
    } else if k == 4 {
        (1, 4, 7)
    } else if k == 5 {
        (2, 5, 8)
    } else if k == 6 {
        (0, 4, 8)
    } else {
        (2, 4, 6)
    }
}

/// The mark that holds all three cells of line `k`; `Empty` if the line is
/// mixed, partly filled or empty.
pub open spec fn line_owner(c: Seq<FieldData>, k: int) -> FieldData {
    let (a, b, d) = line(k);
    if c[a] == c[b] && c[b] == c[d] {
        c[a]
    } else {
        FieldData::Empty
    }
}

/// The owner of the first owned line among lines `k..8`, `Empty` if there is none.
pub open spec fn winner_from(c: Seq<FieldData>, k: int) -> FieldData
    decreases 8 - k,
{
    if k < 0 || k >= 8 {
        FieldData::Empty
    } else if line_owner(c, k) !is Empty {
        line_owner(c, k)
    } else {
        winner_from(c, k + 1)
    }
}

/// The mark that has won: the owner of the first owned line, `Empty` if no
/// line is owned.
pub open spec fn winner(c: Seq<FieldData>) -> FieldData {
    winner_from(c, 0)
}

/// No cell is empty.
pub open spec fn is_full(c: Seq<FieldData>) -> bool {
    forall|i: int| 0 <= i < 9 ==> c[i] !is Empty
}

/// The game is over: a line is owned or no cell is left.
pub open spec fn is_terminal(c: Seq<FieldData>) -> bool {
    winner(c) !is Empty || is_full(c)
}

/// The other player's mark. `Empty` is no player and stays as it is.
pub open spec fn opponent_of(mark: FieldData) -> FieldData {
    match mark {
        FieldData::X => FieldData::O,
        FieldData::O => FieldData::X,
        FieldData::Empty => FieldData::Empty,
    }
}

/// The indices below `k` of the empty cells, in increasing order.
pub open spec fn empty_cells_below(c: Seq<FieldData>, k: int) -> Seq<usize>
    decreases k,
{
    if k <= 0 {
        Seq::empty()
    } else if c[k - 1] is Empty {
        empty_cells_below(c, k - 1).push((k - 1) as usize)
    } else {
        empty_cells_below(c, k - 1)
    }
}

/// The indices of the empty cells of a board, in increasing order.
pub open spec fn empty_cells(c: Seq<FieldData>) -> Seq<usize> {
    empty_cells_below(c, 9)
}

/// `empty_cells_below(c, k)` lists each empty cell below `k` once, in
/// increasing order, and nothing else.
pub proof fn lemma_empty_cells_below(c: Seq<FieldData>, k: int)
    requires
        0 <= k <= 9,
    ensures
        empty_cells_below(c, k).len() <= k,
        forall|j: int|
            0 <= j < empty_cells_below(c, k).len() ==> {
                &&& (#[trigger] empty_cells_below(c, k)[j]) < k
                &&& c[empty_cells_below(c, k)[j] as int] is Empty
            },
        forall|i: int, j: int|
            0 <= i < j < empty_cells_below(c, k).len() ==> empty_cells_below(c, k)[i]
                < empty_cells_below(c, k)[j],
        forall|i: int|
            0 <= i < k && c[i] is Empty ==> empty_cells_below(c, k).contains(i as usize),
    decreases k,
{
    if k > 0 {
        lemma_empty_cells_below(c, k - 1);
        let prev = empty_cells_below(c, k - 1);
        let cur = empty_cells_below(c, k);
        assert forall|i: int| 0 <= i < k && c[i] is Empty implies cur.contains(i as usize) by {
            if i == k - 1 {
                assert(cur[cur.len() - 1] == i as usize);
            } else {
                assert(prev.contains(i as usize));
                let j = choose|j: int| 0 <= j < prev.len() && prev[j] == i as usize;
                assert(cur[j] == i as usize);
            }
        }
    }
}

/// What `empty_cells` lists: exactly the empty cells, each once, in increasing order.
pub proof fn lemma_empty_cells(c: Seq<FieldData>)
    ensures
        empty_cells(c).len() <= 9,
        forall|j: int|
            0 <= j < empty_cells(c).len() ==> {
                &&& (#[trigger] empty_cells(c)[j]) < 9
                &&& c[empty_cells(c)[j] as int] is Empty
            },
        forall|i: int, j: int|
            0 <= i < j < empty_cells(c).len() ==> empty_cells(c)[i] < empty_cells(c)[j],
        forall|i: int| 0 <= i < 9 && c[i] is Empty ==> empty_cells(c).contains(i as usize),
        is_full(c) <==> empty_cells(c).len() == 0,
{
    lemma_empty_cells_below(c, 9);
    if empty_cells(c).len() > 0 {
        assert(c[empty_cells(c)[0] as int] is Empty);
    }
    if !is_full(c) {
        let i = choose|i: int| 0 <= i < 9 && c[i] is Empty;
        assert(empty_cells(c).contains(i as usize));
    }
}

/// A mark placed on an empty cell leaves one empty cell fewer.
pub proof fn lemma_move_fills_a_cell(c: Seq<FieldData>, i: int, mark: FieldData)
    requires
        c.len() == 9,
        0 <= i < 9,
        c[i] is Empty,
        mark !is Empty,
    ensures
        empty_cells(c.update(i, mark)).len() + 1 == empty_cells(c).len(),
{
    lemma_move_fills_below(c, i, mark, 9);
}

/// Below the cell that is marked the list of empty cells stays as it was;
/// from that cell on it is one shorter.
proof fn lemma_move_fills_below(c: Seq<FieldData>, i: int, mark: FieldData, k: int)
    requires
        c.len() == 9,
        0 <= i < 9,
        c[i] is Empty,
        mark !is Empty,
        0 <= k <= 9,
    ensures
        k <= i ==> empty_cells_below(c.update(i, mark), k) == empty_cells_below(c, k),
        k > i ==> empty_cells_below(c.update(i, mark), k).len() + 1 == empty_cells_below(
            c,
            k,
        ).len(),
    decreases k,
{
    if k > 0 {
        lemma_move_fills_below(c, i, mark, k - 1);
    }
}

/// A board that holds one mark on the three cells of one line and nothing
/// else is won by that mark.
pub proof fn lemma_single_line_wins(c: Seq<FieldData>, k: int, mark: FieldData)
    requires
        c.len() == 9,
        0 <= k < 8,
        mark !is Empty,
        forall|i: int|
            0 <= i < 9 ==> c[i] == if i == line(k).0 || i == line(k).1 || i == line(k).2 {
                mark
            } else {
                FieldData::Empty
            },
    ensures
        winner(c) == mark,
{
    reveal_with_fuel(winner_from, 9);
    assert(line_owner(c, k) == mark);
    assert forall|j: int| 0 <= j < 8 && j != k implies line_owner(c, j) is Empty by {
        let (a, b, d) = line(j);
        assert(c[a] is Empty || c[b] is Empty || c[d] is Empty);
    }
}

/// The two players are each other's opponent.
pub proof fn lemma_opponent_is_an_involution(mark: FieldData)
    ensures
        opponent_of(opponent_of(mark)) == mark,
        mark !is Empty ==> opponent_of(mark) != mark && opponent_of(mark) !is Empty,
{
}

/// The cell `i` of a board.
pub fn cell_at(board: &Board, i: usize) -> (mark: FieldData)
    requires
        i < 9,
    ensures
        mark == cells(*board)[i as int],
{
    board[i / 3][i % 3]
}

/// The other player's mark.
pub fn opponent(mark: FieldData) -> (other: FieldData)
    ensures
        other == opponent_of(mark),
{
    match mark {
        FieldData::X => FieldData::O,
        FieldData::O => FieldData::X,
        FieldData::Empty => FieldData::Empty,
    }
}

/// A copy of `board` with `player`'s mark written to cell `field_num`,
/// whatever the cell held.
pub fn update_board(board: &Board, field_num: usize, player: &FieldData) -> (new_board: Board)
    requires
        field_num < 9,
    ensures
        cells(new_board) == cells(*board).update(field_num as int, *player),
{
    let mut new_board = *board;
    new_board[field_num / 3][field_num % 3] = *player;
    new_board
}

/// The nine cells of a board as one row-major array.
pub fn flatten_2d_board(board: &Board) -> (flattened: [FieldData; 9])
    ensures
        flattened@ == cells(*board),
{
    let mut flattened: [FieldData; 9] = [FieldData::Empty; 9];
    let mut i: usize = 0;
    while i < 9
        invariant
            i <= 9,
            forall|j: int| 0 <= j < i ==> flattened@[j] == cells(*board)[j],
        decreases 9 - i,
    {
        flattened[i] = cell_at(board, i);
        i += 1;
    }
    assert(flattened@ =~= cells(*board));
    flattened
}

/// The indices of the empty cells, in increasing order.
pub fn find_empty_fields(board: &Board) -> (available_fields: Vec<usize>)
    ensures
        available_fields@ == empty_cells(cells(*board)),
{
    let mut available_fields: Vec<usize> = Vec::new();
    let mut i: usize = 0;
    while i < 9
        invariant
            i <= 9,
            available_fields@ == empty_cells_below(cells(*board), i as int),
        decreases 9 - i,
    {
        if cell_at(board, i) == FieldData::Empty {
            available_fields.push(i);
        }
        i += 1;
    }
    available_fields
}

/// Whether `field_num` names a cell that a mark may be placed on.
pub fn is_legal_move(board: &Board, field_num: usize) -> (res: Result<bool, MoveError>)
    ensures
        res == if field_num > 8 {
            Err::<bool, MoveError>(MoveError::OutOfRange)
        } else if cells(*board)[field_num as int] !is Empty {
            Err::<bool, MoveError>(MoveError::CellOccupied)
        } else {
            Ok::<bool, MoveError>(true)
        },
{
    if field_num > 8 {
        return Err(MoveError::OutOfRange);
    }
    if cell_at(board, field_num) != FieldData::Empty {
        return Err(MoveError::CellOccupied);
    }
    Ok(true)
}

/// Whether every cell holds a mark.
pub fn are_fields_full(board: &Board) -> (full: bool)
    ensures
        full == is_full(cells(*board)),
{
    let mut i: usize = 0;
    while i < 9
        invariant
            i <= 9,
            forall|j: int| 0 <= j < i ==> cells(*board)[j] !is Empty,
        decreases 9 - i,
    {
        if cell_at(board, i) == FieldData::Empty {
            return false;
        }
        i += 1;
    }
    true
}

/// The cell indices of line `k`.
fn line_cells(k: usize) -> (l: (usize, usize, usize))
    requires
        k < 8,
    ensures
        (l.0 as int, l.1 as int, l.2 as int) == line(k as int),
        l.0 < 9 && l.1 < 9 && l.2 < 9,
{
    if k < 3 {
        (3 * k, 3 * k + 1, 3 * k + 2)
    } else if k < 6 {
        (k - 3, k, k + 3)
    } else if k == 6 {
        (0, 4, 8)
    } else {
        (2, 4, 6)
    }
}

/// The mark that has won, `Empty` if no line is owned by a mark.
///
/// Lines are tried in the order of `line`: rows, columns, diagonals. The
/// first line whose three cells hold the same mark decides.
pub fn check_for_winners(board: &Board) -> (w: FieldData)
    ensures
        w == winner(cells(*board)),
        w is Empty <==> forall|k: int| 0 <= k < 8 ==> line_owner(cells(*board), k) is Empty,
        w !is Empty ==> exists|k: int|
            0 <= k < 8 && #[trigger] line_owner(cells(*board), k) == w && forall|j: int|
                0 <= j < k ==> line_owner(cells(*board), j) is Empty,
{
    let mut k: usize = 0;
    while k < 8
        invariant
            k <= 8,
            forall|j: int| 0 <= j < k ==> line_owner(cells(*board), j) is Empty,
            winner(cells(*board)) == winner_from(cells(*board), k as int),
        decreases 8 - k,
    {
        let (a, b, d) = line_cells(k);
        let mark = cell_at(board, a);
        if mark != FieldData::Empty && mark == cell_at(board, b) && mark == cell_at(board, d) {
            assert(line_owner(cells(*board), k as int) == mark);
            return mark;
        }
        k += 1;
    }
    FieldData::Empty
}

/// Whether another move can be played: nobody has won and a cell is empty.
pub fn is_game_active(board: &Board) -> (active: bool)
    ensures
        active == !is_terminal(cells(*board)),
        active == (winner(cells(*board)) is Empty && !is_full(cells(*board))),
{
    let is_there_winner = match check_for_winners(board) {
        FieldData::O => true,
        FieldData::X => true,
        FieldData::Empty => false,
    };
    let is_full = are_fields_full(board);
    !is_full && !is_there_winner
}

} // verus!
