use tictactoe::board::{update_board, Board, FieldData};
use tictactoe::minimax::minimax;

const X: FieldData = FieldData::X;
const O: FieldData = FieldData::O;
const E: FieldData = FieldData::Empty;

fn grid(c: [FieldData; 9]) -> Board {
    [[c[0], c[1], c[2]], [c[3], c[4], c[5]], [c[6], c[7], c[8]]]
}

#[test]
fn minimax_from_the_empty_board_is_a_draw_at_cell_0() {
    let mut board = grid([E; 9]);
    let res = minimax(&mut board, &O);
    assert_eq!(res.score, 0);
    assert_eq!(res.index, Some(0));
    assert_eq!(board, grid([E; 9]));
}

#[test]
fn minimax_for_x_from_the_empty_board_is_a_draw_at_cell_0() {
    let mut board = grid([E; 9]);
    let res = minimax(&mut board, &X);
    assert_eq!(res.score, 0);
    assert_eq!(res.index, Some(0));
}

#[test]
fn minimax_takes_the_winning_cell() {
    let mut board = grid([O, O, E, E, E, E, E, E, E]);
    let res = minimax(&mut board, &O);
    assert_eq!(res.index, Some(2));
    assert_eq!(res.score, 1);
}

#[test]
fn minimax_for_x_takes_its_winning_cell() {
    let mut board = grid([O, O, X, X, X, E, O, E, E]);
    let res = minimax(&mut board, &X);
    assert_eq!(res.index, Some(5));
    assert_eq!(res.score, -1);
}

#[test]
fn minimax_blocks_a_threat() {
    // X threatens 3-4-5; O has no win of its own and must mark cell 5.
    let mut board = grid([O, E, E, X, X, E, E, E, E]);
    let res = minimax(&mut board, &O);
    assert_eq!(res.index, Some(5));
}

#[test]
fn minimax_returns_the_same_result_every_time() {
    let start = grid([X, E, E, E, O, E, E, E, E]);
    let mut board = start;
    let first = minimax(&mut board, &X);
    let second = minimax(&mut board, &X);
    let mut copy = start;
    let third = minimax(&mut copy, &X);
    assert_eq!((first.score, first.index), (second.score, second.index));
    assert_eq!((first.score, first.index), (third.score, third.index));
}

#[test]
fn minimax_returns_the_only_empty_cell() {
    for cell in 0..9usize {
        // A full board without a winner, with one cell taken out again.
        let mut cells = [X, O, X, X, O, O, O, X, X];
        let mark = cells[cell];
        cells[cell] = E;
        let mut board = grid(cells);
        let res = minimax(&mut board, &mark);
        assert_eq!(res.index, Some(cell as i32));
        assert_eq!(res.score, 0);
    }
}

#[test]
fn minimax_has_no_move_at_a_finished_game() {
    let mut won_by_x = grid([X, X, X, O, O, E, E, E, E]);
    let res = minimax(&mut won_by_x, &O);
    assert_eq!((res.score, res.index), (-1, None));
    let mut won_by_o = grid([O, O, O, X, X, E, X, E, E]);
    let res = minimax(&mut won_by_o, &X);
    assert_eq!((res.score, res.index), (1, None));
    let mut draw = grid([X, O, X, X, O, O, O, X, X]);
    let res = minimax(&mut draw, &O);
    assert_eq!((res.score, res.index), (0, None));
}

#[test]
fn minimax_prefers_the_lowest_cell_among_equal_moves() {
    // O wins at once on cell 2 and on cell 6; the lower index is returned.
    let mut board = grid([O, O, E, O, X, X, E, X, E]);
    let res = minimax(&mut board, &O);
    assert_eq!((res.score, res.index), (1, Some(2)));
}

#[test]
fn minimax_sees_a_forced_loss() {
    // X holds two open lines (0-1-2 and 0-4-8): O to move cannot stop both.
    let mut board = grid([X, X, E, E, X, O, E, O, E]);
    let res = minimax(&mut board, &O);
    assert_eq!(res.score, -1);
    assert_eq!(res.index, Some(2));
}

#[test]
fn minimax_hands_the_board_back_unchanged() {
    let start = grid([X, E, O, E, E, E, E, E, E]);
    let mut board = start;
    minimax(&mut board, &X);
    assert_eq!(board, start);
}

#[test]
fn minimax_move_changes_one_cell_from_empty_to_the_mark() {
    let start = grid([X, E, O, E, O, E, E, E, X]);
    let mut board = start;
    let res = minimax(&mut board, &X);
    let index = res.index.unwrap() as usize;
    let after = update_board(&start, index, &X);
    for cell in 0..9usize {
        if cell == index {
            assert_eq!(start[cell / 3][cell % 3], E);
            assert_eq!(after[cell / 3][cell % 3], X);
        } else {
            assert_eq!(after[cell / 3][cell % 3], start[cell / 3][cell % 3]);
        }
    }
}

#[test]
fn minimax_takes_a_win_at_the_first_empty_cell() {
    // O completes 0-4-8 with cell 0. Cells 3 and 6 win later at best.
    let mut board = grid([E, X, X, E, O, X, E, E, O]);
    let res = minimax(&mut board, &O);
    assert_eq!((res.score, res.index), (1, Some(0)));
    // X completes 0-1-2 with cell 0.
    let mut board = grid([E, X, X, O, O, E, E, E, E]);
    let res = minimax(&mut board, &X);
    assert_eq!((res.score, res.index), (-1, Some(0)));
}
