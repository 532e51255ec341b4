use tictactoe::board::{
    are_fields_full, cell_at, check_for_winners, find_empty_fields, flatten_2d_board,
    is_game_active, is_legal_move, opponent, update_board, Board, FieldData, MoveError,
};
use tictactoe::display::display_field_value;

const X: FieldData = FieldData::X;
const O: FieldData = FieldData::O;
const E: FieldData = FieldData::Empty;

fn board_of(c: [FieldData; 9]) -> Board {
    [[c[0], c[1], c[2]], [c[3], c[4], c[5]], [c[6], c[7], c[8]]]
}

fn only_line(cells: [usize; 3], mark: FieldData) -> Board {
    let mut c = [E; 9];
    c[cells[0]] = mark;
    c[cells[1]] = mark;
    c[cells[2]] = mark;
    board_of(c)
}

#[test]
fn winner_is_none_on_the_empty_board() {
    assert_eq!(check_for_winners(&board_of([E; 9])), E);
}

#[test]
fn winner_is_none_without_a_full_line() {
    assert_eq!(check_for_winners(&board_of([X, O, X, X, O, O, O, X, X])), E);
    assert_eq!(check_for_winners(&board_of([X, X, E, O, O, E, E, E, E])), E);
    assert_eq!(check_for_winners(&board_of([X, X, O, E, E, E, E, E, E])), E);
}

#[test]
fn winner_is_found_on_each_row() {
    for mark in [X, O] {
        assert_eq!(check_for_winners(&only_line([0, 1, 2], mark)), mark);
        assert_eq!(check_for_winners(&only_line([3, 4, 5], mark)), mark);
        assert_eq!(check_for_winners(&only_line([6, 7, 8], mark)), mark);
    }
}

#[test]
fn winner_is_found_on_each_column() {
    for mark in [X, O] {
        assert_eq!(check_for_winners(&only_line([0, 3, 6], mark)), mark);
        assert_eq!(check_for_winners(&only_line([1, 4, 7], mark)), mark);
        assert_eq!(check_for_winners(&only_line([2, 5, 8], mark)), mark);
    }
}

#[test]
fn winner_is_found_on_each_diagonal() {
    for mark in [X, O] {
        assert_eq!(check_for_winners(&only_line([0, 4, 8], mark)), mark);
        assert_eq!(check_for_winners(&only_line([2, 4, 6], mark)), mark);
    }
}

#[test]
fn winner_is_the_first_owned_line_in_scan_order() {
    // An upper row comes before a lower one.
    assert_eq!(check_for_winners(&board_of([O, O, O, X, X, X, E, E, E])), O);
    assert_eq!(check_for_winners(&board_of([X, X, X, O, O, O, E, E, E])), X);
    assert_eq!(check_for_winners(&board_of([E, E, E, X, X, X, O, O, O])), X);
    // A column on the left comes before one on the right.
    assert_eq!(check_for_winners(&board_of([O, X, E, O, X, E, O, X, E])), O);
    assert_eq!(check_for_winners(&board_of([E, X, O, E, X, O, E, X, O])), X);
}

#[test]
fn an_empty_line_is_not_a_win() {
    // The middle row is empty: three equal cells that no player holds.
    assert_eq!(check_for_winners(&board_of([X, O, X, E, E, E, O, X, O])), E);
}

#[test]
fn legal_move_rejects_an_index_out_of_range() {
    let board = board_of([E; 9]);
    assert_eq!(is_legal_move(&board, 9), Err(MoveError::OutOfRange));
    assert_eq!(is_legal_move(&board, usize::MAX), Err(MoveError::OutOfRange));
}

#[test]
fn legal_move_rejects_an_occupied_cell() {
    let board = board_of([X, E, E, E, O, E, E, E, E]);
    assert_eq!(is_legal_move(&board, 0), Err(MoveError::CellOccupied));
    assert_eq!(is_legal_move(&board, 4), Err(MoveError::CellOccupied));
}

#[test]
fn legal_move_accepts_an_empty_cell_in_range() {
    let board = board_of([X, E, E, E, O, E, E, E, E]);
    assert_eq!(is_legal_move(&board, 1), Ok(true));
    assert_eq!(is_legal_move(&board, 8), Ok(true));
    // The board is not touched.
    assert_eq!(board, board_of([X, E, E, E, O, E, E, E, E]));
}

#[test]
fn game_is_not_active_on_a_full_board_without_winner() {
    assert!(!is_game_active(&board_of([X, O, X, X, O, O, O, X, X])));
}

#[test]
fn game_is_not_active_once_somebody_has_won() {
    assert!(!is_game_active(&board_of([X, X, X, O, O, E, E, E, E])));
    assert!(!is_game_active(&board_of([O, X, X, X, O, X, O, X, O])));
}

#[test]
fn game_is_active_on_an_open_board_without_winner() {
    assert!(is_game_active(&board_of([E; 9])));
    assert!(is_game_active(&board_of([X, O, X, X, O, O, O, X, E])));
}

#[test]
fn full_board_is_recognised() {
    assert!(are_fields_full(&board_of([X, O, X, X, O, O, O, X, X])));
    assert!(!are_fields_full(&board_of([X, O, X, X, O, O, O, X, E])));
    assert!(!are_fields_full(&board_of([E; 9])));
}

#[test]
fn empty_fields_are_listed_in_row_major_order() {
    assert_eq!(find_empty_fields(&board_of([E; 9])), vec![0, 1, 2, 3, 4, 5, 6, 7, 8]);
    assert_eq!(find_empty_fields(&board_of([X, E, O, E, E, X, O, E, X])), vec![1, 3, 4, 7]);
    assert_eq!(find_empty_fields(&board_of([X, O, X, X, O, O, O, X, X])), Vec::<usize>::new());
}

#[test]
fn flattening_keeps_row_major_order() {
    let board = [[X, O, E], [E, X, O], [O, E, X]];
    assert_eq!(flatten_2d_board(&board), [X, O, E, E, X, O, O, E, X]);
}

#[test]
fn cell_is_read_by_its_row_major_index() {
    let board = [[X, O, E], [E, X, O], [O, E, X]];
    assert_eq!(cell_at(&board, 0), X);
    assert_eq!(cell_at(&board, 5), O);
    assert_eq!(cell_at(&board, 7), E);
}

#[test]
fn update_changes_exactly_the_named_cell() {
    let board = board_of([X, E, E, E, O, E, E, E, E]);
    let after = update_board(&board, 5, &X);
    assert_eq!(after, board_of([X, E, E, E, O, X, E, E, E]));
    assert_eq!(board, board_of([X, E, E, E, O, E, E, E, E]));
    // A held cell is overwritten.
    assert_eq!(update_board(&board, 4, &X), board_of([X, E, E, E, X, E, E, E, E]));
}

#[test]
fn opponent_swaps_the_two_marks() {
    assert_eq!(opponent(X), O);
    assert_eq!(opponent(O), X);
    assert_eq!(opponent(opponent(X)), X);
    assert_eq!(opponent(opponent(O)), O);
    assert_eq!(opponent(E), E);
}

#[test]
fn a_mark_is_shown_by_its_letter() {
    assert_eq!(display_field_value(&X, &1), "X");
    assert_eq!(display_field_value(&O, &9), "O");
}

#[test]
fn an_empty_cell_is_shown_by_its_number() {
    assert_eq!(display_field_value(&E, &5), "5");
    assert_eq!(display_field_value(&E, &0), "0");
    assert_eq!(display_field_value(&E, &12), "12");
    assert_eq!(display_field_value(&E, &1907), "1907");
}

#[test]
fn move_errors_say_what_is_wrong() {
    assert_eq!(MoveError::OutOfRange.message(), "Move out of range");
    assert_eq!(MoveError::CellOccupied.message(), "Field already taken");
    let board = board_of([X, E, E, E, E, E, E, E, E]);
    assert_eq!(is_legal_move(&board, 0).unwrap_err().message(), "Field already taken");
    assert_eq!(is_legal_move(&board, 9).unwrap_err().message(), "Move out of range");
}
