use rand::rngs::StdRng;
use rand::SeedableRng;
use tictactoe::board::{is_legal_move, Board, FieldData};
use tictactoe::strategy::{first_player, generate_bot_move, GameType, LIMIT};

const X: FieldData = FieldData::X;
const O: FieldData = FieldData::O;
const E: FieldData = FieldData::Empty;

fn position(c: [FieldData; 9]) -> Board {
    [[c[0], c[1], c[2]], [c[3], c[4], c[5]], [c[6], c[7], c[8]]]
}

#[test]
fn menu_numbers_name_the_three_bots() {
    assert_eq!(GameType::from_number(1), Some(GameType::Random));
    assert_eq!(GameType::from_number(2), Some(GameType::Minimax));
    assert_eq!(GameType::from_number(3), Some(GameType::MCTS));
}

#[test]
fn other_numbers_name_no_bot() {
    assert_eq!(GameType::from_number(0), None);
    assert_eq!(GameType::from_number(4), None);
    assert_eq!(GameType::from_number(-1), None);
    assert_eq!(GameType::from_number(i32::MAX), None);
    assert_eq!(GameType::from_number(i32::MIN), None);
}

#[test]
fn an_even_draw_lets_x_begin() {
    assert_eq!(first_player(0), X);
    assert_eq!(first_player(1), O);
    assert_eq!(first_player(254), X);
    assert_eq!(first_player(255), O);
}

#[test]
fn search_budget_of_the_bot_is_a_thousand_steps() {
    assert_eq!(LIMIT, 1000);
}

#[test]
fn every_bot_picks_an_empty_cell() {
    let mut rng = StdRng::seed_from_u64(41);
    let boards = [
        position([E; 9]),
        position([X, E, E, E, E, E, E, E, E]),
        position([X, O, X, E, O, E, E, X, E]),
        position([X, X, E, O, O, E, E, E, E]),
    ];
    for kind in [GameType::Random, GameType::Minimax, GameType::MCTS] {
        for board in boards {
            let mut given = board;
            let cell = generate_bot_move(&mut given, &kind, &mut rng);
            assert_eq!(given, board);
            assert_eq!(is_legal_move(&board, cell), Ok(true));
        }
    }
}

#[test]
fn every_bot_takes_the_last_cell() {
    let mut rng = StdRng::seed_from_u64(42);
    for cell in 0..9usize {
        let mut cells = [X, O, X, X, O, O, O, X, X];
        cells[cell] = E;
        for kind in [GameType::Random, GameType::Minimax, GameType::MCTS] {
            let mut board = position(cells);
            assert_eq!(generate_bot_move(&mut board, &kind, &mut rng), cell);
        }
    }
}

#[test]
fn minimax_bot_plays_o_and_wins_when_it_can() {
    let mut rng = StdRng::seed_from_u64(43);
    let mut board = position([O, O, E, X, X, E, E, E, E]);
    assert_eq!(generate_bot_move(&mut board, &GameType::Minimax, &mut rng), 2);
}

#[test]
fn minimax_bot_blocks_the_opponent() {
    let mut rng = StdRng::seed_from_u64(44);
    let mut board = position([O, E, E, X, X, E, E, E, E]);
    assert_eq!(generate_bot_move(&mut board, &GameType::Minimax, &mut rng), 5);
}

#[test]
fn minimax_bot_does_not_lose_against_random_play() {
    let mut rng = StdRng::seed_from_u64(45);
    for _ in 0..20 {
        let mut board = position([E; 9]);
        let mut mover = X;
        loop {
            let won = tictactoe::board::check_for_winners(&board);
            assert!(won != X);
            if !tictactoe::board::is_game_active(&board) {
                break;
            }
            let kind = if mover == O {
                GameType::Minimax
            } else {
                GameType::Random
            };
            let cell = generate_bot_move(&mut board, &kind, &mut rng);
            board = tictactoe::board::update_board(&board, cell, &mover);
            mover = tictactoe::board::opponent(mover);
        }
    }
}
