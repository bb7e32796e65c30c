use ultimate_tic_tac_toe::board::move_finder::BoardMoveFinder;
use ultimate_tic_tac_toe::board::move_iter::BoardMoveIter;
use ultimate_tic_tac_toe::board::nested::NestedBoard;
use ultimate_tic_tac_toe::board::Board;
use ultimate_tic_tac_toe::types::{CellState, Player};
use ultimate_tic_tac_toe::types::CellState::{Free, Player1, Player2};
use std::collections::HashMap;

#[test]
fn test_1d_idx() {
    assert_eq!(Board::to_1d_idx(0, 0), 0);
    assert_eq!(Board::to_1d_idx(1, 0), 1);
    assert_eq!(Board::to_1d_idx(2, 0), 2);
    assert_eq!(Board::to_1d_idx(0, 1), 3);
    assert_eq!(Board::to_1d_idx(1, 1), 4);
    assert_eq!(Board::to_1d_idx(2, 1), 5);
    assert_eq!(Board::to_1d_idx(0, 2), 6);
    assert_eq!(Board::to_1d_idx(1, 2), 7);
    assert_eq!(Board::to_1d_idx(2, 2), 8);
}

#[test]
fn test_board_empty() {
    let board = Board::new();
    for row in 0..2 {
        for col in 0..2 {
            assert_eq!(board.get(row, col), CellState::Free)
        }
    }
}

#[test]
fn test_board_set_bits() {
    let mut board = Board::new();
    board.set(1, 0, Player::Player1);
    let expected = 0b1000;
    assert_eq!(board.0, expected);
    board.set(2, 1, Player::Player2);
    let expected = 0b1100_0000_1000;
    assert_eq!(board.0, expected);
}

#[test]
fn test_board_fill() {
    let mut board = Board::new();
    for row in 0..2 {
        for col in 0..2 {
            let player = if (row + col) % 2 == 0 { Player::Player1 } else { Player::Player2 };
            board.set(row, col, player);
        }
    }
    for row in 0..2 {
        for col in 0..2 {
            let player = if (row + col) % 2 == 0 { Player::Player1 } else { Player::Player2 };
            assert_eq!(board.get(row, col), player.cell_state())
        }
    }
}

#[test]
fn test_from_matrix() {
    let board = Board::from_matrix(&[[Free, Free, Free], [Free, Free, Free], [Free, Free, Free]]);
    assert!(board.is_empty());
    let board = Board::from_matrix(&[
        [Free, Free, Player2],
        [Player2, Player1, Player2],
        [Player1, Player2, Player1],
    ]);
    assert_eq!(board.get(0, 0), Free);
    assert_eq!(board.get(0, 1), Free);
    assert_eq!(board.get(0, 2), Player2);
    assert_eq!(board.get(1, 0), Player2);
    assert_eq!(board.get(1, 1), Player1);
    assert_eq!(board.get(1, 2), Player2);
    assert_eq!(board.get(2, 0), Player1);
    assert_eq!(board.get(2, 1), Player2);
    assert_eq!(board.get(2, 2), Player1);

    let expected = 0b10_1111_1110_0010_1100;
    assert_eq!(board.0, expected);
}

#[test]
fn test_winner_no_winner() {

    assert_eq!(Board::new().calc_winner(), None);

    let board = Board::from_matrix(&[
        [Free, Free, Player2],
        [Player2, Player1, Player2],
        [Player1, Player2, Player1],
    ]);
    assert_eq!(board.calc_winner(), None);

    let board = Board::from_matrix(&[
        [Player2, Free, Player2],
        [Player2, Player1, Player2],
        [Player1, Player2, Player1],
    ]);
    assert_eq!(board.calc_winner(), None);

    let board = Board::from_matrix(&[
        [Player2, Free, Player2],
        [Free, Player1, Player2],
        [Player2, Player2, Player1],
    ]);
    assert_eq!(board.calc_winner(), None);
}

#[test]
fn test_winner_row() {

    let board = Board::from_matrix(&[
        [Free, Free, Player2],
        [Player2, Player1, Player2],
        [Player1, Player1, Player1],
    ]);
    assert_eq!(board.calc_winner(), Some(Player::Player1));

    let board = Board::from_matrix(&[
        [Player1, Free, Player1],
        [Player2, Player2, Player2],
        [Player2, Player1, Player1],
    ]);
    assert_eq!(board.calc_winner(), Some(Player::Player2));

    let board = Board::from_matrix(&[
        [Player1, Player1, Player1],
        [Player2, Player1, Player2],
        [Player2, Player2, Player2],
    ]);
    assert_eq!(board.calc_winner(), Some(Player::Player1));
}

#[test]
fn test_winner_col() {

    let board = Board::from_matrix(&[
        [Free, Free, Player2],
        [Player1, Player1, Player2],
        [Player1, Player1, Player2],
    ]);
    assert_eq!(board.calc_winner(), Some(Player::Player2));

    let board = Board::from_matrix(&[
        [Player1, Free, Player2],
        [Player1, Player2, Player2],
        [Player1, Player1, Player1],
    ]);
    assert_eq!(board.calc_winner(), Some(Player::Player1));

    let board = Board::from_matrix(&[
        [Player1, Player1, Free],
        [Player2, Player1, Player2],
        [Player2, Player1, Player2],
    ]);
    assert_eq!(board.calc_winner(), Some(Player::Player1));
}

#[test]
fn test_winner_diag() {

    let board = Board::from_matrix(&[
        [Free, Free, Player1],
        [Player2, Player1, Player2],
        [Player1, Player1, Player2],
    ]);
    assert_eq!(board.calc_winner(), Some(Player::Player1));

    let board = Board::from_matrix(&[
        [Player1, Free, Player2],
        [Player1, Player2, Player2],
        [Player2, Player1, Player1],
    ]);
    assert_eq!(board.calc_winner(), Some(Player::Player2));
}

#[test]
fn test_best_move_1_left() {

    let board = Board::from_matrix(&[
        [Free, Player1, Player1],
        [Player1, Player2, Player2],
        [Player2, Player1, Player2],
    ]);
    let best_move = board.find_best_move(Player::Player1);
    assert_eq!(best_move, (0, 0));

    let board = Board::from_matrix(&[
        [Player2, Player1, Player1],
        [Player1, Free, Player2],
        [Player2, Player1, Player2],
    ]);
    let best_move = board.find_best_move(Player::Player1);
    assert_eq!(best_move, (1, 1));
}

#[test]
fn test_best_move_2_left() {

    let board = Board::from_matrix(&[
        [Player1, Player2, Player1],
        [Player1, Free, Player1],
        [Player2, Free, Player2],
    ]);
    let best_move = board.find_best_move(Player::Player2);
    assert_eq!(best_move, (2, 1));
}

#[test]
fn test_move_scores_symmetric_vertically_and_horizontally_mirrored() {

    let empty = Board::new();
    let move_calc = &mut BoardMoveFinder::new();
    let (best_move, best_score) = empty.find_best_move_score(move_calc, Player::Player1);
    assert_eq!(best_move, (1, 1));
    assert!(best_score >= 0);

    let only_center =
        Board::from_matrix(&[[Free, Free, Free], [Free, Player2, Free], [Free, Free, Free]]);

    for (board, name) in [(empty, "empty"), (only_center, "only_center")] {
        let scores: HashMap<_, _> =
            board.find_move_scores(move_calc, Player::Player1).into_iter().collect();
        let msg = format!("corners should equal to each other for board type: '{name}'");
        assert_eq!(scores.get(&(0, 0)), scores.get(&(0, 2)), "{msg}");
        assert_eq!(scores.get(&(0, 0)), scores.get(&(2, 0)), "{msg}");
        assert_eq!(scores.get(&(0, 0)), scores.get(&(2, 2)), "{msg}");

        let msg =
            format!("middles-of-the-sides should equal to each other for board type: '{name}'");
        assert_eq!(scores.get(&(1, 0)), scores.get(&(0, 1)), "{msg}");
        assert_eq!(scores.get(&(1, 0)), scores.get(&(1, 2)), "{msg}");
        assert_eq!(scores.get(&(1, 0)), scores.get(&(2, 1)), "{msg}");
    }
}

#[test]
fn test_move_scores_symmetric_vertically_mirrored() {

    let board = Board::from_matrix(&[
        [Free, Free, Free],
        [Player1, Player2, Player1],
        [Free, Free, Free],
    ]);
    let move_calc = &mut BoardMoveFinder::new();

    let scores: HashMap<_, _> =
        board.find_move_scores(move_calc, Player::Player2).into_iter().collect();
    assert_eq!(scores.get(&(0, 0)), scores.get(&(0, 2)));
    assert_eq!(scores.get(&(0, 0)), scores.get(&(2, 0)));
    assert_eq!(scores.get(&(0, 0)), scores.get(&(2, 2)));
    assert_eq!(scores.get(&(0, 1)), scores.get(&(2, 1)));
}

#[test]
fn test_move_scores_symmetric_horizontally_mirrored() {

    let board0 = Board::from_matrix(&[
        [Free, Free, Free],
        [Player1, Player2, Free],
        [Free, Free, Free],
    ]);
    let board1 = Board::from_matrix(&[
        [Free, Free, Free],
        [Player1, Player2, Player2],
        [Free, Free, Free],
    ]);
    let board2 = Board::from_matrix(&[
        [Player2, Free, Free],
        [Player1, Player2, Player1],
        [Player2, Free, Free],
    ]);
    let board3 = Board::from_matrix(&[
        [Player2, Free, Player1],
        [Player1, Player1, Player2],
        [Player2, Free, Player1],
    ]);

    let move_calc = &mut BoardMoveFinder::new();
    for (idx, board) in [board0, board1, board2, board3].iter().enumerate() {
        let scores: HashMap<_, _> =
            board.find_move_scores(move_calc, Player::Player1).into_iter().collect();
        let get_row = |row: usize| [0, 1, 2].map(|col| *scores.get(&(row, col)).unwrap_or(&i64::MIN));

        let upper = get_row(0);
        let lower = get_row(2);
        assert_eq!(
            upper, lower,
            "upper and lower row should equal to each other for board horizontally symmetric board with index '{idx}'"
        );
    }
}

#[test]
fn move_finder_test_available_moves() {
    let mut move_iter = BoardMoveFinder::new();
    let board = Board::from_matrix(&[
        [Free, Free, Player1],
        [Player2, Player1, Player2],
        [Player1, Player1, Player2],
    ]);
    let moves = move_iter.available_moves(board.0);
    assert_eq!(moves.len(), 2);
    assert_eq!(moves[0], (0, 0));
    assert_eq!(moves[1], (0, 1));

    let board = Board::from_matrix(&[[Free, Free, Free], [Free, Free, Free], [Free, Free, Free]]);
    let moves = move_iter.available_moves(board.0);
    assert_eq!(moves.len(), 9);
    for (idx, move_) in moves.iter().enumerate() {
        assert_eq!(*move_, Board::to_2d_idx(idx))
    }

    let board = Board::from_matrix(&[
        [Player2, Player1, Player1],
        [Player2, Player1, Player2],
        [Player1, Player1, Player2],
    ]);
    let moves = move_iter.available_moves(board.0);
    assert_eq!(moves.len(), 0);

    let board = Board::from_matrix(&[
        [Player1, Free, Free],
        [Free, Free, Free],
        [Free, Free, Free],
    ]);
    let moves = move_iter.available_moves(board.0);
    assert_eq!(moves.len(), 8);
    assert!(moves.iter().all(|move_| *move_ != (0, 0)));
}

#[test]
fn move_iter_test_available_moves() {
    let collect_moves = |board: &Board| {
        let mut iter = BoardMoveIter::new(board.0);
        let mut moves: Vec<usize> = Vec::new();
        while let Some(m) = iter.next() {
            moves.push(m);
        }
        moves
    };
    let board = Board::from_matrix(&[
        [Free, Free, Player1],
        [Player2, Player1, Player2],
        [Player1, Player1, Player2],
    ]);
    let moves = collect_moves(&board);
    assert_eq!(moves.len(), 2);
    assert_eq!(moves[0], 0);
    assert_eq!(moves[1], 3);

    let board = Board::from_matrix(&[[Free, Free, Free], [Free, Free, Free], [Free, Free, Free]]);
    let moves = collect_moves(&board);
    assert_eq!(moves.len(), 9);
    for (idx, move_) in moves.iter().enumerate() {
        assert_eq!(*move_, idx)
    }

    let board = Board::from_matrix(&[
        [Player2, Player1, Player1],
        [Player2, Player1, Player2],
        [Player1, Player1, Player2],
    ]);
    let moves = collect_moves(&board);
    assert_eq!(moves.len(), 0);

    let board = Board::from_matrix(&[
        [Player1, Free, Free],
        [Free, Free, Free],
        [Free, Free, Free],
    ]);
    let moves = collect_moves(&board);
    assert_eq!(moves.len(), 8);
    assert!(moves.iter().all(|move_| *move_ != 0));
}

#[test]
fn test_find_move_scores_empty() {
    let empty = NestedBoard::new();
    let scores: HashMap<_, _> = empty.find_move_scores(4, Player::Player1).into_iter().collect();
    assert!(!scores.is_empty());
}
