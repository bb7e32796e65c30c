use ultimate_tic_tac_toe::board::one_bit::OneBitBoard;
use ultimate_tic_tac_toe::coords::{move_to_rc, rc_to_move};
use ultimate_tic_tac_toe::parti::bigbrain;
use ultimate_tic_tac_toe::scramble::scramble_track_found;
use ultimate_tic_tac_toe::tree::node_state::{NodeScore, NodeState, NO_MOVE_FORCED};
use ultimate_tic_tac_toe::tree::simulation::SimulationState;
use ultimate_tic_tac_toe::types::Player;
use ultimate_tic_tac_toe::util::BoardMajorBitset;

#[test]
fn test_apply_move() {
    // ignore that this test disregards rules, we want to reach a sub board
    // win as quickly as possible
    let state = NodeState::empty();
    let (state, child_count, _score) = state.apply_move(0);
    assert_ne!(child_count, 0);
    assert_eq!(state.player1_occupied().get(), 0b1);
    assert_eq!(state.player2_occupied().get(), 0b0);
    assert_eq!(state.forced_board(), 0);
    assert_eq!(state.available_in_board_or_fallback().get(), 0b1_1111_1110);

    let (state, child_count, _score) = state.apply_move(4);
    assert_ne!(child_count, 0);
    assert_eq!(state.player1_occupied().get(), 0b0_0001);
    assert_eq!(state.player2_occupied().get(), 0b1_0000);
    assert_eq!(state.forced_board(), 4);
    assert_eq!(
        state.available_in_board_or_fallback().get(),
        0b1_1111_1111 << (state.forced_board() * 9)
    );

    let (state, child_count, _score) = state.apply_move(1);
    assert_ne!(child_count, 0);
    assert_eq!(state.player1_occupied().get(), 0b0_0011);
    assert_eq!(state.player2_occupied().get(), 0b1_0000);
    assert_eq!(state.forced_board(), 1);
    assert_eq!(
        state.available_in_board_or_fallback().get(),
        0b1_1111_1111 << (state.forced_board() * 9)
    );

    let cell_idx = 3 * 9 + 4;
    let (state, child_count, _score) = state.apply_move(cell_idx);
    assert_ne!(child_count, 0);

    assert_eq!(state.player1_occupied().get(), 0b0_0011);
    assert_eq!(state.player2_occupied().get(), 0b1_0000 | (0b1 << cell_idx));
    assert_eq!(state.forced_board(), 4);
    assert_eq!(
        state.available_in_board_or_fallback().get(),
        0b1_1111_1111 << (state.forced_board() * 9)
    );

    let (state, child_count, _score) = state.apply_move(2);
    assert_ne!(child_count, 0);

    assert_eq!(state.player1_occupied().get(), 0b1_1111_1111);
    assert_eq!(state.player2_occupied().get(), 0b0_0001_0000 | (0b1 << cell_idx));
    assert_eq!(state.forced_board(), 2);
    assert_eq!(
        state.available_in_board_or_fallback().get(),
        0b1_1111_1111 << (state.forced_board() * 9)
    );
}

#[test]
fn test_win() {
    let state = NodeState::empty();
    let (state, child_count, _score) = state.apply_move(0);
    assert_ne!(child_count, 0);
    assert_eq!(state.player1_occupied().get(), 0b1);
    assert_eq!(state.player2_occupied().get(), 0b0);
    assert_eq!(state.forced_board(), 0);
    assert_eq!(state.available_in_board_or_fallback().get(), 0b1_1111_1110);

    let (state, child_count, _score) = state.apply_move(4);
    assert_ne!(child_count, 0);
    assert_eq!(state.player1_occupied().get(), 0b0_0001);
    assert_eq!(state.player2_occupied().get(), 0b1_0000);
    assert_eq!(state.forced_board(), 4);
    assert_eq!(
        state.available_in_board_or_fallback().get(),
        0b1_1111_1111 << (state.forced_board() * 9)
    );

    let (state, child_count, _score) = state.apply_move(1);
    assert_ne!(child_count, 0);
    assert_eq!(state.player1_occupied().get(), 0b0_0011);
    assert_eq!(state.player2_occupied().get(), 0b1_0000);
    assert_eq!(state.forced_board(), 1);
    assert_eq!(
        state.available_in_board_or_fallback().get(),
        0b1_1111_1111 << (state.forced_board() * 9)
    );

    let cell_idx = 3 * 9 + 4;
    let (state, child_count, _score) = state.apply_move(cell_idx);
    assert_ne!(child_count, 0);

    assert_eq!(state.player1_occupied().get(), 0b0_0011);
    assert_eq!(state.player2_occupied().get(), 0b1_0000 | (0b1 << cell_idx));
    assert_eq!(state.forced_board(), 4);
    assert_eq!(
        state.available_in_board_or_fallback().get(),
        0b1_1111_1111 << (state.forced_board() * 9)
    );

    let (state, child_count, _score) = state.apply_move(2);
    assert_ne!(child_count, 0);

    assert_eq!(state.player1_occupied().get(), 0b1_1111_1111);
    assert_eq!(state.player2_occupied().get(), 0b0_0001_0000 | (0b1 << cell_idx));
    assert_eq!(state.forced_board(), 2);
    assert_eq!(
        state.available_in_board_or_fallback().get(),
        0b1_1111_1111 << (state.forced_board() * 9)
    );
}

#[test]
fn simulation_decide_draw_win() {
    let state = SimulationState::new(
        BoardMajorBitset(0),
        BoardMajorBitset(0),
        OneBitBoard::new(0b000011011), // P1: 4 boards
        OneBitBoard::new(0b100100100), // P2: 3 boards
        Player::Player1,
        NO_MOVE_FORCED,
        NodeScore::Indeterminate,
    );

    assert_eq!(state.decide_draw(Player::Player1), 1);
    assert_eq!(state.decide_draw(Player::Player2), -1);
}

#[test]
fn simulation_decide_draw_loss() {
    let state = SimulationState::new(
        BoardMajorBitset(0),
        BoardMajorBitset(0),
        OneBitBoard::new(0b000000011), // P1: 2 boards
        OneBitBoard::new(0b100100100), // P2: 3 boards
        Player::Player1,
        NO_MOVE_FORCED,
        NodeScore::Indeterminate,
    );

    assert_eq!(state.decide_draw(Player::Player1), -1);
    assert_eq!(state.decide_draw(Player::Player2), 1);
}

#[test]
fn simulation_decide_draw_draw() {
    let state = SimulationState::new(
        // cells inside the boards must not be counted
        BoardMajorBitset(0b101),
        BoardMajorBitset(0b001),
        OneBitBoard::new(0b000000111),
        OneBitBoard::new(0b000111000),
        Player::Player1,
        NO_MOVE_FORCED,
        NodeScore::Indeterminate,
    );

    assert_eq!(state.decide_draw(Player::Player1), 0);
    assert_eq!(state.decide_draw(Player::Player2), 0);
}

#[test]
fn coordinate_mapping_sanity() {
    assert_eq!(rc_to_move(0, 0), 0);
    assert_eq!(rc_to_move(1, 0), 1);
    assert_eq!(rc_to_move(0, 1), 3);
    assert_eq!(rc_to_move(2, 2), 8);
    assert_eq!(rc_to_move(3, 0), 9);
    assert_eq!(rc_to_move(0, 3), 27);
    assert_eq!(rc_to_move(3, 3), 36);
    assert_eq!(rc_to_move(8, 8), 80);
    for (r, c) in [(0, 0), (1, 0), (0, 1), (2, 2), (3, 0), (0, 3), (3, 3), (8, 8)] {
        assert_eq!(move_to_rc(rc_to_move(r, c)), (r, c));
    }
    for k in 0..81u8 {
        let (r, c) = move_to_rc(k);
        assert_eq!(rc_to_move(r, c), k);
    }
}

#[test]
fn apply_move_changes_one_cell_and_flips_player() {
    let s0 = NodeState::empty();
    assert_eq!(s0.active_player(), Player::Player1);
    let (s1, _, _) = s0.apply_move(40);
    assert_eq!(s1.active_player(), Player::Player2);
    assert_eq!(s1.player1_occupied().get(), 1u128 << 40);
    assert_eq!(s1.player2_occupied().get(), 0);
    let (s2, _, _) = s1.apply_move(41);
    assert_eq!(s2.active_player(), Player::Player1);
    assert_eq!(s2.player1_occupied().get(), 1u128 << 40);
    assert_eq!(s2.player2_occupied().get(), 1u128 << 41);
}

#[test]
fn scramble_examples() {
    assert!(scramble_track_found(b"rkqodlw", b"world"));
    assert!(scramble_track_found(b"cedewaraaossoqqyt", b"codewars"));
    assert!(!scramble_track_found(b"katas", b"steak"));
    assert!(!scramble_track_found(b"abc", b""));
}

#[test]
fn parti_prod_values() {
    let (partis, prod) = bigbrain::parti_prod(8);
    assert_eq!(prod, 18);
    assert_eq!(partis, vec![vec![3, 3, 2]]);

    let (partis, prod) = bigbrain::parti_prod(10);
    assert_eq!(prod, 36);
    assert_eq!(partis, vec![vec![4, 3, 3], vec![3, 3, 2, 2]]);

    let (partis, prod) = bigbrain::parti_prod(9);
    assert_eq!(prod, 27);
    assert_eq!(partis, vec![vec![3, 3, 3]]);

    let (partis, prod) = bigbrain::parti_prod(2);
    assert_eq!(prod, 2);
    assert_eq!(partis, vec![vec![2]]);
}
