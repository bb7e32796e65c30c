use ultimate_tic_tac_toe::board::one_bit::OneBitBoard;

#[test]
fn has_won_horizontal_top_row() {
    let board = OneBitBoard::new(0b001_001_001);
    assert!(board.has_won());
    let board = OneBitBoard::new(0b010_010_010);
    assert!(board.has_won());
    let board = OneBitBoard::new(0b100_100_100);
    assert!(board.has_won());
}

#[test]
fn has_won_vertical_left_column() {
    let board = OneBitBoard::new(0b000_000_111);
    assert!(board.has_won());
    let board = OneBitBoard::new(0b000_111_000);
    assert!(board.has_won());
    let board = OneBitBoard::new(0b111_000_000);
    assert!(board.has_won());
}

#[test]
fn has_won_diagonal() {
    let board = OneBitBoard::new(0b100_010_001);
    assert!(board.has_won());
    let board = OneBitBoard::new(0b001_010_100);
    assert!(board.has_won());
}

#[test]
fn has_not_won() {
    let board = OneBitBoard::new(0b000_001_001);
    assert!(!board.has_won());
    let board = OneBitBoard::new(0b010_010_001);
    assert!(!board.has_won());
    let board = OneBitBoard::new(0b000_000_000);
    assert!(!board.has_won());
}

#[test]
fn has_won_with_extra_bits_set() {
    // top row (0,3,6) plus noise bits
    let board = OneBitBoard::new(0b101_001_001);
    assert!(board.has_won());
}

#[test]
fn single_board_win_detection_lines() {
    // every winning line, and a couple of non-wins
    for s in [
        0b111u32, 0b111000, 0b111000000, 0b001001001, 0b010010010, 0b100100100, 0b100010001,
        0b001010100,
    ] {
        assert!(OneBitBoard::new(s).has_won(), "{s:b} should win");
    }
    for s in [0b000u32, 0b011] {
        assert!(!OneBitBoard::new(s).has_won(), "{s:b} should not win");
    }
}
