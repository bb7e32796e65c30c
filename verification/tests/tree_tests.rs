use std::time::{Duration, Instant};
use ultimate_tic_tac_toe::bitops::get_availble_bits_contiguous_fallback;
use ultimate_tic_tac_toe::tree::node_state::NodeState;
use ultimate_tic_tac_toe::tree::Tree;

#[test]
fn test_bit_compress_fallback() {
    let bits = get_availble_bits_contiguous_fallback(0);
    assert_eq!(bits, 0b1_1111_1111);

    let bits = get_availble_bits_contiguous_fallback(0b10);
    assert_eq!(bits, 0b1_1111_1110);

    let bits = get_availble_bits_contiguous_fallback(0b10_1010_1010_1010_1010);
    assert_eq!(bits, 0);

    let bits = get_availble_bits_contiguous_fallback(0b10_1010_1010_1010_1000);
    assert_eq!(bits, 0b1);
}

#[test]
fn search_n_counts_root_visits() {
    let mut tree = Tree::new_as_player1();
    tree.search_n(500);
    assert_eq!(tree.root_node().visits, 500);
    // every explored child of the root was visited at least once by search
    let root = tree.root_node();
    for j in 0..root.child_count {
        let e = tree.edges[root.first_edge + j];
        if let Some(c) = e.child_node {
            assert!(tree.get(c).visits >= 1);
        }
    }
}

#[test]
fn obvious_win_in_one() {
    // a legal line of play after which player 1 has won sub-boards 0 and 1,
    // holds cells 19 and 20 of sub-board 2, and must play in sub-board 2:
    // move 18 then completes a line there and a line on the super board
    let moves: [u8; 18] = [3, 27, 4, 36, 5, 46, 12, 28, 13, 37, 14, 47, 19, 63, 20, 21, 33, 56];
    let mut tree = Tree::new_as_player1();
    for m in moves {
        tree.apply_maybe_explored_move(m);
    }
    tree.search_n(5000);
    assert_eq!(tree.best_explored_move(), 18);
}

#[test]
fn transposition_collapse() {
    // two orders of the same four moves reach the same state and must map
    // to the same node, the second construction allocating nothing
    let s0 = NodeState::empty();
    let mut tree = Tree::new_as_player1();

    let a1 = s0.apply_move(41).0;
    let a2 = a1.apply_move(49).0;
    let a3 = a2.apply_move(42).0;
    tree.get_or_insert_child(s0, 41);
    tree.get_or_insert_child(a1, 49);
    tree.get_or_insert_child(a2, 42);
    let i4 = tree.get_or_insert_child(a3, 58);

    let b1 = s0.apply_move(42).0;
    let b2 = b1.apply_move(58).0;
    let b3 = b2.apply_move(41).0;
    tree.get_or_insert_child(s0, 42);
    tree.get_or_insert_child(b1, 58);
    tree.get_or_insert_child(b2, 41);
    let count_before = tree.node_count();
    let j4 = tree.get_or_insert_child(b3, 49);
    assert_eq!(i4, j4);
    assert_eq!(tree.node_count(), count_before);
}

#[test]
fn time_bounded_search() {
    let mut tree = Tree::new_as_player1();
    let start = Instant::now();
    let deadline = start + Duration::from_millis(100);
    tree.search_until(&deadline);
    let elapsed = start.elapsed();
    assert!(tree.root_node().visits >= 1);
    // the overrun is bounded by a single iteration
    assert!(elapsed < Duration::from_millis(2000), "search overran: {elapsed:?}");
}

#[test]
fn maybe_explored_move_promotes_or_materialises() {
    let mut tree = Tree::new_as_player1();
    tree.search_n(50);
    // an explored move is promoted, an unexplored one materialised
    tree.apply_maybe_explored_move(40);
    let root_state = tree.root_node().game_state;
    assert_eq!(root_state.player1_occupied().get(), 1u128 << 40);
    tree.apply_maybe_explored_move(41);
    let root_state = tree.root_node().game_state;
    assert_eq!(root_state.player2_occupied().get(), 1u128 << 41);
}

#[test]
fn search_as_player2() {
    let mut tree = Tree::new_as_player2(40);
    tree.search_n(200);
    let best = tree.best_explored_move();
    assert!(best < 81);
}

#[test]
fn must_block() {
    // a legal line of play after which player 2 has won sub-boards 0 and 1
    // and holds cells 18 and 19 of sub-board 2: any reply whose cell index
    // within sub-board 4 is 2 sends player 2 into sub-board 2, where move
    // 20 completes both the sub-board and the 0-1-2 super-board line.
    // Player 1 is to move, forced into sub-board 4, and must not play
    // an intra-board index of 2.
    let moves: [u8; 22] = [
        54, 3, 27, 4, 36, 5, 46, 12, 28, 13, 37, 14, 47, 18, 48, 29, 21, 34, 65, 19, 66, 31,
    ];
    let mut tree = Tree::new_as_player1();
    for m in moves {
        tree.apply_maybe_explored_move(m);
    }
    let root = tree.root_node().game_state;
    assert_eq!(root.forced_board(), 4);
    tree.search_n(5000);
    let best = tree.best_explored_move();
    assert!(best / 9 == 4, "forced into sub-board 4, got move {best}");
    assert!(best % 9 != 2, "the engine sent the opponent into the losing sub-board");
}
