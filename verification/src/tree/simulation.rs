//! The mutable rollout mirror of a game state, optimised for random
//! playouts: occupancy masks, super-boards, active player, forced sub-board
//! and the terminal tag the state was created with.
use vstd::prelude::*;
use crate::bitops::{
    bit128, popcnt128, count_ones_u128, nth_set_bit_u128, lemma_popcnt_zero,
};
use crate::board::one_bit::{OneBitBoard, wins9};
use crate::rng::rand_in_move_range_exclusive;
use crate::tree::node_state::{
    NodeScore, NodeState, spec_mc_score, spec_decide_draw, spec_child_untagged, spec_won_sub,
    super_after, avail_mask, state_wf_core, state_inv, move_count, lemma_apply_move_grows,
    lemma_avail_popcnt_le_81, NO_MOVE_FORCED,
};
use crate::types::Player;
use crate::util::BoardMajorBitset;

verus! {

/// A rollout score: +1, 0 or -1.
pub type MonteCarloScore = i64;

/// Mutable mirror of a `NodeState` for random playouts.
#[derive(Debug, Clone, Copy, PartialEq, Eq, Structural)]
pub struct SimulationState {
    /// Occupancy of player 1.
    pub p1_board: BoardMajorBitset,
    /// Occupancy of player 2.
    pub p2_board: BoardMajorBitset,
    /// Which sub-boards player 1 has won.
    pub super1: OneBitBoard,
    /// Which sub-boards player 2 has won.
    pub super2: OneBitBoard,
    /// The player to move.
    pub active_player: Player,
    /// Sub-board the mover must play in; 9 = no constraint.
    pub forced_board: u8,
    /// Terminal tag of the starting state, favouring its previous player.
    pub predetermined_score_favoring_previous_player: NodeScore,
}

/// The packed state a simulation mirrors, with an undecided tag: the
/// simulation keeps its starting tag separately.
pub open spec fn abstract_state(s: SimulationState) -> NodeState {
    NodeState {
        p1_occ: s.p1_board.0,
        p2_occ: s.p2_board.0,
        super1: s.super1.0,
        super2: s.super2.0,
        forced: s.forced_board,
        active: s.active_player,
        score: NodeScore::Indeterminate,
    }
}

impl SimulationState {
    /// Bundle the fields of a rollout state.
    pub fn new(
        p1_board: BoardMajorBitset,
        p2_board: BoardMajorBitset,
        super1: OneBitBoard,
        super2: OneBitBoard,
        active_player: Player,
        forced_board: u8,
        predetermined_score_favoring_previous_player: NodeScore,
    ) -> (r: SimulationState)
        ensures
            r == (SimulationState {
                p1_board,
                p2_board,
                super1,
                super2,
                active_player,
                forced_board,
                predetermined_score_favoring_previous_player,
            }),
    {
        SimulationState {
            p1_board,
            p2_board,
            super1,
            super2,
            active_player,
            forced_board,
            predetermined_score_favoring_previous_player,
        }
    }

    /// Player 1's occupancy mask.
    pub fn player1_occupied(&self) -> (r: BoardMajorBitset)
        ensures
            r == self.p1_board,
    {
        self.p1_board
    }

    /// Player 2's occupancy mask.
    pub fn player2_occupied(&self) -> (r: BoardMajorBitset)
        ensures
            r == self.p2_board,
    {
        self.p2_board
    }

    /// Whether `player` has three won sub-boards in a line.
    pub fn has_won(&self, player: Player) -> (r: bool)
        ensures
            r == wins9(super_of_sim(*self, player)),
    {
        match player {
            Player::Player1 => self.super1.has_won(),
            Player::Player2 => self.super2.has_won(),
        }
    }

    /// Apply the move `board_col_major_idx` for the active player: place the
    /// mark, seal the sub-board if that won it, set the forced sub-board and
    /// flip the active player.  The flag reports a win of the whole game.
    pub fn apply_move(self, board_col_major_idx: u8) -> (r: (SimulationState, bool))
        requires
            state_wf_core(abstract_state(self)),
            bit128(avail_mask(abstract_state(self)), board_col_major_idx as int),
        ensures
            abstract_state(r.0) == spec_child_untagged(abstract_state(self), board_col_major_idx),
            r.0.predetermined_score_favoring_previous_player
                == self.predetermined_score_favoring_previous_player,
            r.1 == (spec_won_sub(abstract_state(self), board_col_major_idx) && wins9(
                super_after(abstract_state(self), board_col_major_idx),
            )),
    {
        let k = board_col_major_idx;
        proof {
            reveal(crate::tree::node_state::state_wf_core);
            reveal(crate::tree::node_state::spec_child_untagged);
            crate::tree::node_state::lemma_avail_in_grid(abstract_state(self), k as int);
        }
        let mut child_state = self;
        let player = self.active_player;

        let board_idx = k / 9;

        match player {
            Player::Player1 => child_state.p1_board.apply_move(k),
            Player::Player2 => child_state.p2_board.apply_move(k),
        }
        let has_won_subboard = match player {
            Player::Player1 => child_state.p1_board.get_sub_board(board_idx).has_won(),
            Player::Player2 => child_state.p2_board.get_sub_board(board_idx).has_won(),
        };

        child_state.active_player = player.other();
        child_state.forced_board = k % 9;

        if has_won_subboard {
            // block all cells in that board (simpler logic for available
            // moves) and track the win in the super board
            match player {
                Player::Player1 => {
                    child_state.p1_board.fill_board(board_idx as usize);
                    child_state.super1.set_cell(board_idx);
                },
                Player::Player2 => {
                    child_state.p2_board.fill_board(board_idx as usize);
                    child_state.super2.set_cell(board_idx);
                },
            }
        }
        let won_game = if has_won_subboard {
            child_state.has_won(player)
        } else {
            false
        };

        (child_state, won_game)
    }

    /// The legal moves: the free cells of the forced sub-board if any are
    /// left, otherwise every free cell.
    pub fn available_in_board_or_fallback(&self) -> (r: BoardMajorBitset)
        ensures
            r.0 == avail_mask(abstract_state(*self)),
            r.inv(),
    {
        proof {
            reveal(crate::tree::node_state::free_mask);
            reveal(crate::tree::node_state::avail_mask);
        }
        let is_occupied = self.player1_occupied().union(&self.player2_occupied());
        let is_available = is_occupied.complement();

        let forced_board = self.forced_board;

        if forced_board >= NO_MOVE_FORCED {
            return is_available;
        }
        let board_mask_ = BoardMajorBitset::new_full_board(forced_board as usize);
        let is_available_for_board = is_available.intersect(&board_mask_);

        if is_available_for_board.is_empty() {
            is_available
        } else {
            is_available_for_board
        }
    }

    /// The draw rule on a filled board, as a rollout score: +1 when
    /// `in_favor_of` owns more sub-boards, -1 when fewer, else 0.
    pub fn decide_draw(&self, in_favor_of: Player) -> (r: MonteCarloScore)
        ensures
            r == spec_mc_score(spec_decide_draw(abstract_state(*self), in_favor_of)),
    {
        let own = count_ones_u128(
            (match in_favor_of {
                Player::Player1 => self.super1.get(),
                Player::Player2 => self.super2.get(),
            }) as u128,
        );
        let other = count_ones_u128(
            (match in_favor_of.other() {
                Player::Player1 => self.super1.get(),
                Player::Player2 => self.super2.get(),
            }) as u128,
        );
        if own > other {
            1
        } else if own == other {
            0
        } else {
            -1
        }
    }

    /// Play uniformly random moves to the end of the game.  The result
    /// favours the player who moved into the starting state: +1 when the
    /// initially active player loses, -1 when it wins, 0 for a draw.  A
    /// state created from a terminal node returns its predetermined tag.
    pub fn simulate_random(self, rng: &mut rand::rngs::SmallRng) -> (r: MonteCarloScore)
        requires
            state_wf_core(abstract_state(self)),
            self.predetermined_score_favoring_previous_player == NodeScore::Indeterminate
                ==> avail_mask(abstract_state(self)) != 0,
        ensures
            -1 <= r <= 1,
            self.predetermined_score_favoring_previous_player != NodeScore::Indeterminate ==> r
                == spec_mc_score(self.predetermined_score_favoring_previous_player),
            // a predetermined result consumes no randomness
            self.predetermined_score_favoring_previous_player != NodeScore::Indeterminate
                ==> *final(rng) == *old(rng),
    {
        if !matches!(
            self.predetermined_score_favoring_previous_player,
            NodeScore::Indeterminate,
        ) {
            return self.predetermined_score_favoring_previous_player.as_monte_carlo_score();
        }
        let mut has_won = false;
        let initial_player = self.active_player;
        let mut state = self;
        let mut available_moves = state.available_in_board_or_fallback();
        proof {
            crate::tree::node_state::lemma_move_count_le_81(abstract_state(state));
        }
        while !(has_won || available_moves.is_empty())
            invariant
                state_wf_core(abstract_state(state)),
                available_moves.0 == avail_mask(abstract_state(state)),
                move_count(abstract_state(state)) <= 81,
            decreases 81 - move_count(abstract_state(state)),
        {
            let n_moves = count_ones_u128(available_moves.get());
            proof {
                if n_moves == 0 {
                    lemma_popcnt_zero(available_moves.0);
                }
                lemma_avail_popcnt_le_81(abstract_state(state));
            }
            let rand_nth_setbit = rand_in_move_range_exclusive(rng, n_moves as u8);
            let rand_move = nth_set_bit_u128(available_moves.get(), rand_nth_setbit as u32) as u8;
            proof {
                lemma_apply_move_grows(abstract_state(state), rand_move);
                crate::tree::node_state::lemma_child_untagged_core(
                    abstract_state(state),
                    rand_move,
                );
            }
            let stepped = state.apply_move(rand_move);
            state = stepped.0;
            has_won = stepped.1;

            available_moves = state.available_in_board_or_fallback();
        }

        if has_won {
            let looser = state.active_player;
            if looser == initial_player {
                1
            } else {
                -1
            }
        } else {
            state.decide_draw(initial_player.other())
        }
    }
}

impl NodeState {
    /// The rollout mirror of this state: same masks, same turn, and the
    /// state's terminal tag as the predetermined rollout result.
    pub fn into_simulation(self) -> (r: SimulationState)
        ensures
            abstract_state(r) == (NodeState { score: NodeScore::Indeterminate, ..self }),
            r.predetermined_score_favoring_previous_player == self.score,
    {
        SimulationState::new(
            BoardMajorBitset(self.p1_occ),
            BoardMajorBitset(self.p2_occ),
            OneBitBoard(self.super1),
            OneBitBoard(self.super2),
            self.active,
            self.forced,
            self.score,
        )
    }
}

/// Super-board mask of a player in a rollout state.
pub open spec fn super_of_sim(s: SimulationState, p: Player) -> u32 {
    match p {
        Player::Player1 => s.super1.0,
        Player::Player2 => s.super2.0,
    }
}

} // verus!
