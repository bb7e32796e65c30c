//! The immutable packed game state of the nested board: per-player
//! occupancy, per-player super-board, forced sub-board, active player and
//! terminal tag.  `apply_move` is the one transition; everything the search
//! relies on is proved about it here.
use vstd::prelude::*;
use crate::bitops::{
    bit128, bit32, block9, popcnt128, popcnt_low, lemma_bit_and128, lemma_bit_or128,
    lemma_bit_single, lemma_bit_block, lemma_block9_bits, lemma_block9_full, lemma_bit_complement_grid,
    lemma_popcnt_high_zero, lemma_popcnt_low_le, lemma_popcnt_strict_subset, lemma_zero_of_no_bits,
    lemma_u32_set_low_bit, lemma_u32_mask9_noop, count_ones_u128, GRID_MASK,
};
use crate::board::one_bit::{OneBitBoard, wins9};
use crate::types::Player;
use crate::util::BoardMajorBitset;

verus! {

/// The forced-board value that means "free choice".
pub const NO_MOVE_FORCED: u8 = 9;

/// Terminal tag of a state, from the perspective of the player who moved
/// into it (the previous player).
#[derive(Debug, Clone, Copy, PartialEq, Eq, Hash, Structural)]
pub enum NodeScore {
    Indeterminate,
    Loss,
    Draw,
    Win,
}

/// The rollout value of a terminal tag: win +1, loss -1, otherwise 0.
pub open spec fn spec_mc_score(s: NodeScore) -> int {
    match s {
        NodeScore::Indeterminate => 0,
        NodeScore::Loss => -1,
        NodeScore::Draw => 0,
        NodeScore::Win => 1,
    }
}

impl NodeScore {
    /// The rollout value of this tag.
    pub fn as_monte_carlo_score(&self) -> (r: i64)
        ensures
            r == spec_mc_score(*self),
    {
        match *self {
            NodeScore::Indeterminate => 0,
            NodeScore::Loss => -1,
            NodeScore::Draw => 0,
            NodeScore::Win => 1,
        }
    }
}

/// Packed immutable game state.  A move index `k` in `[0, 81)` belongs to
/// sub-board `k / 9` and occupies intra-board cell `k % 9`.
#[derive(Debug, Clone, Copy, PartialEq, Eq, Hash, Structural)]
pub struct NodeState {
    /// Occupancy of player 1, one bit per cell, board-major.
    pub p1_occ: u128,
    /// Occupancy of player 2.
    pub p2_occ: u128,
    /// Bit `b` set = player 1 has won sub-board `b`.
    pub super1: u32,
    /// Bit `b` set = player 2 has won sub-board `b`.
    pub super2: u32,
    /// Sub-board the mover must play in; 9 = no constraint.
    pub forced: u8,
    /// The player to move.
    pub active: Player,
    /// Terminal tag, favouring the previous player.
    pub score: NodeScore,
}

/// Occupancy mask of a player.
pub open spec fn occ_of(s: NodeState, p: Player) -> u128 {
    match p {
        Player::Player1 => s.p1_occ,
        Player::Player2 => s.p2_occ,
    }
}

/// Super-board of a player.
pub open spec fn super_of(s: NodeState, p: Player) -> u32 {
    match p {
        Player::Player1 => s.super1,
        Player::Player2 => s.super2,
    }
}

/// Cells occupied by nobody.
#[verifier::opaque]
pub open spec fn free_mask(s: NodeState) -> u128 {
    !(s.p1_occ | s.p2_occ) & GRID_MASK
}

/// The mask holding all nine cells of sub-board `b`.
pub open spec fn board_mask(b: int) -> u128 {
    0x1FFu128 << ((9 * b) as u128)
}

/// The legal moves of `s`: the free cells of the forced sub-board, or every
/// free cell when there is no constraint or the forced sub-board is spent.
#[verifier::opaque]
pub open spec fn avail_mask(s: NodeState) -> u128 {
    if s.forced >= 9 {
        free_mask(s)
    } else {
        let for_board = free_mask(s) & board_mask(s.forced as int);
        if for_board == 0 {
            free_mask(s)
        } else {
            for_board
        }
    }
}

/// Structural well-formedness of a state: everything except the coherence
/// of the terminal tag.
#[verifier::opaque]
pub open spec fn state_wf_core(s: NodeState) -> bool {
    &&& forall|i: int| #[trigger] bit128(s.p1_occ, i) ==> i < 81
    &&& forall|i: int| #[trigger] bit128(s.p2_occ, i) ==> i < 81
    // the two players overlap only inside a sub-board someone has won and
    // that was therefore sealed
    &&& forall|i: int|
        0 <= i < 81 && #[trigger] bit128(s.p1_occ, i) && bit128(s.p2_occ, i) ==> bit32(
            s.super1,
            i / 9,
        ) || bit32(s.super2, i / 9)
    &&& s.super1 < 512
    &&& s.super2 < 512
    &&& s.forced <= 9
    // a won sub-board is fully sealed in the winner's mask
    &&& forall|b: int| 0 <= b < 9 && #[trigger] bit32(s.super1, b) ==> block9(s.p1_occ, b) == 0x1FF
    &&& forall|b: int| 0 <= b < 9 && #[trigger] bit32(s.super2, b) ==> block9(s.p2_occ, b) == 0x1FF
}

/// Well-formedness of a reachable state.
#[verifier::opaque]
pub open spec fn state_inv(s: NodeState) -> bool {
    &&& state_wf_core(s)
    // a state that still claims to be undecided has a move left
    &&& (s.score == NodeScore::Indeterminate ==> avail_mask(s) != 0)
}

/// The draw rule: whoever owns more sub-boards wins the filled board.
pub open spec fn spec_decide_draw(s: NodeState, in_favor_of: Player) -> NodeScore {
    let own = popcnt128(super_of(s, in_favor_of) as u128);
    let other = popcnt128(super_of(s, in_favor_of.spec_other()) as u128);
    if own > other {
        NodeScore::Win
    } else if own == other {
        NodeScore::Draw
    } else {
        NodeScore::Loss
    }
}

/// The mover's occupancy after placing on cell `k`.
pub open spec fn occ_with_move(s: NodeState, k: u8) -> u128 {
    occ_of(s, s.active) | (1u128 << (k as u128))
}

/// Whether placing on cell `k` wins sub-board `k / 9` for the mover.
pub open spec fn spec_won_sub(s: NodeState, k: u8) -> bool {
    wins9(block9(occ_with_move(s, k), k as int / 9))
}

/// The mover's occupancy after the move, sealed if the sub-board was won.
pub open spec fn occ_after(s: NodeState, k: u8) -> u128 {
    if spec_won_sub(s, k) {
        occ_with_move(s, k) | board_mask(k as int / 9)
    } else {
        occ_with_move(s, k)
    }
}

/// The mover's super-board after the move.
pub open spec fn super_after(s: NodeState, k: u8) -> u32 {
    if spec_won_sub(s, k) {
        super_of(s, s.active) | (1u32 << ((k / 9) as u32))
    } else {
        super_of(s, s.active)
    }
}

/// The child state of `s` under move `k`, before its terminal tag is known.
#[verifier::opaque]
pub open spec fn spec_child_untagged(s: NodeState, k: u8) -> NodeState {
    NodeState {
        p1_occ: if s.active == Player::Player1 {
            occ_after(s, k)
        } else {
            s.p1_occ
        },
        p2_occ: if s.active == Player::Player2 {
            occ_after(s, k)
        } else {
            s.p2_occ
        },
        super1: if s.active == Player::Player1 {
            super_after(s, k)
        } else {
            s.super1
        },
        super2: if s.active == Player::Player2 {
            super_after(s, k)
        } else {
            s.super2
        },
        forced: k % 9,
        active: s.active.spec_other(),
        score: NodeScore::Indeterminate,
    }
}

/// The terminal tag of the child of `s` under move `k`, favouring the mover.
#[verifier::opaque]
pub open spec fn spec_child_score(s: NodeState, k: u8) -> NodeScore {
    let c = spec_child_untagged(s, k);
    if spec_won_sub(s, k) && wins9(super_after(s, k)) {
        NodeScore::Win
    } else if avail_mask(c) == 0 {
        spec_decide_draw(c, s.active)
    } else {
        NodeScore::Indeterminate
    }
}

/// The child state of `s` under move `k`.
#[verifier::opaque]
pub open spec fn spec_child(s: NodeState, k: u8) -> NodeState {
    NodeState { score: spec_child_score(s, k), ..spec_child_untagged(s, k) }
}

/// The state with no cells occupied, player 1 to move and no constraint.
pub open spec fn spec_empty() -> NodeState {
    NodeState {
        p1_occ: 0,
        p2_occ: 0,
        super1: 0,
        super2: 0,
        forced: NO_MOVE_FORCED,
        active: Player::Player1,
        score: NodeScore::Indeterminate,
    }
}

impl NodeState {
    /// The canonical root state: empty board, player 1 to move.
    pub fn empty() -> (r: NodeState)
        ensures
            r == spec_empty(),
            state_inv(r),
    {
        proof {
            lemma_empty_inv();
        }
        NodeState {
            p1_occ: 0,
            p2_occ: 0,
            super1: 0,
            super2: 0,
            forced: NO_MOVE_FORCED,
            active: Player::Player1,
            score: NodeScore::Indeterminate,
        }
    }

    /// Player 1's occupancy mask.
    pub fn player1_occupied(&self) -> (r: BoardMajorBitset)
        ensures
            r.0 == self.p1_occ,
    {
        BoardMajorBitset(self.p1_occ)
    }

    /// Player 2's occupancy mask.
    pub fn player2_occupied(&self) -> (r: BoardMajorBitset)
        ensures
            r.0 == self.p2_occ,
    {
        BoardMajorBitset(self.p2_occ)
    }

    /// The sub-board the mover must play in; 9 means no constraint.
    pub fn forced_board(&self) -> (r: u8)
        ensures
            r == self.forced,
    {
        self.forced
    }

    /// The player to move.
    pub fn active_player(&self) -> (r: Player)
        ensures
            r == self.active,
    {
        self.active
    }

    /// The terminal tag, favouring the player who moved into this state.
    pub fn node_score_favoring_previous_player(&self) -> (r: NodeScore)
        ensures
            r == self.score,
    {
        self.score
    }

    /// The super-board of `player`: bit `b` says that `player` won sub-board `b`.
    pub fn super_board_for_player(&self, player: Player) -> (r: u32)
        ensures
            r == super_of(*self, player),
    {
        match player {
            Player::Player1 => self.super1,
            Player::Player2 => self.super2,
        }
    }

    /// The nine cells of sub-board `board_idx` in `player`'s occupancy.
    pub fn get_player_board(&self, player: Player, board_idx: u8) -> (r: OneBitBoard)
        requires
            board_idx < 9,
        ensures
            r.0 == block9(occ_of(*self, player), board_idx as int),
    {
        let occ = match player {
            Player::Player1 => self.p1_occ,
            Player::Player2 => self.p2_occ,
        };
        OneBitBoard::new((occ >> ((9 * board_idx) as u128)) as u32)
    }

    /// Whether `player` has three sub-boards in a line.
    pub fn has_won(&self, player: Player) -> (r: bool)
        requires
            super_of(*self, player) < 512,
        ensures
            r == wins9(super_of(*self, player)),
    {
        proof {
            lemma_u32_mask9_noop(super_of(*self, player));
        }
        OneBitBoard::new(self.super_board_for_player(player)).has_won()
    }

    /// The legal moves: the free cells of the forced sub-board if any are
    /// left, otherwise every free cell.
    pub fn available_in_board_or_fallback(&self) -> (r: BoardMajorBitset)
        ensures
            r.0 == avail_mask(*self),
            r.inv(),
    {
        proof {
            reveal(free_mask);
            reveal(avail_mask);
        }
        let is_occupied = self.player1_occupied().union(&self.player2_occupied());
        let is_available = is_occupied.complement();

        let forced_board = self.forced_board();

        if forced_board >= NO_MOVE_FORCED {
            return is_available;
        }
        let board_mask_ = BoardMajorBitset::new_full_board(forced_board as usize);
        let is_available_for_board = is_available.intersect(&board_mask_);

        if is_available_for_board.is_empty() {
            is_available
        } else {
            is_available_for_board
        }
    }

    /// The draw rule on a filled board: the player owning more sub-boards
    /// wins, equality is a draw; the result favours `in_favor_of`.
    pub fn decide_draw(&self, in_favor_of: Player) -> (r: NodeScore)
        ensures
            r == spec_decide_draw(*self, in_favor_of),
    {
        let own = count_ones_u128(self.super_board_for_player(in_favor_of) as u128);
        let other = count_ones_u128(self.super_board_for_player(in_favor_of.other()) as u128);
        if own > other {
            NodeScore::Win
        } else if own == other {
            NodeScore::Draw
        } else {
            NodeScore::Loss
        }
    }

    /// Apply move `k` for the active player: place the mark, seal the
    /// sub-board if it was won, flip the active player, set the forced
    /// sub-board, and tag the child if it is terminal.  Returns the child,
    /// its number of legal moves (zero for a terminal child), and its tag.
    pub fn apply_move(&self, board_col_major_idx: u8) -> (r: (NodeState, u8, NodeScore))
        requires
            state_inv(*self),
            self.score == NodeScore::Indeterminate,
            bit128(avail_mask(*self), board_col_major_idx as int),
        ensures
            r.0 == spec_child(*self, board_col_major_idx),
            state_inv(r.0),
            r.1 == (if r.0.score == NodeScore::Indeterminate {
                popcnt128(avail_mask(r.0))
            } else {
                0nat
            }),
            r.2 == r.0.score,
            r.0.active == self.active.spec_other(),
    {
        let k = board_col_major_idx;
        proof {
            reveal(state_inv);
            reveal(state_wf_core);
            reveal(spec_child_untagged);
            reveal(spec_child_score);
            reveal(spec_child);
            lemma_avail_in_grid(*self, k as int);
        }
        let favored_player = self.active;
        let board_idx = k / 9;

        let mut child = *self;
        match favored_player {
            Player::Player1 => {
                child.p1_occ = child.p1_occ | (1u128 << (k as u128));
            },
            Player::Player2 => {
                child.p2_occ = child.p2_occ | (1u128 << (k as u128));
            },
        }
        let has_won_subboard = child.get_player_board(favored_player, board_idx).has_won();
        if has_won_subboard {
            // block all cells in that board (simpler logic for available
            // moves) and track the win in the super board
            match favored_player {
                Player::Player1 => {
                    child.p1_occ = child.p1_occ | (0x1FFu128 << ((9 * board_idx) as u128));
                    child.super1 = child.super1 | (1u32 << ((k / 9) as u32));
                },
                Player::Player2 => {
                    child.p2_occ = child.p2_occ | (0x1FFu128 << ((9 * board_idx) as u128));
                    child.super2 = child.super2 | (1u32 << ((k / 9) as u32));
                },
            }
        }
        child.forced = k % 9;
        child.active = favored_player.other();
        child.score = NodeScore::Indeterminate;
        assert(child == spec_child_untagged(*self, k));
        proof {
            lemma_child_untagged_inv(*self, k);
        }

        let available_in_child = child.available_in_board_or_fallback();
        let score = if has_won_subboard && child.has_won(favored_player) {
            NodeScore::Win
        } else if available_in_child.is_empty() {
            child.decide_draw(favored_player)
        } else {
            NodeScore::Indeterminate
        };
        child.score = score;
        assert(child == spec_child(*self, k));

        let child_count = if matches!(score, NodeScore::Indeterminate) {
            proof {
                lemma_avail_popcnt_le_81(child);
            }
            count_ones_u128(available_in_child.get()) as u8
        } else {
            0
        };

        (child, child_count, score)
    }
}

/// The empty state is well formed.
pub proof fn lemma_empty_inv()
    ensures
        state_inv(spec_empty()),
        avail_mask(spec_empty()) == GRID_MASK,
{
    reveal(state_inv);
    reveal(state_wf_core);
    reveal(free_mask);
    reveal(avail_mask);
    let s = spec_empty();
    assert((0u128 >> 0u128) & 1 == 0) by (bit_vector);
    assert forall|i: int| !(#[trigger] bit128(0u128, i)) by {
        let j = i as u128;
        assert((0u128 >> j) & 1 == 0) by (bit_vector);
    }
    assert forall|b: int| 0 <= b < 9 implies !(#[trigger] bit32(0u32, b)) by {
        let j = b as u32;
        assert((0u32 >> j) & 1 == 0) by (bit_vector);
    }
    assert(!0u128 & GRID_MASK == GRID_MASK) by (bit_vector);
    assert(free_mask(s) == !(0u128 | 0u128) & GRID_MASK);
    assert(0u128 | 0u128 == 0u128) by (bit_vector);
    assert(avail_mask(s) == GRID_MASK);
}

/// Every legal move is a free cell of the grid.
pub proof fn lemma_avail_in_grid(s: NodeState, i: int)
    requires
        bit128(avail_mask(s), i),
    ensures
        0 <= i < 81,
        bit128(free_mask(s), i),
        !bit128(s.p1_occ, i),
        !bit128(s.p2_occ, i),
{
    reveal(free_mask);
    reveal(avail_mask);
    if s.forced < 9 {
        lemma_bit_and128(free_mask(s), board_mask(s.forced as int));
    }
    lemma_bit_complement_grid(s.p1_occ | s.p2_occ);
    lemma_bit_or128(s.p1_occ, s.p2_occ);
}

/// An 81-bit mask holds at most 81 set bits.
pub proof fn lemma_avail_popcnt_le_81(s: NodeState)
    ensures
        popcnt128(avail_mask(s)) <= 81,
{
    let a = avail_mask(s);
    assert forall|i: int| 81 <= i < 128 implies !bit128(a, i) by {
        if bit128(a, i) {
            lemma_avail_in_grid(s, i);
        }
    }
    lemma_popcnt_high_zero(a, 81);
    lemma_popcnt_low_le(a, 81);
}

/// Law: as long as no sub-board has been won, the two players' occupancy
/// masks are disjoint.  (Sealing a won sub-board copies the whole block
/// into the winner's mask, so the masks may overlap there afterwards.)
pub proof fn lemma_occupancies_disjoint(s: NodeState)
    requires
        state_inv(s),
        s.super1 == 0,
        s.super2 == 0,
    ensures
        s.p1_occ & s.p2_occ == 0,
{
    reveal(state_inv);
    reveal(state_wf_core);
    lemma_bit_and128(s.p1_occ, s.p2_occ);
    assert forall|b: int| 0 <= b < 9 implies !(#[trigger] bit32(0u32, b)) by {
        let j = b as u32;
        assert((0u32 >> j) & 1 == 0) by (bit_vector);
    }
    assert forall|i: int| 0 <= i < 128 implies !(#[trigger] bit128(s.p1_occ & s.p2_occ, i)) by {
        if bit128(s.p1_occ & s.p2_occ, i) {
            assert(bit128(s.p1_occ, i) && bit128(s.p2_occ, i));
        }
    }
    lemma_zero_of_no_bits(s.p1_occ & s.p2_occ);
}

/// Law: a sub-board whose super-board bit is set is fully sealed in the
/// winner's occupancy mask.
pub proof fn lemma_won_board_sealed(s: NodeState, p: Player, b: int)
    requires
        state_inv(s),
        0 <= b < 9,
        bit32(super_of(s, p), b),
    ensures
        block9(occ_of(s, p), b) == 0x1FF,
{
    reveal(state_inv);
    reveal(state_wf_core);
}

/// Law: a well-formed state with no legal move left carries a decided tag.
pub proof fn lemma_no_moves_means_decided(s: NodeState)
    requires
        state_inv(s),
        avail_mask(s) == 0,
    ensures
        s.score != NodeScore::Indeterminate,
{
    reveal(state_inv);
}

/// Whether `ms` is a sequence of legal moves from `s`.
pub open spec fn legal_seq(s: NodeState, ms: Seq<u8>) -> bool
    decreases ms.len(),
{
    ms.len() == 0 || (s.score == NodeScore::Indeterminate && bit128(avail_mask(s), ms[0] as int)
        && legal_seq(spec_child(s, ms[0]), ms.drop_first()))
}

/// The state reached by playing `ms` from `s`.
pub open spec fn apply_seq(s: NodeState, ms: Seq<u8>) -> NodeState
    decreases ms.len(),
{
    if ms.len() == 0 {
        s
    } else {
        apply_seq(spec_child(s, ms[0]), ms.drop_first())
    }
}

/// Playing a legal sequence preserves well-formedness.
pub proof fn lemma_apply_seq_inv(s: NodeState, ms: Seq<u8>)
    requires
        state_inv(s),
        legal_seq(s, ms),
    ensures
        state_inv(apply_seq(s, ms)),
    decreases ms.len(),
{
    if ms.len() > 0 {
        lemma_child_inv(s, ms[0]);
        lemma_apply_seq_inv(spec_child(s, ms[0]), ms.drop_first());
    }
}

/// The child of a legal move is well formed.
pub proof fn lemma_child_inv(s: NodeState, k: u8)
    requires
        state_inv(s),
        s.score == NodeScore::Indeterminate,
        bit128(avail_mask(s), k as int),
    ensures
        state_inv(spec_child(s, k)),
{
    reveal(state_inv);
    reveal(state_wf_core);
    reveal(spec_child_untagged);
    reveal(spec_child_score);
    reveal(spec_child);
    lemma_child_untagged_inv(s, k);
}

/// Law: the active player alternates with every move, so after a legal
/// sequence it is determined by the parity of the number of moves played.
/// The mover's mask gains the played cell plus at most one sealed block,
/// so on the unsealed view this is exactly the placement-count parity.
pub proof fn lemma_active_player_parity(s: NodeState, ms: Seq<u8>)
    requires
        legal_seq(s, ms),
    ensures
        apply_seq(s, ms).active == (if ms.len() % 2 == 0 {
            s.active
        } else {
            s.active.spec_other()
        }),
    decreases ms.len(),
{
    reveal(spec_child_untagged);
    reveal(spec_child);
    if ms.len() > 0 {
        lemma_active_player_parity(spec_child(s, ms[0]), ms.drop_first());
    }
}

/// Law: from the empty board, player 1 moves on even turns and player 2 on
/// odd turns.
pub proof fn lemma_parity_from_empty(ms: Seq<u8>)
    requires
        legal_seq(spec_empty(), ms),
    ensures
        apply_seq(spec_empty(), ms).active == (if ms.len() % 2 == 0 {
            Player::Player1
        } else {
            Player::Player2
        }),
{
    lemma_active_player_parity(spec_empty(), ms);
}

/// Law: a move turns exactly one cell bit of the mover's mask from 0 to 1
/// (plus, when the sub-board is won, its sealing block and one super-board
/// bit), leaves the opponent's mask alone, and flips the active player.
pub proof fn lemma_apply_move_changes_one_cell(s: NodeState, k: u8)
    requires
        state_wf_core(s),
        bit128(avail_mask(s), k as int),
    ensures
        ({
            let c = spec_child(s, k);
            let mover = s.active;
            let opp = mover.spec_other();
            &&& c.active == opp
            &&& occ_of(c, opp) == occ_of(s, opp)
            &&& super_of(c, opp) == super_of(s, opp)
            &&& !bit128(occ_of(s, mover), k as int)
            &&& bit128(occ_of(c, mover), k as int)
            &&& (!spec_won_sub(s, k) ==> occ_of(c, mover) == (occ_of(s, mover) | (1u128 << (
                k as u128))) && super_of(c, mover) == super_of(s, mover))
            &&& (spec_won_sub(s, k) ==> super_of(c, mover) == (super_of(s, mover) | (1u32 << ((k
                / 9) as u32))))
            &&& c.forced == k % 9
        }),
{
    reveal(spec_child_untagged);
    reveal(spec_child);
    lemma_avail_in_grid(s, k as int);
    lemma_bit_single(k as u128);
    lemma_bit_or128(occ_of(s, s.active), 1u128 << (k as u128));
    if spec_won_sub(s, k) {
        lemma_bit_or128(occ_with_move(s, k), board_mask(k as int / 9));
    }
}

/// Total number of set occupancy bits; it grows strictly with every move,
/// which bounds the depth of any line of play.
pub open spec fn move_count(s: NodeState) -> nat {
    popcnt128(s.p1_occ | s.p2_occ)
}

/// The structural invariant never reads the terminal tag.
pub proof fn lemma_core_ignores_score(s1: NodeState, s2: NodeState)
    requires
        state_wf_core(s1),
        s2.p1_occ == s1.p1_occ,
        s2.p2_occ == s1.p2_occ,
        s2.super1 == s1.super1,
        s2.super2 == s1.super2,
        s2.forced == s1.forced,
    ensures
        state_wf_core(s2),
{
    reveal(state_wf_core);
}

/// A state that still claims to be undecided has a move left.
pub proof fn lemma_inv_undecided_has_move(s: NodeState)
    requires
        state_inv(s),
        s.score == NodeScore::Indeterminate,
    ensures
        avail_mask(s) != 0,
{
    reveal(state_inv);
}

/// Masks agreeing on occupancies and the forced board offer the same moves.
pub proof fn lemma_avail_ignores_score(s1: NodeState, s2: NodeState)
    requires
        s2.p1_occ == s1.p1_occ,
        s2.p2_occ == s1.p2_occ,
        s2.forced == s1.forced,
    ensures
        avail_mask(s2) == avail_mask(s1),
{
    reveal(free_mask);
    reveal(avail_mask);
}

/// A well-formed state is structurally well formed.
pub proof fn lemma_inv_implies_core(s: NodeState)
    requires
        state_inv(s),
    ensures
        state_wf_core(s),
{
    reveal(state_inv);
}

/// No state occupies more than the 81 cells.
pub proof fn lemma_move_count_le_81(s: NodeState)
    requires
        state_wf_core(s),
    ensures
        move_count(s) <= 81,
{
    reveal(state_wf_core);
    let o = s.p1_occ | s.p2_occ;
    lemma_bit_or128(s.p1_occ, s.p2_occ);
    assert forall|i: int| 81 <= i < 128 implies !bit128(o, i) by {}
    lemma_popcnt_high_zero(o, 81);
    lemma_popcnt_low_le(o, 81);
}

/// A legal move strictly increases the occupancy count, which never
/// exceeds the 81 cells.
pub proof fn lemma_apply_move_grows(s: NodeState, k: u8)
    requires
        state_wf_core(s),
        bit128(avail_mask(s), k as int),
    ensures
        move_count(spec_child(s, k)) > move_count(s),
        move_count(spec_child(s, k)) <= 81,
        move_count(spec_child_untagged(s, k)) == move_count(spec_child(s, k)),
        move_count(s) < 81,
{
    reveal(state_wf_core);
    reveal(spec_child_untagged);
    reveal(spec_child);
    let c = spec_child(s, k);
    lemma_avail_in_grid(s, k as int);
    lemma_child_untagged_inv(s, k);
    let o = s.p1_occ | s.p2_occ;
    let o2 = c.p1_occ | c.p2_occ;
    lemma_bit_or128(s.p1_occ, s.p2_occ);
    lemma_bit_or128(c.p1_occ, c.p2_occ);
    lemma_bit_single(k as u128);
    lemma_bit_or128(occ_of(s, s.active), 1u128 << (k as u128));
    if spec_won_sub(s, k) {
        lemma_bit_or128(occ_with_move(s, k), board_mask(k as int / 9));
    }
    assert forall|i: int| #[trigger] bit128(o, i) implies bit128(o2, i) by {}
    assert(!bit128(o, k as int));
    assert(bit128(o2, k as int));
    lemma_popcnt_strict_subset(o, o2, k as int);
    assert forall|i: int| 81 <= i < 128 implies !bit128(o2, i) by {}
    lemma_popcnt_high_zero(o2, 81);
    lemma_popcnt_low_le(o2, 81);
    assert forall|i: int| 81 <= i < 128 implies !bit128(o, i) by {}
    lemma_popcnt_high_zero(o, 81);
    lemma_popcnt_low_le(o, 81);
}

/// The untagged child of a legal move keeps the structural invariant.
pub proof fn lemma_child_untagged_core(s: NodeState, k: u8)
    requires
        state_wf_core(s),
        bit128(avail_mask(s), k as int),
    ensures
        state_wf_core(spec_child_untagged(s, k)),
{
    reveal(state_wf_core);
    lemma_child_untagged_inv(s, k);
}

/// The untagged child of a legal move is well formed except for its tag,
/// and its occupancies relate to the parent's as the move dictates.
proof fn lemma_child_untagged_inv(s: NodeState, k: u8)
    requires
        state_wf_core(s),
        bit128(avail_mask(s), k as int),
    ensures
        ({
            let c = spec_child_untagged(s, k);
            &&& forall|i: int| #[trigger] bit128(c.p1_occ, i) ==> i < 81
            &&& forall|i: int| #[trigger] bit128(c.p2_occ, i) ==> i < 81
            &&& forall|i: int|
                0 <= i < 81 && #[trigger] bit128(c.p1_occ, i) && bit128(c.p2_occ, i) ==> bit32(
                    c.super1,
                    i / 9,
                ) || bit32(c.super2, i / 9)
            &&& c.super1 < 512
            &&& c.super2 < 512
            &&& c.forced <= 9
            &&& forall|b: int|
                0 <= b < 9 && #[trigger] bit32(c.super1, b) ==> block9(c.p1_occ, b) == 0x1FF
            &&& forall|b: int|
                0 <= b < 9 && #[trigger] bit32(c.super2, b) ==> block9(c.p2_occ, b) == 0x1FF
        }),
{
    reveal(state_wf_core);
    reveal(spec_child_untagged);
    let c = spec_child_untagged(s, k);
    let mover = s.active;
    let b = k as int / 9;
    lemma_avail_in_grid(s, k as int);
    let o0 = occ_of(s, mover);
    let o1 = occ_with_move(s, k);
    lemma_bit_or128(o0, 1u128 << (k as u128));
    lemma_bit_single(k as u128);
    assert(forall|i: int| 0 <= i < 128 ==> (#[trigger] bit128(o1, i) == (bit128(o0, i) || i
        == k)));
    if spec_won_sub(s, k) {
        lemma_bit_or128(o1, board_mask(b));
        lemma_bit_block(b as u128);
        lemma_u32_set_low_bit(super_of(s, mover), (k / 9) as u32);
        // the sealed block is full for the mover
        let o2 = occ_after(s, k);
        assert forall|bb: int|
            0 <= bb < 9 && #[trigger] bit32(super_after(s, k), bb) implies block9(o2, bb)
            == 0x1FF by {
            if bb == b {
                assert forall|i: int| 9 * bb <= i < 9 * bb + 9 implies bit128(o2, i) by {}
                lemma_block9_full(o2, bb as u128);
            } else {
                assert(bit32(super_of(s, mover), bb));
                assert(block9(o0, bb) == 0x1FF);
                lemma_block9_full(o0, bb as u128);
                assert forall|i: int| 9 * bb <= i < 9 * bb + 9 implies bit128(o2, i) by {
                    assert(bit128(o0, i));
                }
                lemma_block9_full(o2, bb as u128);
            }
        }
    } else {
        // blocks already full stay full: the mask only gained bit k
        assert forall|bb: int|
            0 <= bb < 9 && #[trigger] bit32(super_after(s, k), bb) implies block9(o1, bb)
            == 0x1FF by {
            assert(bit32(super_of(s, mover), bb));
            assert(block9(o0, bb) == 0x1FF);
            lemma_block9_full(o0, bb as u128);
            assert forall|i: int| 9 * bb <= i < 9 * bb + 9 implies bit128(o1, i) by {
                assert(bit128(o0, i));
            }
            lemma_block9_full(o1, bb as u128);
        }
    }
}

} // verus!
