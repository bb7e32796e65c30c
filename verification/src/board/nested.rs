//! The nested 3x3-of-3x3 stepping-stone engine: a root board tracking
//! which sub-boards are decided, nine child boards, and a depth-limited
//! negamax evaluator over the nested rules.
use vstd::prelude::*;
use crate::board::{Board, board_inv, cell_at, winner_spec, eval_spec, lemma_bound9_cap};
use crate::types::{CellState, Player, cell_bits};

verus! {

/// How many plies the nested evaluator explores before scoring a position
/// as level.
pub const NESTED_EVAL_DEPTH: u32 = 2;

/// The nested board: sub-board ownership in `root`, cell contents in the
/// nine `children`.
#[derive(Debug, Clone)]
pub struct NestedBoard {
    /// Who owns each decided sub-board.
    pub root: Board,
    /// The nine sub-boards, column-major.
    pub children: Vec<Board>,
}

/// Structural invariant: nine children, all boards well formed.
pub open spec fn nested_inv(b: NestedBoard) -> bool {
    &&& board_inv(b.root.0)
    &&& b.children@.len() == 9
    &&& forall|i: int| 0 <= i < 9 ==> board_inv((#[trigger] b.children@[i]).0)
}

impl NestedBoard {
    /// The empty nested board.
    pub fn new() -> (r: NestedBoard)
        ensures
            nested_inv(r),
            r.root.0 == 0,
            forall|i: int| 0 <= i < 9 ==> (#[trigger] r.children@[i]).0 == 0,
    {
        let root = Board::new();
        let mut children: Vec<Board> = Vec::new();
        let mut i: usize = 0;
        while i < 9
            invariant
                children@.len() == i,
                i <= 9,
                forall|i2: int| 0 <= i2 < i ==> (#[trigger] children@[i2]).0 == 0,
                forall|i2: int| 0 <= i2 < i ==> board_inv((#[trigger] children@[i2]).0),
            decreases 9 - i,
        {
            children.push(Board::new());
            i = i + 1;
        }
        NestedBoard { root, children }
    }

    /// Who wins the whole game, read off the root board.
    pub fn calc_winner(&self) -> (r: Option<Player>)
        ensures
            r == winner_spec(self.root.0),
    {
        self.root.calc_winner()
    }

    /// Whether every sub-board is decided.
    pub fn is_full(&self) -> (r: bool)
        ensures
            r == (self.root.0 & crate::board::ALL_CELLS_OCCUPIED_MASK
                == crate::board::ALL_CELLS_OCCUPIED_MASK),
    {
        self.root.is_full()
    }

    /// Whether no sub-board is decided.
    pub fn is_empty(&self) -> (r: bool)
        ensures
            r == (self.root.0 == 0),
    {
        self.root.is_empty()
    }

    /// Whether sub-board `board_idx` is still open.
    pub fn is_available(&self, board_idx: usize) -> (r: bool)
        requires
            board_idx < 9,
        ensures
            r == (cell_at(self.root.0, board_idx as int) & 0b10 == 0),
    {
        self.root.is_available_1d(board_idx)
    }

    /// Mark sub-board `board_idx` as won by `player` on the root board.
    pub fn set_root_1d(&mut self, board_idx: usize, player: Player)
        requires
            board_idx < 9,
            nested_inv(*old(self)),
            cell_at(old(self).root.0, board_idx as int) == 0,
        ensures
            nested_inv(*final(self)),
            final(self).children == old(self).children,
            cell_at(final(self).root.0, board_idx as int) == cell_bits(
                player.spec_cell_state_of(),
            ),
            final(self).root.0 == old(self).root.0 | (cell_bits(player.spec_cell_state_of()) << ((2
                * board_idx) as u32)),
    {
        self.root.set_1d(board_idx, player);
    }

    /// Place `player` on cell `idx_in_board` of sub-board `board_idx`.
    pub fn set_1d(&mut self, board_idx: usize, idx_in_board: usize, player: Player)
        requires
            board_idx < 9,
            idx_in_board < 9,
            nested_inv(*old(self)),
            cell_at(old(self).children@[board_idx as int].0, idx_in_board as int) == 0,
        ensures
            nested_inv(*final(self)),
            final(self).root == old(self).root,
            final(self).children@.len() == 9,
            cell_at(final(self).children@[board_idx as int].0, idx_in_board as int) == cell_bits(
                player.spec_cell_state_of(),
            ),
            final(self).children@[board_idx as int].0 == old(self).children@[board_idx as int].0
                | (cell_bits(player.spec_cell_state_of()) << ((2 * idx_in_board) as u32)),
            forall|i: int|
                0 <= i < 9 && i != board_idx ==> #[trigger] final(self).children@[i] == old(
                    self,
                ).children@[i],
    {
        let mut b = self.children[board_idx];
        b.set_1d(idx_in_board, player);
        self.children.set(board_idx, b);
    }

    /// A heuristic value for `player` placing on cell `idx_in_board` of
    /// sub-board `board_idx`: a global win scores high, a global loss low,
    /// and otherwise the position is scored by the sub-board evaluation of
    /// the move, looking `NESTED_EVAL_DEPTH` plies into the sub-board.
    pub fn evaluate_move(&self, board_idx: usize, idx_in_board: usize, player: Player) -> (r: i64)
        requires
            board_idx < 9,
            idx_in_board < 9,
            nested_inv(*self),
            cell_at(self.children@[board_idx as int].0, idx_in_board as int) == 0,
            cell_at(self.root.0, board_idx as int) & 0b10 == 0,
        ensures
            r == spec_nested_eval(*self, board_idx as int, idx_in_board as int, player),
    {
        proof {
            lemma_bound9_cap(NESTED_EVAL_DEPTH as nat);
        }
        let mut probe = self.clone_boards();
        probe.set_1d(board_idx, idx_in_board, player);
        let sub_won = probe.children[board_idx].has_winner();
        if sub_won {
            let mut probe2 = probe;
            proof {
                lemma_free_cell_is_zero(self.root.0, board_idx as int);
            }
            probe2.set_root_1d(board_idx, player);
            match probe2.calc_winner() {
                Some(w) => if w == player {
                    1000
                } else {
                    -1000
                },
                None => 100,
            }
        } else {
            self.children[board_idx].evaluate_move_1d(idx_in_board, player, NESTED_EVAL_DEPTH)
        }
    }

    /// A structural copy of the boards.
    pub fn clone_boards(&self) -> (r: NestedBoard)
        ensures
            r.root == self.root,
            r.children@ == self.children@,
    {
        let mut children: Vec<Board> = Vec::new();
        let mut i: usize = 0;
        while i < self.children.len()
            invariant
                i <= self.children@.len(),
                children@ == self.children@.subrange(0, i as int),
            decreases self.children@.len() - i,
        {
            children.push(self.children[i]);
            i = i + 1;
        }
        proof {
            assert(children@ =~= self.children@);
        }
        NestedBoard { root: self.root, children }
    }

    /// Score every playable `(board, cell)` pair for `player`.  When the
    /// hinted sub-board is open only its cells are listed, otherwise the
    /// cells of every open sub-board.
    pub fn find_move_scores(&self, board_idx: usize, player: Player) -> (r: Vec<
        ((usize, usize), i64),
    >)
        requires
            board_idx < 9,
            nested_inv(*self),
        ensures
            forall|t: int|
                0 <= t < r@.len() ==> {
                    let ((b, c), sc) = #[trigger] r@[t];
                    &&& b < 9
                    &&& c < 9
                    &&& searched_board(*self, board_idx as int, b as int)
                    &&& cell_at(self.root.0, b as int) & 0b10 == 0
                    &&& cell_at(self.children@[b as int].0, c as int) == 0
                    &&& sc == spec_nested_eval(*self, b as int, c as int, player)
                },
            // every playable pair under the hint rule is listed
            forall|b: int, c: int|
                0 <= b < 9 && 0 <= c < 9 && searched_board(*self, board_idx as int, b) && cell_at(
                    self.children@[b].0,
                    c,
                ) & 0b10 == 0 ==> exists|t: int|
                    0 <= t < r@.len() && (#[trigger] r@[t]).0 == ((b as usize, c as usize)),
    {
        let hinted_open = self.is_available(board_idx);
        let children_to_search: Vec<usize> = if hinted_open {
            let mut v: Vec<usize> = Vec::new();
            v.push(board_idx);
            v
        } else {
            self.root.iter_moves()
        };
        proof {
            assert forall|t2: int|
                0 <= t2 < children_to_search@.len() implies #[trigger] children_to_search@[t2] < 9
                && searched_board(*self, board_idx as int, children_to_search@[t2] as int)
                && cell_at(self.root.0, children_to_search@[t2] as int) & 0b10 == 0 by {}
            assert forall|b: int|
                0 <= b < 9 && searched_board(*self, board_idx as int, b) implies exists|t2: int|
                0 <= t2 < children_to_search@.len() && #[trigger] children_to_search@[t2]
                    == b as usize by {
                if hinted_open {
                    assert(children_to_search@[0] == b as usize);
                }
            }
        }
        let mut r: Vec<((usize, usize), i64)> = Vec::new();
        let mut t: usize = 0;
        while t < children_to_search.len()
            invariant
                t <= children_to_search@.len(),
                nested_inv(*self),
                board_idx < 9,
                forall|t2: int|
                    0 <= t2 < children_to_search@.len() ==> #[trigger] children_to_search@[t2] < 9
                        && searched_board(*self, board_idx as int, children_to_search@[t2] as int)
                        && cell_at(self.root.0, children_to_search@[t2] as int) & 0b10 == 0,
                forall|t2: int|
                    0 <= t2 < t ==> board_listed(
                        r@,
                        *self,
                        #[trigger] children_to_search@[t2] as int,
                    ),
                forall|t2: int|
                    0 <= t2 < r@.len() ==> {
                        let ((b, c), sc) = #[trigger] r@[t2];
                        &&& b < 9
                        &&& c < 9
                        &&& searched_board(*self, board_idx as int, b as int)
                        &&& cell_at(self.root.0, b as int) & 0b10 == 0
                        &&& cell_at(self.children@[b as int].0, c as int) == 0
                        &&& sc == spec_nested_eval(*self, b as int, c as int, player)
                    },
            decreases children_to_search@.len() - t,
        {
            let b = children_to_search[t];
            let cells = self.children[b].iter_moves();
            let mut u: usize = 0;
            while u < cells.len()
                invariant
                    u <= cells@.len(),
                    b < 9,
                    board_idx < 9,
                    nested_inv(*self),
                    b == children_to_search@[t as int],
                    t < children_to_search@.len(),
                    searched_board(*self, board_idx as int, b as int),
                    cell_at(self.root.0, b as int) & 0b10 == 0,
                    forall|t2: int|
                        0 <= t2 < children_to_search@.len() ==> #[trigger] children_to_search@[t2]
                            < 9 && searched_board(
                            *self,
                            board_idx as int,
                            children_to_search@[t2] as int,
                        ) && cell_at(self.root.0, children_to_search@[t2] as int) & 0b10 == 0,
                    forall|u2: int|
                        0 <= u2 < cells@.len() ==> #[trigger] cells@[u2] < 9 && cell_at(
                            self.children@[b as int].0,
                            cells@[u2] as int,
                        ) & 0b10 == 0,
                    forall|i: int|
                        0 <= i < 9 && cell_at(self.children@[b as int].0, i) & 0b10 == 0
                            ==> exists|u2: int| 0 <= u2 < cells@.len() && #[trigger] cells@[u2]
                            == i,
                    forall|t2: int|
                        0 <= t2 < t ==> board_listed(
                            r@,
                            *self,
                            #[trigger] children_to_search@[t2] as int,
                        ),
                    forall|u2: int|
                        #![trigger cells@[u2]]
                        0 <= u2 < u ==> exists|tt: int|
                            0 <= tt < r@.len() && (#[trigger] r@[tt]).0 == ((b, cells@[u2])),
                    forall|t2: int|
                        0 <= t2 < r@.len() ==> {
                            let ((b2, c2), sc) = #[trigger] r@[t2];
                            &&& b2 < 9
                            &&& c2 < 9
                            &&& searched_board(*self, board_idx as int, b2 as int)
                            &&& cell_at(self.root.0, b2 as int) & 0b10 == 0
                            &&& cell_at(self.children@[b2 as int].0, c2 as int) == 0
                            &&& sc == spec_nested_eval(*self, b2 as int, c2 as int, player)
                        },
                decreases cells@.len() - u,
            {
                let c = cells[u];
                proof {
                    lemma_free_cell_is_zero(self.children@[b as int].0, c as int);
                }
                let sc = self.evaluate_move(b, c, player);
                let ghost r_old = r@;
                r.push(((b, c), sc));
                proof {
                    assert(r@[r@.len() - 1] == (((b, c), sc)));
                    assert forall|t2: int|
                        0 <= t2 < t implies board_listed(
                        r@,
                        *self,
                        #[trigger] children_to_search@[t2] as int,
                    ) by {
                        lemma_listed_grow(
                            r_old,
                            r@,
                            *self,
                            children_to_search@[t2] as int,
                        );
                    }
                    assert forall|u2: int|
                        #![trigger cells@[u2]]
                        0 <= u2 < u + 1 implies exists|tt: int|
                        0 <= tt < r@.len() && (#[trigger] r@[tt]).0 == ((b, cells@[u2])) by {
                        if u2 == u {
                            assert(r@[r@.len() - 1].0 == ((b, cells@[u2 as int])));
                        } else {
                            let tw = choose|tw: int|
                                0 <= tw < r_old.len() && (#[trigger] r_old[tw]).0 == ((
                                b,
                                cells@[u2],
                                ));
                            assert(r@[tw].0 == ((b, cells@[u2])));
                        }
                    }
                }
                u = u + 1;
            }
            proof {
                assert(board_listed(r@, *self, b as int)) by {
                    assert forall|c2: int|
                        #![trigger cell_at(self.children@[b as int].0, c2)]
                        0 <= c2 < 9 && cell_at(self.children@[b as int].0, c2) & 0b10
                            == 0 implies exists|tt: int|
                        0 <= tt < r@.len() && (#[trigger] r@[tt]).0 == ((
                        b as usize,
                        c2 as usize,
                        )) by {
                        let uw = choose|uw: int|
                            0 <= uw < cells@.len() && #[trigger] cells@[uw] == c2 as usize;
                        let tw = choose|tw: int|
                            0 <= tw < r@.len() && (#[trigger] r@[tw]).0 == ((b, cells@[uw]));
                        assert(r@[tw].0 == ((b as usize, c2 as usize)));
                    }
                }
            }
            t = t + 1;
        }
        proof {
            assert forall|b: int, c: int|
                0 <= b < 9 && 0 <= c < 9 && searched_board(*self, board_idx as int, b) && cell_at(
                    self.children@[b].0,
                    c,
                ) & 0b10 == 0 implies exists|tt: int|
                0 <= tt < r@.len() && (#[trigger] r@[tt]).0 == ((b as usize, c as usize)) by {
                let t2 = choose|t2: int|
                    0 <= t2 < children_to_search@.len() && #[trigger] children_to_search@[t2]
                        == b as usize;
                assert(board_listed(r@, *self, b));
            }
        }
        r
    }

    /// The move to play in 9x9 coordinates: the centre cell of the centre
    /// sub-board on an empty position; else a playable pair under the hint
    /// rule whose score is greatest, the last of equals winning, converted
    /// to 9x9 coordinates.
    #[verifier::loop_isolation(false)]
    #[verifier::rlimit(100)]
    pub fn find_best_move(&mut self, player: Player, board_idx: usize) -> (r: (usize, usize))
        requires
            board_idx < 9,
            nested_inv(*old(self)),
        ensures
            *final(self) == *old(self),
            r.0 < 9 && r.1 < 9,
            old(self).root.0 == 0 ==> r == ((4usize, 4usize)),
            (old(self).root.0 != 0 && exists|b: int, c: int|
                #![trigger cell_at(old(self).children@[b].0, c)]
                0 <= b < 9 && 0 <= c < 9 && searched_board(*old(self), board_idx as int, b)
                    && cell_at(old(self).children@[b].0, c) & 0b10 == 0) ==> exists|b: int, c: int|
                #![trigger cell_at(old(self).children@[b].0, c)]
                {
                    &&& 0 <= b < 9
                    &&& 0 <= c < 9
                    &&& searched_board(*old(self), board_idx as int, b)
                    &&& cell_at(old(self).children@[b].0, c) == 0
                    &&& r.0 == (b % 3) * 3 + c % 3
                    &&& r.1 == (b / 3) * 3 + c / 3
                    &&& (forall|b2: int, c2: int|
                        #![trigger cell_at(old(self).children@[b2].0, c2)]
                        0 <= b2 < 9 && 0 <= c2 < 9 && searched_board(
                            *old(self),
                            board_idx as int,
                            b2,
                        ) && cell_at(old(self).children@[b2].0, c2) & 0b10 == 0
                            ==> spec_nested_eval(*old(self), b2, c2, player) <= spec_nested_eval(
                            *old(self),
                            b,
                            c,
                            player,
                        ))
                },
    {
        if self.is_empty() {
            return (4, 4);
        }
        let scores = self.find_move_scores(board_idx, player);
        let mut best: Option<((usize, usize), i64)> = None;
        let mut t: usize = 0;
        while t < scores.len()
            invariant
                t <= scores@.len(),
                forall|t2: int|
                    0 <= t2 < scores@.len() ==> {
                        let ((b2, c2), sc) = #[trigger] scores@[t2];
                        &&& b2 < 9
                        &&& c2 < 9
                        &&& searched_board(*self, board_idx as int, b2 as int)
                        &&& cell_at(self.children@[b2 as int].0, c2 as int) == 0
                        &&& sc == spec_nested_eval(*self, b2 as int, c2 as int, player)
                    },
                match best {
                    Option::None => t == 0,
                    Option::Some(((b, c), sc)) => {
                        &&& b < 9
                        &&& c < 9
                        &&& searched_board(*self, board_idx as int, b as int)
                        &&& cell_at(self.children@[b as int].0, c as int) == 0
                        &&& sc == spec_nested_eval(*self, b as int, c as int, player)
                        &&& (forall|t2: int|
                            0 <= t2 < t ==> (#[trigger] scores@[t2]).1 <= sc)
                    },
                },
            decreases scores@.len() - t,
        {
            let ((b, c), sc) = scores[t];
            let replace = match best {
                None => true,
                Some((_, bv)) => sc >= bv,
            };
            if replace {
                best = Some(((b, c), sc));
            }
            t = t + 1;
        }
        match best {
            Some(((best_board, best_idx_in_board), _)) => {
                proof {
                    assert forall|b2: int, c2: int|
                        #![trigger cell_at(self.children@[b2].0, c2)]
                        0 <= b2 < 9 && 0 <= c2 < 9 && searched_board(
                            *self,
                            board_idx as int,
                            b2,
                        ) && cell_at(self.children@[b2].0, c2) & 0b10 == 0 implies spec_nested_eval(
                        *self,
                        b2,
                        c2,
                        player,
                    ) <= spec_nested_eval(
                        *self,
                        best_board as int,
                        best_idx_in_board as int,
                        player,
                    ) by {
                        let tw = choose|tw: int|
                            0 <= tw < scores@.len() && (#[trigger] scores@[tw]).0 == ((
                            b2 as usize,
                            c2 as usize,
                            ));
                        assert(scores@[tw].1 == spec_nested_eval(*self, b2, c2, player));
                    }
                }
                let (board_row, board_col) = Board::to_2d_idx(best_board);
                let (row_in_board, col_in_board) = Board::to_2d_idx(best_idx_in_board);
                (board_row * 3 + row_in_board, board_col * 3 + col_in_board)
            },
            None => (4, 4),
        }
    }
}

/// Whether sub-board `b` is offered from hint `board_idx`: the hinted
/// board alone while it is open, else every open board.
pub open spec fn searched_board(nb: NestedBoard, board_idx: int, b: int) -> bool {
    if cell_at(nb.root.0, board_idx) & 0b10 == 0 {
        b == board_idx
    } else {
        cell_at(nb.root.0, b) & 0b10 == 0
    }
}

/// Every free cell of sub-board `b` appears among the listed pairs.
pub open spec fn board_listed(r: Seq<((usize, usize), i64)>, nb: NestedBoard, b: int) -> bool {
    forall|c: int|
        #![trigger cell_at(nb.children@[b].0, c)]
        0 <= c < 9 && cell_at(nb.children@[b].0, c) & 0b10 == 0 ==> exists|tt: int|
            0 <= tt < r.len() && (#[trigger] r[tt]).0 == ((b as usize, c as usize))
}

/// Growing the list never loses a listed board.
proof fn lemma_listed_grow(
    r1: Seq<((usize, usize), i64)>,
    r2: Seq<((usize, usize), i64)>,
    nb: NestedBoard,
    b: int,
)
    requires
        board_listed(r1, nb, b),
        r1.len() <= r2.len(),
        forall|i: int| 0 <= i < r1.len() ==> #[trigger] r2[i] == r1[i],
    ensures
        board_listed(r2, nb, b),
{
    assert forall|c: int|
        #![trigger cell_at(nb.children@[b].0, c)]
        0 <= c < 9 && cell_at(nb.children@[b].0, c) & 0b10 == 0 implies exists|tt: int|
        0 <= tt < r2.len() && (#[trigger] r2[tt]).0 == ((b as usize, c as usize)) by {
        let tw = choose|tw: int|
            0 <= tw < r1.len() && (#[trigger] r1[tw]).0 == ((b as usize, c as usize));
        assert(r2[tw].0 == ((b as usize, c as usize)));
    }
}

/// The nested evaluation of one move: the mirror of `evaluate_move`.
pub open spec fn spec_nested_eval(nb: NestedBoard, b: int, c: int, player: Player) -> int {
    let sub2 = nb.children@[b].0 | (cell_bits(player.spec_cell_state_of()) << ((2 * c) as u32));
    if winner_spec(sub2) is Some {
        let root2 = nb.root.0 | (cell_bits(player.spec_cell_state_of()) << ((2 * b) as u32));
        match winner_spec(root2) {
            Some(w) => if w == player {
                1000
            } else {
                -1000
            },
            None => 100,
        }
    } else {
        eval_spec(nb.children@[b].0, c, player, NESTED_EVAL_DEPTH as nat)
    }
}

/// A free cell reads as the zero encoding.
proof fn lemma_free_cell_is_zero(v: u32, i: int)
    requires
        0 <= i < 9,
        cell_at(v, i) & 0b10 == 0,
        crate::board::board_inv(v),
    ensures
        cell_at(v, i) == 0,
{
    let sh = (2 * i) as u32;
    assert(((v >> sh) & 0b11) & 0b10 == 0 ==> ((v >> sh) & 0b11) == 0 || ((v >> sh) & 0b11) == 1)
        by (bit_vector);
}

} // verus!
