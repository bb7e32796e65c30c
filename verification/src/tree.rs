//! The Monte-Carlo tree search engine: arenas of nodes and edges, a
//! transposition map, and the expand / select / simulate / backpropagate
//! cycle under the negamax sign convention.
//!
//! Every stored `score` is from the perspective of the node's previous
//! player (the player who moved into it); back-propagation negates once
//! per edge.
use vstd::prelude::*;

pub mod node_state;
pub mod simulation;

use crate::bitops::{
    bit128, popcnt128, popcnt_low, count_ones_u128, nth_set_bit_u128, lemma_popcnt_zero,
    lemma_popcnt_low_le, lemma_popcnt_low_step, lemma_bit128_zero,
};
use crate::clock::{instant_now, instant_is_before};
use crate::rng::{small_rng_from_seed, rand_in_move_range_exclusive, DEFAULT_SEED};
use crate::tree::node_state::{
    NodeScore, NodeState, avail_mask, spec_child, spec_mc_score, state_inv, move_count,
    spec_empty, lemma_avail_popcnt_le_81, lemma_avail_in_grid,
};

verus! {

/// Index of a node in the arena.
pub type NodeIdx = usize;

/// A rollout score delta, and the unit of node scores.
pub type MonteCarloScore = i64;

/// Upper bound on the total number of expansion steps a tree will perform
/// over its lifetime; it keeps every counter comfortably inside its type.
pub const TOTAL_CAP: u64 = 0x100_0000_0000;

/// One node of the search tree.
#[derive(Debug, Clone, Copy)]
pub struct Node {
    /// The game state this node stands for.
    pub game_state: NodeState,
    /// How many expansions have passed through this node.
    pub visits: u64,
    /// Accumulated rollout score, favouring this node's previous player.
    pub score: i64,
    /// First slot of this node's edges in the edge arena.
    pub first_edge: usize,
    /// Number of legal moves, and of edge slots; 0 for a terminal node.
    pub child_count: usize,
}

/// One pre-allocated edge slot: unvisited until its child is materialised.
#[derive(Debug, Clone, Copy)]
pub struct Edge {
    /// Index of the child node, once materialised.  The node at index 0
    /// holds the empty board, which no move can produce, so 0 never
    /// appears here.
    pub child_node: Option<NodeIdx>,
    /// The move this edge plays, set when the child is materialised.
    pub move_: u8,
}

/// Number of legal moves a node for state `s` owns.
pub open spec fn spec_node_child_count(s: NodeState) -> nat {
    if s.score == NodeScore::Indeterminate {
        popcnt128(avail_mask(s))
    } else {
        0
    }
}

/// Well-formedness of edge slot `j` of node `i`: an explored edge carries
/// the move of rank `j` in the node's available mask, and its child holds
/// exactly the state that move produces.
pub open spec fn edge_ok(nodes: Seq<Node>, edges: Seq<Edge>, i: int, j: int) -> bool {
    let n = nodes[i];
    let e = edges[n.first_edge + j];
    match e.child_node {
        Option::None => true,
        Option::Some(c) => {
            &&& 1 <= c < nodes.len()
            &&& e.move_ < 81
            &&& bit128(avail_mask(n.game_state), e.move_ as int)
            &&& popcnt_low(avail_mask(n.game_state), e.move_ as nat) == j
            &&& nodes[c as int].game_state == spec_child(n.game_state, e.move_)
        },
    }
}

/// Well-formedness of node `i`.
pub open spec fn node_ok(nodes: Seq<Node>, edges: Seq<Edge>, total: u64, i: int) -> bool {
    let n = nodes[i];
    &&& state_inv(n.game_state)
    &&& n.child_count == spec_node_child_count(n.game_state)
    &&& n.first_edge + n.child_count <= edges.len()
    &&& n.visits <= total
    &&& -(n.visits as int) - 1 <= n.score <= n.visits as int + 1
    &&& forall|j: int| 0 <= j < n.child_count ==> edge_ok(nodes, edges, i, j)
}

/// Well-formedness of the arenas.
pub open spec fn arena_ok(nodes: Seq<Node>, edges: Seq<Edge>, total: u64) -> bool {
    forall|i: int| 0 <= i < nodes.len() ==> node_ok(nodes, edges, total, i)
}

/// Consecutive nodes own consecutive, non-overlapping edge ranges.
pub open spec fn ranges_ok(nodes: Seq<Node>) -> bool {
    forall|i: int|
        0 <= i && i + 1 < nodes.len() ==> (#[trigger] nodes[i].first_edge) + nodes[i].child_count
            <= nodes[i + 1].first_edge
}

/// Whether the map holds the entry `(s, c)`.
pub open spec fn in_lookup(lookup: Seq<(NodeState, NodeIdx)>, s: NodeState, c: NodeIdx) -> bool {
    exists|t: int| 0 <= t < lookup.len() && #[trigger] lookup[t] == (s, c)
}

/// The transposition map lists exactly the nodes other than index 0, each
/// under its state, and distinct nodes hold distinct states.
pub open spec fn lookup_ok(lookup: Seq<(NodeState, NodeIdx)>, nodes: Seq<Node>) -> bool {
    &&& forall|t: int|
        0 <= t < lookup.len() ==> 1 <= (#[trigger] lookup[t]).1 < nodes.len()
            && nodes[lookup[t].1 as int].game_state == lookup[t].0
    &&& forall|c: int| #![trigger nodes[c]]
        1 <= c < nodes.len() ==> in_lookup(lookup, nodes[c].game_state, c as NodeIdx)
    &&& forall|c1: int, c2: int|
        1 <= c1 < c2 < nodes.len() ==> (#[trigger] nodes[c1]).game_state != (
        #[trigger] nodes[c2]).game_state
}

/// Edge ranges of distinct nodes are ordered, hence disjoint.
pub proof fn lemma_ranges_ordered(nodes: Seq<Node>, edges: Seq<Edge>, total: u64, i1: int, i2: int)
    requires
        ranges_ok(nodes),
        arena_ok(nodes, edges, total),
        0 <= i1 < i2 < nodes.len(),
    ensures
        nodes[i1].first_edge + nodes[i1].child_count <= nodes[i2].first_edge,
    decreases i2 - i1,
{
    if i1 + 1 < i2 {
        lemma_ranges_ordered(nodes, edges, total, i1, i2 - 1);
        assert(node_ok(nodes, edges, total, i2 - 1));
    }
}

/// A larger total never invalidates the visit bounds.
pub proof fn lemma_arena_total_mono(nodes: Seq<Node>, edges: Seq<Edge>, t1: u64, t2: u64)
    requires
        arena_ok(nodes, edges, t1),
        t1 <= t2,
    ensures
        arena_ok(nodes, edges, t2),
{
    assert forall|i: int| 0 <= i < nodes.len() implies node_ok(nodes, edges, t2, i) by {
        assert(node_ok(nodes, edges, t1, i));
    }
}

/// Changing only the statistics of one node, within their bounds, keeps
/// the arenas well formed.
pub proof fn lemma_stats_update(nodes: Seq<Node>, edges: Seq<Edge>, total: u64, i: int, n2: Node)
    requires
        arena_ok(nodes, edges, total),
        ranges_ok(nodes),
        0 <= i < nodes.len(),
        n2.game_state == nodes[i].game_state,
        n2.first_edge == nodes[i].first_edge,
        n2.child_count == nodes[i].child_count,
        n2.visits <= total,
        -(n2.visits as int) - 1 <= n2.score <= n2.visits as int + 1,
    ensures
        arena_ok(nodes.update(i, n2), edges, total),
        ranges_ok(nodes.update(i, n2)),
{
    let nodes2 = nodes.update(i, n2);
    assert(node_ok(nodes, edges, total, i));
    assert forall|i2: int| 0 <= i2 < nodes2.len() implies node_ok(nodes2, edges, total, i2) by {
        assert(node_ok(nodes, edges, total, i2));
        assert forall|j: int|
            0 <= j < nodes2[i2].child_count implies edge_ok(nodes2, edges, i2, j) by {
            assert(edge_ok(nodes, edges, i2, j));
        }
    }
    assert forall|i2: int|
        0 <= i2 && i2 + 1 < nodes2.len() implies (#[trigger] nodes2[i2].first_edge)
        + nodes2[i2].child_count <= nodes2[i2 + 1].first_edge by {
        assert(nodes[i2].first_edge + nodes[i2].child_count <= nodes[i2 + 1].first_edge);
    }
}

/// The node states are what the transposition map reads; statistics
/// updates leave it intact.
pub proof fn lemma_lookup_states(
    lookup: Seq<(NodeState, NodeIdx)>,
    nodes1: Seq<Node>,
    nodes2: Seq<Node>,
)
    requires
        lookup_ok(lookup, nodes1),
        nodes1.len() == nodes2.len(),
        forall|i: int|
            0 <= i < nodes1.len() ==> (#[trigger] nodes2[i]).game_state
                == nodes1[i].game_state,
    ensures
        lookup_ok(lookup, nodes2),
{
    assert forall|t: int|
        0 <= t < lookup.len() implies 1 <= (#[trigger] lookup[t]).1 < nodes2.len()
        && nodes2[lookup[t].1 as int].game_state == lookup[t].0 by {
        assert(nodes2[lookup[t].1 as int].game_state == nodes1[lookup[t].1 as int].game_state);
    }
    assert forall|c: int| #![trigger nodes2[c]]
        1 <= c < nodes2.len() implies in_lookup(lookup, nodes2[c].game_state, c as NodeIdx) by {
        assert(in_lookup(lookup, nodes1[c].game_state, c as NodeIdx));
        assert(nodes2[c].game_state == nodes1[c].game_state);
    }
    assert forall|c1: int, c2: int|
        1 <= c1 < c2 < nodes2.len() implies (#[trigger] nodes2[c1]).game_state != (
    #[trigger] nodes2[c2]).game_state by {
        assert(nodes1[c1].game_state != nodes1[c2].game_state);
    }
}

/// Writing a well-formed edge into one slot of a node's range keeps the
/// arenas well formed: the ranges of distinct nodes do not overlap.
pub proof fn lemma_edge_patch(
    nodes: Seq<Node>,
    edges: Seq<Edge>,
    total: u64,
    i: int,
    j_sel: int,
    e2: Edge,
)
    requires
        arena_ok(nodes, edges, total),
        ranges_ok(nodes),
        0 <= i < nodes.len(),
        0 <= j_sel < nodes[i].child_count,
        edge_ok(nodes, edges.update(nodes[i].first_edge + j_sel, e2), i, j_sel),
    ensures
        arena_ok(nodes, edges.update(nodes[i].first_edge + j_sel, e2), total),
{
    let a = nodes[i].first_edge + j_sel;
    assert(node_ok(nodes, edges, total, i));
    let edges2 = edges.update(a, e2);
    assert forall|i2: int| 0 <= i2 < nodes.len() implies node_ok(nodes, edges2, total, i2) by {
        assert(node_ok(nodes, edges, total, i2));
        assert forall|j: int|
            0 <= j < nodes[i2].child_count implies edge_ok(nodes, edges2, i2, j) by {
            if i2 == i && j == j_sel {
            } else {
                if i2 < i {
                    lemma_ranges_ordered(nodes, edges, total, i2, i);
                }
                if i < i2 {
                    lemma_ranges_ordered(nodes, edges, total, i, i2);
                }
                assert(nodes[i2].first_edge + j != a);
                assert(edges2[nodes[i2].first_edge + j] == edges[nodes[i2].first_edge + j]);
                assert(edge_ok(nodes, edges, i2, j));
            }
        }
    }
}

/// Floor of the base-2 logarithm.
pub open spec fn spec_log2(x: nat) -> nat
    decreases x,
{
    if x < 2 {
        0
    } else {
        1 + spec_log2(x / 2)
    }
}

/// Integer square root.
pub open spec fn spec_isqrt(x: nat) -> nat
    decreases x,
{
    if x == 0 {
        0
    } else {
        let h = 2 * spec_isqrt(x / 4);
        if (h + 1) * (h + 1) <= x {
            h + 1
        } else {
            h
        }
    }
}

/// The integer square root is the greatest root below the argument.
pub proof fn lemma_isqrt_bounds(x: nat)
    ensures
        spec_isqrt(x) * spec_isqrt(x) <= x,
        x < (spec_isqrt(x) + 1) * (spec_isqrt(x) + 1),
    decreases x,
{
    if x > 0 {
        lemma_isqrt_bounds(x / 4);
        let q = spec_isqrt(x / 4);
        assert(spec_isqrt(x) == (if (2 * q + 1) * (2 * q + 1) <= x {
            2 * q + 1
        } else {
            2 * q
        }));
        let h = 2 * q;
        let d = x / 4;
        assert(q * q <= d);
        assert(d < (q + 1) * (q + 1));
        assert(4 * d <= x && x < 4 * d + 4);
        assert(h * h <= 4 * d) by (nonlinear_arith)
            requires
                h == 2 * q,
                q * q <= d,
                0 <= d,
        ;
        assert(4 * d + 4 <= (h + 2) * (h + 2)) by (nonlinear_arith)
            requires
                h == 2 * q,
                d < (q + 1) * (q + 1),
                0 <= d,
                0 <= q,
        ;
        let r = spec_isqrt(x);
        if (h + 1) * (h + 1) <= x {
            assert(r == h + 1);
            assert(r * r <= x);
            assert(x < (h + 2) * (h + 2));
            assert((r + 1) * (r + 1) == (h + 2) * (h + 2)) by (nonlinear_arith)
                requires
                    r == h + 1,
            ;
        } else {
            assert(r == h);
            assert(r * r <= x);
            assert(x < (r + 1) * (r + 1));
        }
        assert(x < (spec_isqrt(x) + 1) * (spec_isqrt(x) + 1)) by (nonlinear_arith)
            requires
                x < (spec_isqrt(x) + 1) * (spec_isqrt(x) + 1),
        ;
    } else {
        assert(spec_isqrt(x) == 0);
        assert(x < (spec_isqrt(x) + 1) * (spec_isqrt(x) + 1)) by (nonlinear_arith)
            requires
                x == 0,
                spec_isqrt(x) == 0,
        ;
    }
}

/// Executable integer square root of a 64-bit word.
pub fn isqrt_u64(x: u64) -> (r: u64)
    ensures
        r == spec_isqrt(x as nat),
        r < 0x1_0000_0000,
    decreases x,
{
    if x == 0 {
        0
    } else {
        let q = isqrt_u64(x / 4);
        proof {
            lemma_isqrt_bounds((x / 4) as nat);
            assert(q * q <= x / 4);
            assert(q < 0x8000_0000) by (nonlinear_arith)
                requires
                    q * q <= x / 4,
                    x < 0x1_0000_0000_0000_0000,
                    q >= 0,
            ;
            assert((2 * q + 1) * (2 * q + 1) < 0x1_0000_0000_0000_0000) by (nonlinear_arith)
                requires
                    q < 0x8000_0000,
                    q >= 0,
            ;
            lemma_isqrt_bounds(x as nat);
            assert(spec_isqrt(x as nat) * spec_isqrt(x as nat) <= x);
            assert(spec_isqrt(x as nat) < 0x1_0000_0000) by (nonlinear_arith)
                requires
                    spec_isqrt(x as nat) * spec_isqrt(x as nat) <= x,
                    x < 0x1_0000_0000_0000_0000,
                    spec_isqrt(x as nat) >= 0,
            ;
        }
        let h = 2 * q;
        if (h + 1) * (h + 1) <= x {
            h + 1
        } else {
            h
        }
    }
}

/// Executable floor of the base-2 logarithm of a positive 64-bit word.
#[verifier::loop_isolation(false)]
pub fn log2_floor(x: u64) -> (r: u64)
    requires
        x >= 1,
    ensures
        r == spec_log2(x as nat),
        r <= 63,
{
    let mut v = x;
    let mut r: u64 = 0;
    proof {
        assert(x >> 0u64 == x) by (bit_vector);
    }
    while v >= 2
        invariant
            1 <= v,
            v == x >> r,
            r <= 63,
            r + spec_log2(v as nat) == spec_log2(x as nat),
        decreases v,
    {
        proof {
            if r == 63 {
                assert(x >> 63u64 < 2) by (bit_vector);
            }
            let r1 = (r + 1) as u64;
            assert(x >> r1 == (x >> r) / 2) by (bit_vector)
                requires
                    r < 63,
                    r1 == r + 1,
            ;
        }
        v = v / 2;
        r = r + 1;
    }
    r
}

/// The fixed-point upper-confidence value of a child: the exploitation
/// term `(score + visits + 1) * 65536 / visits` (an affine shift of the
/// mean score into non-negative range) plus an exploration term
/// approximating `sqrt(2 * ln(parent_visits) / visits)` in 16.16 fixed
/// point, with the natural logarithm coarsened to `0.6931 * floor(log2)`.
pub open spec fn spec_ucb(score: int, visits: nat, parent_visits: nat) -> int {
    let v: int = if visits == 0 {
        1
    } else {
        visits as int
    };
    let e: int = ((65536 * (90852 * spec_log2(parent_visits))) as int) / v;
    (score + v + 1) * 65536 / v + spec_isqrt(e as nat)
}

/// The fixed-point confidence value of the explored child in slot `j` of
/// node `i`, judged against `parent_visits`.
pub open spec fn slot_ucb(
    nodes: Seq<Node>,
    edges: Seq<Edge>,
    i: int,
    j: int,
    parent_visits: u64,
) -> int {
    let c = edges[nodes[i].first_edge + j].child_node.unwrap() as int;
    spec_ucb(nodes[c].score as int, nodes[c].visits as nat, parent_visits as nat)
}

/// The fixed-point upper-confidence value, executable.
pub fn upper_confidence_bound(score: i64, visits: u64, parent_visits: u64) -> (r: u64)
    requires
        parent_visits >= 1,
        visits <= TOTAL_CAP,
        -(visits as int) - 1 <= score <= visits as int + 1,
    ensures
        r == spec_ucb(score as int, visits as nat, parent_visits as nat),
{
    let v: u64 = if visits == 0 {
        1
    } else {
        visits
    };
    let num: u64 = (score + v as i64 + 1) as u64;
    let exploitation = num * 65536 / v;
    let lg = log2_floor(parent_visits);
    let t: u64 = 90852 * lg;
    let exploration = isqrt_u64((65536 * t) / v);
    exploitation + exploration
}

/// The search tree: arenas of nodes and edges, the transposition map, the
/// current root, and the generator driving rollouts and edge selection.
pub struct Tree {
    /// The node arena; index 0 always holds the empty state.
    pub nodes: Vec<Node>,
    /// The edge arena; each node owns a consecutive range of slots, one
    /// per legal move, in ascending move order.
    pub edges: Vec<Edge>,
    /// The transposition map: every node except index 0 appears here with
    /// its state, so equal states collapse to one node.
    pub lookup: Vec<(NodeState, NodeIdx)>,
    /// The node the next search starts from.
    pub root: NodeIdx,
    /// Generator for rollouts and unvisited-edge selection.
    pub rng: rand::rngs::SmallRng,
    /// Total number of expansion steps performed so far.
    pub total: u64,
}

impl Tree {
    /// Well-formedness of the whole tree.
    pub open spec fn wf(self) -> bool {
        &&& 1 <= self.nodes@.len()
        &&& self.root < self.nodes@.len()
        &&& self.nodes@[0].game_state == spec_empty()
        &&& arena_ok(self.nodes@, self.edges@, self.total)
        &&& ranges_ok(self.nodes@)
        &&& lookup_ok(self.lookup@, self.nodes@)
        &&& self.total <= TOTAL_CAP
    }

    /// Number of nodes allocated so far.
    pub fn node_count(&self) -> (r: usize)
        ensures
            r == self.nodes@.len(),
    {
        self.nodes.len()
    }

    /// The current root node's index.
    pub fn root_index(&self) -> (r: NodeIdx)
        ensures
            r == self.root,
    {
        self.root
    }

    /// A copy of the node at `idx`.
    pub fn get(&self, idx: NodeIdx) -> (r: Node)
        requires
            idx < self.nodes@.len(),
        ensures
            r == self.nodes@[idx as int],
    {
        self.nodes[idx]
    }

    /// A copy of the current root node.
    pub fn root_node(&self) -> (r: Node)
        requires
            self.root < self.nodes@.len(),
        ensures
            r == self.nodes@[self.root as int],
    {
        self.nodes[self.root]
    }

    /// A fresh tree whose single node holds the empty board, with the
    /// given rollout seed.
    #[verifier::loop_isolation(false)]
    pub fn new_with_seed(seed: u64) -> (r: Tree)
        ensures
            r.wf(),
            r.root == 0,
            r.nodes@.len() == 1,
            r.nodes@[0].game_state == spec_empty(),
            r.nodes@[0].visits == 0,
            r.nodes@[0].score == 0,
            r.nodes@[0].first_edge == 0,
            r.nodes@[0].child_count == 81,
            r.edges@.len() == 81,
            forall|a: int| 0 <= a < 81 ==> (#[trigger] r.edges@[a]).child_node is None,
            r.lookup@.len() == 0,
            r.total == 0,
    {
        let empty = NodeState::empty();
        let available = empty.available_in_board_or_fallback();
        let child_count = count_ones_u128(available.get()) as usize;
        proof {
            lemma_avail_popcnt_le_81(empty);
            node_state::lemma_empty_inv();
            crate::util::lemma_popcnt_grid();
            assert(child_count == 81);
        }
        let mut edges: Vec<Edge> = Vec::new();
        let mut c: usize = 0;
        while c < child_count
            invariant
                c <= child_count,
                edges@.len() == c,
                forall|a: int| 0 <= a < edges@.len() ==> (#[trigger] edges@[a]).child_node is None,
            decreases child_count - c,
        {
            edges.push(Edge { child_node: None, move_: 0 });
            c = c + 1;
        }
        let mut nodes: Vec<Node> = Vec::new();
        nodes.push(Node { game_state: empty, visits: 0, score: 0, first_edge: 0, child_count });
        let this = Tree {
            nodes,
            edges,
            lookup: Vec::new(),
            root: 0,
            rng: small_rng_from_seed(seed),
            total: 0,
        };
        proof {
            assert forall|i: int|
                0 <= i < this.nodes@.len() implies node_ok(this.nodes@, this.edges@, 0, i) by {
                assert forall|j: int|
                    0 <= j < this.nodes@[i].child_count implies edge_ok(
                    this.nodes@,
                    this.edges@,
                    i,
                    j,
                ) by {
                    assert(this.edges@[j].child_node is None);
                }
            }
        }
        this
    }

    /// The tree for a game we open: the root is the empty board.
    pub fn new_as_player1() -> (r: Tree)
        ensures
            r.wf(),
            r.nodes@[r.root as int].game_state == spec_empty(),
            r.total == 0,
    {
        Tree::new_with_seed(DEFAULT_SEED)
    }

    /// The tree for a game the opponent opened with `first_move`.
    pub fn new_as_player2(first_move: u8) -> (r: Tree)
        requires
            first_move < 81,
        ensures
            r.wf(),
            r.nodes@[r.root as int].game_state == spec_child(spec_empty(), first_move),
            r.total == 0,
    {
        let mut this = Tree::new_with_seed(DEFAULT_SEED);
        proof {
            node_state::lemma_empty_inv();
            crate::util::lemma_bit_grid();
        }
        let root = this.get_or_insert_child(NodeState::empty(), first_move);
        this.root = root;
        this
    }

    /// The child node reached from `parent_state` by `move_`: the index of
    /// the existing node when the produced state was seen before (the
    /// transposition map collapses equal states to one node), else a fresh
    /// node with zeroed statistics and one unvisited edge slot per legal
    /// move.
    #[verifier::loop_isolation(false)]
    #[verifier::rlimit(60)]
    pub fn get_or_insert_child(&mut self, parent_state: NodeState, move_: u8) -> (r: NodeIdx)
        requires
            old(self).wf(),
            state_inv(parent_state),
            parent_state.score == NodeScore::Indeterminate,
            bit128(avail_mask(parent_state), move_ as int),
        ensures
            final(self).wf(),
            1 <= r < final(self).nodes@.len(),
            final(self).nodes@[r as int].game_state == spec_child(parent_state, move_),
            // the transposition law: an existing node is reused, nothing
            // is allocated
            (exists|c: int|
                1 <= c < old(self).nodes@.len() && (#[trigger] old(self).nodes@[c]).game_state
                    == spec_child(parent_state, move_)) ==> (final(self).nodes@ == old(self).nodes@
                && final(self).edges@ == old(self).edges@ && r < old(self).nodes@.len()),
            // otherwise exactly one node is appended
            !(exists|c: int|
                1 <= c < old(self).nodes@.len() && (#[trigger] old(self).nodes@[c]).game_state
                    == spec_child(parent_state, move_)) ==> (r == old(self).nodes@.len()
                && final(self).nodes@.len() == old(self).nodes@.len() + 1
                && final(self).nodes@[r as int].visits == 0
                && final(self).nodes@[r as int].score == spec_mc_score(
                    final(self).nodes@[r as int].game_state.score,
                )
                && final(self).nodes@[r as int].first_edge == old(self).edges@.len()
                && final(self).edges@.len() == old(self).edges@.len()
                    + final(self).nodes@[r as int].child_count),
            // appended edge slots start unexplored
            forall|a: int|
                #![trigger final(self).edges@[a]]
                old(self).edges@.len() <= a < final(self).edges@.len()
                    ==> final(self).edges@[a].child_node is None,
            // existing nodes and edges are never touched
            forall|i: int|
                #![trigger old(self).nodes@[i]]
                0 <= i < old(self).nodes@.len() ==> final(self).nodes@[i] == old(self).nodes@[i],
            forall|a: int|
                #![trigger old(self).edges@[a]]
                0 <= a < old(self).edges@.len() ==> final(self).edges@[a] == old(self).edges@[a],
            final(self).root == old(self).root,
            final(self).total == old(self).total,
            final(self).nodes@.len() >= old(self).nodes@.len(),
    {
        let applied = parent_state.apply_move(move_);
        let child_state = applied.0;
        let child_count = applied.1 as usize;
        let score = applied.2;

        let ghost child_spec = spec_child(parent_state, move_);

        // transposition lookup
        let mut t: usize = 0;
        while t < self.lookup.len()
            invariant
                forall|t2: int| 0 <= t2 < t ==> (#[trigger] self.lookup@[t2]).0 != child_state,
                self == old(self),
            decreases self.lookup@.len() - t,
        {
            let entry = self.lookup[t];
            if entry.0 == child_state {
                proof {
                    assert(self.nodes@[entry.1 as int].game_state == child_state);
                }
                return entry.1;
            }
            t = t + 1;
        }
        proof {
            // not in the map, hence in no node; node 0 holds the empty
            // state, which no move can produce
            assert forall|c: int|
                1 <= c < self.nodes@.len() implies (#[trigger] self.nodes@[c]).game_state
                != child_spec by {
                assert(in_lookup(self.lookup@, self.nodes@[c].game_state, c as NodeIdx));
                let tw = choose|tw: int|
                    0 <= tw < self.lookup@.len() && #[trigger] self.lookup@[tw] == (
                    self.nodes@[c].game_state,
                    c as NodeIdx,
                    );
                assert(self.lookup@[tw].0 == self.nodes@[c].game_state);
            }
        }

        let idx = self.nodes.len();
        let first_edge = self.edges.len();
        let ghost old_edges = self.edges@;
        let mut c: usize = 0;
        while c < child_count
            invariant
                c <= child_count,
                self.edges@.len() == first_edge + c,
                self.edges@.subrange(0, first_edge as int) == old_edges,
                forall|a: int|
                    first_edge <= a < self.edges@.len() ==> (#[trigger] self.edges@[a]).child_node
                        is None,
                self.nodes == old(self).nodes,
                self.lookup == old(self).lookup,
                self.root == old(self).root,
                self.total == old(self).total,
            decreases child_count - c,
        {
            self.edges.push(Edge { child_node: None, move_: 0 });
            c = c + 1;
        }
        let mc_score = score.as_monte_carlo_score();
        self.nodes.push(
            Node { game_state: child_state, visits: 0, score: mc_score, first_edge, child_count },
        );
        self.lookup.push((child_state, idx));

        proof {
            assert(self.nodes@[idx as int].game_state == child_state);
            assert(self.nodes@[idx as int].score == mc_score);
            assert(mc_score == spec_mc_score(child_state.score));
            assert(self.nodes@[idx as int].first_edge == first_edge);
            assert(first_edge == old(self).edges@.len());
            assert(self.edges@.len() == first_edge + child_count);
            lemma_avail_in_grid(parent_state, move_ as int);
            lemma_bit128_zero();
            assert(child_spec.p1_occ != 0 || child_spec.p2_occ != 0) by {
                node_state::lemma_inv_implies_core(parent_state);
                node_state::lemma_apply_move_changes_one_cell(parent_state, move_);
            }
            assert(child_spec != spec_empty());
            let this = *self;
            let prev = *old(self);
            assert forall|a: int|
                0 <= a < prev.edges@.len() implies this.edges@[a] == #[trigger] prev.edges@[a] by {
                assert(old_edges.subrange(0, prev.edges@.len() as int) == prev.edges@);
                assert(old_edges[a] == old_edges.subrange(0, prev.edges@.len() as int)[a]);
            }
            // well-formedness of the grown tree
            assert forall|i: int|
                0 <= i < this.nodes@.len() implies node_ok(
                this.nodes@,
                this.edges@,
                this.total,
                i,
            ) by {
                if i < prev.nodes@.len() {
                    assert(node_ok(prev.nodes@, prev.edges@, prev.total, i));
                    assert forall|j: int|
                        0 <= j < this.nodes@[i].child_count implies edge_ok(
                        this.nodes@,
                        this.edges@,
                        i,
                        j,
                    ) by {
                        assert(edge_ok(prev.nodes@, prev.edges@, i, j));
                        assert(prev.nodes@[i].first_edge + j < prev.edges@.len());
                        assert(this.edges@[prev.nodes@[i].first_edge + j] == prev.edges@[prev.nodes@[i].first_edge
                            + j]);
                    }
                } else {
                    assert(i == prev.nodes@.len());
                    assert(this.nodes@[i].game_state == child_spec);
                    assert(state_inv(child_spec));
                    assert forall|j: int|
                        0 <= j < this.nodes@[i].child_count implies edge_ok(
                        this.nodes@,
                        this.edges@,
                        i,
                        j,
                    ) by {
                        assert(this.edges@[this.nodes@[i].first_edge + j].child_node is None);
                    }
                }
            }
            assert(ranges_ok(this.nodes@)) by {
                assert forall|i: int|
                    0 <= i && i + 1 < this.nodes@.len() implies (
                #[trigger] this.nodes@[i].first_edge) + this.nodes@[i].child_count
                    <= this.nodes@[i + 1].first_edge by {
                    if i + 1 < prev.nodes@.len() {
                        assert(prev.nodes@[i].first_edge + prev.nodes@[i].child_count
                            <= prev.nodes@[i + 1].first_edge);
                    } else {
                        assert(node_ok(prev.nodes@, prev.edges@, prev.total, i));
                    }
                }
            }
            assert(lookup_ok(this.lookup@, this.nodes@)) by {
                assert forall|tw: int|
                    0 <= tw < this.lookup@.len() implies 1 <= (#[trigger] this.lookup@[tw]).1
                    < this.nodes@.len() && this.nodes@[this.lookup@[tw].1 as int].game_state
                    == this.lookup@[tw].0 by {
                    if tw < prev.lookup@.len() {
                        assert(prev.lookup@[tw] == this.lookup@[tw]);
                    }
                }
                assert forall|c1: int, c2: int|
                    1 <= c1 < c2 < this.nodes@.len() implies (
                #[trigger] this.nodes@[c1]).game_state != (#[trigger] this.nodes@[c2]).game_state by {
                    if c2 < prev.nodes@.len() {
                        assert(prev.nodes@[c1].game_state != prev.nodes@[c2].game_state);
                    } else {
                        assert(this.nodes@[c2].game_state == child_spec);
                        assert(prev.nodes@[c1].game_state != child_spec);
                    }
                }
                assert forall|cc: int| #![trigger this.nodes@[cc]]
                    1 <= cc < this.nodes@.len() implies in_lookup(
                    this.lookup@,
                    this.nodes@[cc].game_state,
                    cc as NodeIdx,
                ) by {
                    if cc < prev.nodes@.len() {
                        assert(in_lookup(prev.lookup@, prev.nodes@[cc].game_state, cc as NodeIdx));
                        let tw = choose|tw: int|
                            0 <= tw < prev.lookup@.len() && #[trigger] prev.lookup@[tw] == (
                            prev.nodes@[cc].game_state,
                            cc as NodeIdx,
                            );
                        assert(this.lookup@[tw] == (this.nodes@[cc].game_state, cc as NodeIdx));
                    } else {
                        assert(this.lookup@[this.lookup@.len() - 1] == (
                            this.nodes@[cc].game_state,
                            cc as NodeIdx,
                        ));
                    }
                }
            }
        }
        idx
    }

    /// Wire edge `j_sel` of node `node_idx` to `child_idx`, which holds
    /// exactly the state that the edge's move produces.
    #[verifier::rlimit(100)]
    fn wire_edge(&mut self, node_idx: NodeIdx, j_sel: usize, move_: u8, child_idx: NodeIdx)
        requires
            old(self).wf(),
            node_idx < old(self).nodes@.len(),
            j_sel < old(self).nodes@[node_idx as int].child_count,
            1 <= child_idx < old(self).nodes@.len(),
            move_ < 81,
            bit128(avail_mask(old(self).nodes@[node_idx as int].game_state), move_ as int),
            popcnt_low(avail_mask(old(self).nodes@[node_idx as int].game_state), move_ as nat)
                == j_sel,
            old(self).nodes@[child_idx as int].game_state == spec_child(
                old(self).nodes@[node_idx as int].game_state,
                move_,
            ),
        ensures
            final(self).wf(),
            final(self).nodes == old(self).nodes,
            final(self).lookup == old(self).lookup,
            final(self).root == old(self).root,
            final(self).total == old(self).total,
            final(self).edges@.len() == old(self).edges@.len(),
            final(self).edges@[old(self).nodes@[node_idx as int].first_edge + j_sel].child_node
                == Some(child_idx),
            final(self).edges@[old(self).nodes@[node_idx as int].first_edge + j_sel].move_
                == move_,
            forall|a: int|
                0 <= a < old(self).edges@.len() && a != old(self).nodes@[node_idx as int].first_edge
                    + j_sel ==> (#[trigger] final(self).edges@[a]) == old(self).edges@[a],
    {
        proof {
            assert(node_ok(self.nodes@, self.edges@, self.total, node_idx as int));
        }
        let first_edge = self.nodes[node_idx].first_edge;
        let edges_len = self.edges.len();
        let mut e = self.edges[first_edge + j_sel];
        e.child_node = Some(child_idx);
        e.move_ = move_;
        let ghost edges_before = self.edges@;
        self.edges.set(first_edge + j_sel, e);
        proof {
            assert(edge_ok(self.nodes@, self.edges@, node_idx as int, j_sel as int));
            lemma_edge_patch(
                self.nodes@,
                edges_before,
                self.total,
                node_idx as int,
                j_sel as int,
                e,
            );
        }
    }

    /// Materialise the unexplored edge `j_sel` of node `node_idx`: create
    /// or find the child its move produces and wire the slot.  Existing
    /// nodes, the root and the totals are untouched.
    #[verifier::rlimit(100)]
    fn materialise_edge(&mut self, node_idx: NodeIdx, j_sel: usize) -> (child: NodeIdx)
        requires
            old(self).wf(),
            node_idx < old(self).nodes@.len(),
            j_sel < old(self).nodes@[node_idx as int].child_count,
        ensures
            final(self).wf(),
            1 <= child < final(self).nodes@.len(),
            final(self).nodes@.len() >= old(self).nodes@.len(),
            final(self).root == old(self).root,
            final(self).total == old(self).total,
            forall|i: int|
                #![trigger old(self).nodes@[i]]
                0 <= i < old(self).nodes@.len() ==> final(self).nodes@[i] == old(self).nodes@[i],
            forall|i: int|
                #![trigger final(self).nodes@[i]]
                old(self).nodes@.len() <= i < final(self).nodes@.len()
                    ==> final(self).nodes@[i].visits == 0 && final(self).nodes@[i].score
                    == spec_mc_score(final(self).nodes@[i].game_state.score),
            move_count(final(self).nodes@[child as int].game_state) > move_count(
                old(self).nodes@[node_idx as int].game_state,
            ),
            // the slot is wired to the child of its own move and nothing
            // else changes among the pre-existing slots
            final(self).edges@.len() >= old(self).edges@.len(),
            final(self).edges@[old(self).nodes@[node_idx as int].first_edge
                + j_sel].child_node == Some(child),
            edge_ok(final(self).nodes@, final(self).edges@, node_idx as int, j_sel as int),
            forall|a: int|
                0 <= a < old(self).edges@.len() && a != old(self).nodes@[node_idx as int].first_edge
                    + j_sel ==> (#[trigger] final(self).edges@[a]) == old(self).edges@[a],
            forall|a: int|
                #![trigger final(self).edges@[a]]
                old(self).edges@.len() <= a < final(self).edges@.len()
                    ==> final(self).edges@[a].child_node is None,
    {
        proof {
            assert(node_ok(self.nodes@, self.edges@, self.total, node_idx as int));
        }
        let node = self.nodes[node_idx];
        let available = node.game_state.available_in_board_or_fallback();
        proof {
            assert(node.game_state.score == NodeScore::Indeterminate);
            lemma_avail_popcnt_le_81(node.game_state);
            assert(j_sel < 81);
            lemma_popcnt_low_le(available.0, j_sel as nat);
        }
        let move_ = nth_set_bit_u128(available.get(), j_sel as u32) as u8;
        proof {
            lemma_avail_in_grid(node.game_state, move_ as int);
        }
        let child_idx = self.get_or_insert_child(node.game_state, move_);
        proof {
            assert(self.nodes@[node_idx as int] == old(self).nodes@[node_idx as int]);
        }
        self.wire_edge(node_idx, j_sel, move_, child_idx);
        proof {
            node_state::lemma_inv_implies_core(node.game_state);
            node_state::lemma_apply_move_grows(node.game_state, move_);
        }
        child_idx
    }

    /// Expand the unexplored edge `j_sel` of node `node_idx`: materialise
    /// its child, run one random rollout from it and credit the child,
    /// and charge this node the negation.  The returned delta is from the
    /// perspective of this node's previous player.
    #[verifier::loop_isolation(false)]
    #[verifier::rlimit(100)]
    #[verifier::spinoff_prover]
    fn expand_leaf(&mut self, node_idx: NodeIdx, j_sel: usize) -> (delta: i64)
        requires
            old(self).wf(),
            node_idx < old(self).nodes@.len(),
            j_sel < old(self).nodes@[node_idx as int].child_count,
            old(self).edges@[old(self).nodes@[node_idx as int].first_edge + j_sel].child_node
                is None,
            old(self).nodes@[node_idx as int].visits >= 1,
            old(self).total >= 1,
            forall|i: int|
                0 <= i < old(self).nodes@.len() && i != node_idx ==> (#[trigger] old(self).nodes@[i]).visits < old(self).total,
            -(old(self).nodes@[node_idx as int].visits as int) <= old(self).nodes@[node_idx as int].score <= old(self).nodes@[node_idx as int].visits as int,
        ensures
            final(self).wf(),
            -1 <= delta <= 1,
            final(self).nodes@.len() >= old(self).nodes@.len(),
            final(self).root == old(self).root,
            final(self).total == old(self).total,
            forall|i: int|
                #![trigger old(self).nodes@[i]]
                0 <= i < old(self).nodes@.len() ==> {
                    let n0 = old(self).nodes@[i];
                    let n1 = final(self).nodes@[i];
                    n1.game_state == n0.game_state && n1.first_edge == n0.first_edge
                        && n1.child_count == n0.child_count && n0.visits <= n1.visits <= n0.visits
                        + 1
                },
            final(self).nodes@[node_idx as int].visits == old(self).nodes@[node_idx as int].visits,
            forall|i: int|
                0 <= i < old(self).nodes@.len() && i != node_idx && move_count(
                    (#[trigger] old(self).nodes@[i]).game_state,
                ) <= move_count(old(self).nodes@[node_idx as int].game_state)
                    ==> final(self).nodes@[i] == old(self).nodes@[i],
            // this node's score changes by exactly the returned delta
            final(self).nodes@[node_idx as int].score == old(self).nodes@[node_idx as int].score
                + delta,
            // the chosen slot is wired to the child of its own move, whose
            // score gained the rollout result (the negation of the delta)
            final(self).edges@[old(self).nodes@[node_idx as int].first_edge + j_sel].child_node
                is Some,
            edge_ok(final(self).nodes@, final(self).edges@, node_idx as int, j_sel as int),
            ({
                let c = final(self).edges@[old(self).nodes@[node_idx as int].first_edge
                    + j_sel].child_node.unwrap() as int;
                &&& 1 <= c < final(self).nodes@.len()
                &&& final(self).nodes@[c].visits >= 1
                &&& (c < old(self).nodes@.len() ==> final(self).nodes@[c].visits
                    == old(self).nodes@[c].visits + 1 && final(self).nodes@[c].score
                    == old(self).nodes@[c].score - delta)
                &&& (c >= old(self).nodes@.len() ==> final(self).nodes@[c].visits == 1
                    && final(self).nodes@[c].score == spec_mc_score(
                    final(self).nodes@[c].game_state.score,
                ) - delta)
            }),
            // no other pre-existing slot changes; appended slots are unexplored
            forall|a: int|
                0 <= a < old(self).edges@.len() && a != old(self).nodes@[node_idx as int].first_edge
                    + j_sel ==> (#[trigger] final(self).edges@[a]) == old(self).edges@[a],
            forall|a: int|
                #![trigger final(self).edges@[a]]
                old(self).edges@.len() <= a < final(self).edges@.len()
                    ==> final(self).edges@[a].child_node is None,
            final(self).edges@.len() >= old(self).edges@.len(),
    {
        let child_idx = self.materialise_edge(node_idx, j_sel);
        let ghost mid = *self;

        // one random rollout from the child; its result favours the
        // child's previous player, who is this node's active player
        proof {
            assert(node_ok(self.nodes@, self.edges@, self.total, child_idx as int));
            assert(child_idx != node_idx);
        }
        let child_node_copy = self.nodes[child_idx];
        let sim = child_node_copy.game_state.into_simulation();
        proof {
            node_state::lemma_inv_implies_core(child_node_copy.game_state);
            node_state::lemma_core_ignores_score(
                child_node_copy.game_state,
                crate::tree::simulation::abstract_state(sim),
            );
            if child_node_copy.game_state.score == NodeScore::Indeterminate {
                node_state::lemma_inv_undecided_has_move(child_node_copy.game_state);
                node_state::lemma_avail_ignores_score(
                    child_node_copy.game_state,
                    crate::tree::simulation::abstract_state(sim),
                );
            }
        }
        let sim_delta = sim.simulate_random(&mut self.rng);

        proof {
            if child_idx < old(self).nodes@.len() {
                assert(self.nodes@[child_idx as int] == old(self).nodes@[child_idx as int]);
                assert(old(self).nodes@[child_idx as int].visits < old(self).total);
            } else {
                assert(self.nodes@[child_idx as int].visits == 0);
            }
        }
        let mut cn = self.nodes[child_idx];
        cn.visits = cn.visits + 1;
        cn.score = cn.score + sim_delta;
        let ghost nodes_a = self.nodes@;
        self.nodes.set(child_idx, cn);
        proof {
            lemma_stats_update(nodes_a, self.edges@, self.total, child_idx as int, cn);
            lemma_lookup_states(self.lookup@, nodes_a, self.nodes@);
            assert(node_ok(self.nodes@, self.edges@, self.total, node_idx as int));
        }
        let mut pn = self.nodes[node_idx];
        pn.score = pn.score - sim_delta;
        let ghost nodes_b = self.nodes@;
        self.nodes.set(node_idx, pn);
        proof {
            lemma_stats_update(nodes_b, self.edges@, self.total, node_idx as int, pn);
            lemma_lookup_states(self.lookup@, nodes_b, self.nodes@);
            assert(node_ok(self.nodes@, self.edges@, self.total, node_idx as int));
            assert(edge_ok(self.nodes@, self.edges@, node_idx as int, j_sel as int));
        }
        0 - sim_delta
    }

    /// Among the fully explored edges of node `node_idx`, the child with
    /// the greatest fixed-point upper-confidence value; the first slot
    /// wins ties.
    #[verifier::loop_isolation(false)]
    #[verifier::rlimit(100)]
    fn select_best_child(&self, node_idx: NodeIdx) -> (r: NodeIdx)
        requires
            self.wf(),
            node_idx < self.nodes@.len(),
            self.nodes@[node_idx as int].child_count >= 1,
            self.nodes@[node_idx as int].visits >= 1,
            forall|j: int|
                0 <= j < self.nodes@[node_idx as int].child_count ==> (#[trigger] self.edges@[self.nodes@[node_idx as int].first_edge
                    + j]).child_node is Some,
        ensures
            1 <= r < self.nodes@.len(),
            move_count(self.nodes@[r as int].game_state) > move_count(
                self.nodes@[node_idx as int].game_state,
            ),
            // the argmax of the fixed-point confidence rule, judged
            // against this node's visit count; the first slot wins ties
            exists|j: int|
                #![trigger self.edges@[self.nodes@[node_idx as int].first_edge + j]]
                {
                    &&& 0 <= j < self.nodes@[node_idx as int].child_count
                    &&& self.edges@[self.nodes@[node_idx as int].first_edge + j].child_node
                        == Some(r)
                    &&& (forall|j2: int|
                        0 <= j2 < self.nodes@[node_idx as int].child_count ==> slot_ucb(
                            self.nodes@,
                            self.edges@,
                            node_idx as int,
                            j2,
                            self.nodes@[node_idx as int].visits,
                        ) <= slot_ucb(
                            self.nodes@,
                            self.edges@,
                            node_idx as int,
                            j,
                            self.nodes@[node_idx as int].visits,
                        ))
                    &&& (forall|j2: int|
                        0 <= j2 < j ==> slot_ucb(
                            self.nodes@,
                            self.edges@,
                            node_idx as int,
                            j2,
                            self.nodes@[node_idx as int].visits,
                        ) < slot_ucb(
                            self.nodes@,
                            self.edges@,
                            node_idx as int,
                            j,
                            self.nodes@[node_idx as int].visits,
                        ))
                },
    {
        proof {
            assert(node_ok(self.nodes@, self.edges@, self.total, node_idx as int));
        }
        let node = self.nodes[node_idx];
        let first_edge = node.first_edge;
        let edges_len = self.edges.len();
        let parent_visits = node.visits;
        proof {
            assert(self.edges@[first_edge + 0].child_node is Some);
            assert(edge_ok(self.nodes@, self.edges@, node_idx as int, 0));
        }
        let e0 = self.edges[first_edge];
        let mut best_c: NodeIdx = e0.child_node.unwrap();
        let mut best_j: usize = 0;
        proof {
            assert(node_ok(self.nodes@, self.edges@, self.total, best_c as int));
            node_state::lemma_inv_implies_core(node.game_state);
            node_state::lemma_apply_move_grows(node.game_state, e0.move_);
        }
        let n0 = self.nodes[best_c];
        let mut best_val: u64 = upper_confidence_bound(n0.score, n0.visits, parent_visits);
        let mut j2: usize = 1;
        while j2 < node.child_count
            invariant
                1 <= j2 <= node.child_count,
                1 <= best_c < self.nodes@.len(),
                best_j < j2,
                move_count(self.nodes@[best_c as int].game_state) > move_count(
                    node.game_state,
                ),
                self.edges@[first_edge + best_j].child_node == Some(best_c),
                best_val == slot_ucb(
                    self.nodes@,
                    self.edges@,
                    node_idx as int,
                    best_j as int,
                    parent_visits,
                ),
                forall|jj: int|
                    0 <= jj < j2 ==> slot_ucb(
                        self.nodes@,
                        self.edges@,
                        node_idx as int,
                        jj,
                        parent_visits,
                    ) <= best_val,
                forall|jj: int|
                    0 <= jj < best_j ==> slot_ucb(
                        self.nodes@,
                        self.edges@,
                        node_idx as int,
                        jj,
                        parent_visits,
                    ) < best_val,
            decreases node.child_count - j2,
        {
            proof {
                assert(self.edges@[first_edge + j2].child_node is Some);
                assert(edge_ok(self.nodes@, self.edges@, node_idx as int, j2 as int));
            }
            let ej = self.edges[first_edge + j2];
            let cj = ej.child_node.unwrap();
            proof {
                assert(node_ok(self.nodes@, self.edges@, self.total, cj as int));
                node_state::lemma_inv_implies_core(node.game_state);
                node_state::lemma_apply_move_grows(node.game_state, ej.move_);
            }
            let nj = self.nodes[cj];
            let val = upper_confidence_bound(nj.score, nj.visits, parent_visits);
            if val > best_val {
                best_val = val;
                best_c = cj;
                best_j = j2;
            }
            j2 = j2 + 1;
        }
        best_c
    }

    /// One iteration of Monte-Carlo tree search from node `node_idx`: walk
    /// down while every edge is explored picking the best fixed-point
    /// upper-confidence child, then either replay a terminal node's
    /// constant score or materialise one unexplored child and run a random
    /// rollout from it.  The returned delta is from the perspective of
    /// this node's previous player; the caller adds its negation.
    #[verifier::loop_isolation(false)]
    #[verifier::rlimit(100)]
    fn expand(&mut self, node_idx: NodeIdx, fuel: Ghost<nat>) -> (delta: i64)
        requires
            old(self).wf(),
            node_idx < old(self).nodes@.len(),
            fuel@ + move_count(old(self).nodes@[node_idx as int].game_state) == 81,
            old(self).total + 82 <= TOTAL_CAP + move_count(
                old(self).nodes@[node_idx as int].game_state,
            ),
        ensures
            final(self).wf(),
            -1 <= delta <= 1,
            final(self).nodes@.len() >= old(self).nodes@.len(),
            final(self).root == old(self).root,
            old(self).total < final(self).total,
            final(self).total + move_count(old(self).nodes@[node_idx as int].game_state) <= old(self).total + 82,
            forall|i: int|
                #![trigger old(self).nodes@[i]]
                0 <= i < old(self).nodes@.len() ==> {
                    let n0 = old(self).nodes@[i];
                    let n1 = final(self).nodes@[i];
                    n1.game_state == n0.game_state && n1.first_edge == n0.first_edge
                        && n1.child_count == n0.child_count && n0.visits <= n1.visits <= n0.visits
                        + 1
                },
            final(self).nodes@[node_idx as int].visits == old(self).nodes@[node_idx as int].visits
                + 1,
            forall|i: int|
                0 <= i < old(self).nodes@.len() && i != node_idx && move_count(
                    (#[trigger] old(self).nodes@[i]).game_state,
                ) <= move_count(old(self).nodes@[node_idx as int].game_state)
                    ==> final(self).nodes@[i] == old(self).nodes@[i],
            // the negamax bookkeeping: the returned delta is exactly this
            // node's score change
            final(self).nodes@[node_idx as int].score == old(self).nodes@[node_idx as int].score
                + delta,
            // either the walk replayed a terminal node and no edge moved,
            // or exactly one slot went from unexplored to explored and now
            // points at a visited child holding its move's state
            (final(self).edges@ == old(self).edges@) || (exists|a: int|
                #![trigger old(self).edges@[a]]
                {
                    &&& 0 <= a < old(self).edges@.len()
                    &&& old(self).edges@[a].child_node is None
                    &&& final(self).edges@[a].child_node is Some
                    &&& 1 <= final(self).edges@[a].child_node.unwrap() < final(self).nodes@.len()
                    &&& final(self).nodes@[final(self).edges@[a].child_node.unwrap() as int].visits
                        >= 1
                    &&& (forall|a2: int|
                        0 <= a2 < old(self).edges@.len() && a2 != a ==> (#[trigger] final(self).edges@[a2]) == old(self).edges@[a2])
                    &&& (forall|a2: int|
                        #![trigger final(self).edges@[a2]]
                        old(self).edges@.len() <= a2 < final(self).edges@.len() ==> final(self).edges@[a2].child_node is None)
                }),
        decreases fuel@, 1int,
    {
        proof {
            assert(node_ok(self.nodes@, self.edges@, self.total, node_idx as int));
            node_state::lemma_inv_implies_core(self.nodes@[node_idx as int].game_state);
            node_state::lemma_move_count_le_81(self.nodes@[node_idx as int].game_state);
        }
        self.total = self.total + 1;
        proof {
            lemma_arena_total_mono(self.nodes@, self.edges@, (self.total - 1) as u64, self.total);
            assert(self.total <= TOTAL_CAP);
        }
        let mut node = self.nodes[node_idx];
        node.visits = node.visits + 1;
        self.nodes.set(node_idx, node);
        proof {
            lemma_stats_update(old(self).nodes@, self.edges@, self.total, node_idx as int, node);
            lemma_lookup_states(self.lookup@, old(self).nodes@, self.nodes@);
            assert(node_ok(self.nodes@, self.edges@, self.total, node_idx as int));
        }

        if node.child_count == 0 {
            // terminal: the tag is a per-visit constant
            proof {
                if node.game_state.score == NodeScore::Indeterminate {
                    lemma_popcnt_zero(avail_mask(node.game_state));
                }
            }
            let c = node.game_state.node_score_favoring_previous_player().as_monte_carlo_score();
            let mut node2 = self.nodes[node_idx];
            node2.score = node2.score + c;
            let ghost nodes_before = self.nodes@;
            self.nodes.set(node_idx, node2);
            proof {
                lemma_stats_update(nodes_before, self.edges@, self.total, node_idx as int, node2);
                lemma_lookup_states(self.lookup@, nodes_before, self.nodes@);
            }
            return c;
        }

        // list the unexplored edge slots
        let first_edge = node.first_edge;
        let edges_len = self.edges.len();
        let mut unvisited: Vec<usize> = Vec::new();
        let mut j: usize = 0;
        let ghost snap = *self;
        proof {
            lemma_avail_popcnt_le_81(node.game_state);
        }
        while j < node.child_count
            invariant
                j <= node.child_count,
                *self == snap,
                unvisited@.len() <= j,
                forall|t: int|
                    0 <= t < unvisited@.len() ==> (#[trigger] unvisited@[t]) < j
                        && self.edges@[first_edge + unvisited@[t]].child_node is None,
                unvisited@.len() == 0 ==> forall|j2: int|
                    0 <= j2 < j ==> (#[trigger] self.edges@[first_edge + j2]).child_node is Some,
            decreases node.child_count - j,
        {
            if self.edges[first_edge + j].child_node.is_none() {
                unvisited.push(j);
                proof {
                    assert(unvisited@[unvisited@.len() - 1] == j);
                }
            }
            j = j + 1;
        }

        let n_unvisited = unvisited.len();
        if n_unvisited > 0 {
            // pick one unexplored edge uniformly at random and expand it
            let r_idx = rand_in_move_range_exclusive(&mut self.rng, n_unvisited as u8) as usize;
            let j_sel = unvisited[r_idx];
            proof {
                assert forall|i: int|
                    0 <= i < self.nodes@.len() && i != node_idx implies (#[trigger] self.nodes@[i]).visits
                    < self.total by {
                    assert(node_ok(old(self).nodes@, old(self).edges@, old(self).total, i));
                }
            }
            let ghost mid_leaf = *self;
            let d = self.expand_leaf(node_idx, j_sel);
            proof {
                let a = mid_leaf.nodes@[node_idx as int].first_edge + j_sel;
                assert(old(self).edges@[a].child_node is None);
                assert(self.edges@[a].child_node is Some);
                assert forall|i: int|
                    #![trigger old(self).nodes@[i]]
                    0 <= i < old(self).nodes@.len() implies {
                    let n0 = old(self).nodes@[i];
                    let n1 = self.nodes@[i];
                    n1.game_state == n0.game_state && n1.first_edge == n0.first_edge
                        && n1.child_count == n0.child_count && n0.visits <= n1.visits <= n0.visits
                        + 1
                } by {
                    assert(mid_leaf.nodes@[i].game_state == old(self).nodes@[i].game_state);
                    if i != node_idx {
                        assert(mid_leaf.nodes@[i] == old(self).nodes@[i]);
                    }
                }
                assert forall|i: int|
                    0 <= i < old(self).nodes@.len() && i != node_idx && move_count(
                        (#[trigger] old(self).nodes@[i]).game_state,
                    ) <= move_count(old(self).nodes@[node_idx as int].game_state) implies self.nodes@[i]
                    == old(self).nodes@[i] by {
                    assert(mid_leaf.nodes@[i] == old(self).nodes@[i]);
                }
            }
            return d;
        }

        proof {
            assert forall|j2: int|
                0 <= j2 < node.child_count implies (#[trigger] self.edges@[first_edge + j2]).child_node
                is Some by {}
            assert forall|i: int|
                0 <= i < self.nodes@.len() && i != node_idx implies (#[trigger] self.nodes@[i]).visits
                < self.total by {
                assert(node_ok(old(self).nodes@, old(self).edges@, old(self).total, i));
            }
        }
        let ghost mid_desc = *self;
        let d = self.expand_descend(node_idx, fuel);
        proof {
            assert forall|i: int|
                #![trigger old(self).nodes@[i]]
                0 <= i < old(self).nodes@.len() implies {
                let n0 = old(self).nodes@[i];
                let n1 = self.nodes@[i];
                n1.game_state == n0.game_state && n1.first_edge == n0.first_edge && n1.child_count
                    == n0.child_count && n0.visits <= n1.visits <= n0.visits + 1
            } by {
                assert(mid_desc.nodes@[i].game_state == old(self).nodes@[i].game_state);
                if i != node_idx {
                    assert(mid_desc.nodes@[i] == old(self).nodes@[i]);
                }
            }
            assert forall|i: int|
                0 <= i < old(self).nodes@.len() && i != node_idx && move_count(
                    (#[trigger] old(self).nodes@[i]).game_state,
                ) <= move_count(old(self).nodes@[node_idx as int].game_state) implies self.nodes@[i]
                == old(self).nodes@[i] by {
                assert(mid_desc.nodes@[i] == old(self).nodes@[i]);
            }
        }
        d
    }

    /// Descend from a node whose every edge is explored: follow the best
    /// child under the fixed-point upper-confidence rule, and add the
    /// negation of its delta to this node's score.  The node's own visit
    /// count was already credited by the caller.
    #[verifier::loop_isolation(false)]
    #[verifier::rlimit(100)]
    fn expand_descend(&mut self, node_idx: NodeIdx, fuel: Ghost<nat>) -> (delta: i64)
        requires
            old(self).wf(),
            node_idx < old(self).nodes@.len(),
            fuel@ + move_count(old(self).nodes@[node_idx as int].game_state) == 81,
            old(self).total + 81 <= TOTAL_CAP + move_count(
                old(self).nodes@[node_idx as int].game_state,
            ),
            old(self).total >= 1,
            old(self).nodes@[node_idx as int].visits >= 1,
            old(self).nodes@[node_idx as int].child_count >= 1,
            forall|j: int|
                0 <= j < old(self).nodes@[node_idx as int].child_count ==> (#[trigger] old(
                    self,
                ).edges@[old(self).nodes@[node_idx as int].first_edge + j]).child_node is Some,
            forall|i: int|
                0 <= i < old(self).nodes@.len() && i != node_idx ==> (#[trigger] old(self).nodes@[i]).visits
                    < old(self).total,
            -(old(self).nodes@[node_idx as int].visits as int) <= old(self).nodes@[node_idx as int].score
                <= old(self).nodes@[node_idx as int].visits as int,
        ensures
            final(self).wf(),
            -1 <= delta <= 1,
            final(self).nodes@.len() >= old(self).nodes@.len(),
            final(self).root == old(self).root,
            old(self).total < final(self).total,
            final(self).total + move_count(old(self).nodes@[node_idx as int].game_state) <= old(self).total
                + 81,
            forall|i: int|
                #![trigger old(self).nodes@[i]]
                0 <= i < old(self).nodes@.len() ==> {
                    let n0 = old(self).nodes@[i];
                    let n1 = final(self).nodes@[i];
                    n1.game_state == n0.game_state && n1.first_edge == n0.first_edge
                        && n1.child_count == n0.child_count && n0.visits <= n1.visits <= n0.visits
                        + 1
                },
            final(self).nodes@[node_idx as int].visits == old(self).nodes@[node_idx as int].visits,
            forall|i: int|
                0 <= i < old(self).nodes@.len() && i != node_idx && move_count(
                    (#[trigger] old(self).nodes@[i]).game_state,
                ) <= move_count(old(self).nodes@[node_idx as int].game_state)
                    ==> final(self).nodes@[i] == old(self).nodes@[i],
            final(self).nodes@[node_idx as int].score == old(self).nodes@[node_idx as int].score
                + delta,
            (final(self).edges@ == old(self).edges@) || (exists|a: int|
                #![trigger old(self).edges@[a]]
                {
                    &&& 0 <= a < old(self).edges@.len()
                    &&& old(self).edges@[a].child_node is None
                    &&& final(self).edges@[a].child_node is Some
                    &&& 1 <= final(self).edges@[a].child_node.unwrap() < final(self).nodes@.len()
                    &&& final(self).nodes@[final(self).edges@[a].child_node.unwrap() as int].visits
                        >= 1
                    &&& (forall|a2: int|
                        0 <= a2 < old(self).edges@.len() && a2 != a ==> (#[trigger] final(self).edges@[a2])
                            == old(self).edges@[a2])
                    &&& (forall|a2: int|
                        #![trigger final(self).edges@[a2]]
                        old(self).edges@.len() <= a2 < final(self).edges@.len()
                            ==> final(self).edges@[a2].child_node is None)
                }),
        decreases fuel@, 0int,
    {
        let ghost snap = *self;
        let best_c = self.select_best_child(node_idx);
        let ghost child_mc = move_count(self.nodes@[best_c as int].game_state);
        proof {
            assert(node_ok(self.nodes@, self.edges@, self.total, best_c as int));
            node_state::lemma_inv_implies_core(self.nodes@[best_c as int].game_state);
            node_state::lemma_move_count_le_81(self.nodes@[best_c as int].game_state);
        }
        let ghost pre_rec = *self;
        let d = self.expand(best_c, Ghost((81 - child_mc) as nat));
        let ghost post_rec = *self;
        proof {
            assert(self.nodes@[node_idx as int] == snap.nodes@[node_idx as int]);
            assert(node_ok(self.nodes@, self.edges@, self.total, node_idx as int));
        }
        let mut pn = self.nodes[node_idx];
        pn.score = pn.score - d;
        let ghost nodes_c = self.nodes@;
        self.nodes.set(node_idx, pn);
        proof {
            lemma_stats_update(nodes_c, self.edges@, self.total, node_idx as int, pn);
            lemma_lookup_states(self.lookup@, nodes_c, self.nodes@);
            // the recursion's single wired edge, if any, is this call's too
            assert(pre_rec.edges@ == old(self).edges@);
            assert(self.edges@ == post_rec.edges@);
            if !(post_rec.edges@ == pre_rec.edges@) {
                let aw = choose|aw: int|
                    #![trigger pre_rec.edges@[aw]]
                    {
                        &&& 0 <= aw < pre_rec.edges@.len()
                        &&& pre_rec.edges@[aw].child_node is None
                        &&& post_rec.edges@[aw].child_node is Some
                        &&& post_rec.nodes@[post_rec.edges@[aw].child_node.unwrap() as int].visits
                            >= 1
                        &&& (forall|a2: int|
                            0 <= a2 < pre_rec.edges@.len() && a2 != aw ==> (
                            #[trigger] post_rec.edges@[a2]) == pre_rec.edges@[a2])
                        &&& (forall|a2: int|
                            #![trigger post_rec.edges@[a2]]
                            pre_rec.edges@.len() <= a2 < post_rec.edges@.len()
                                ==> post_rec.edges@[a2].child_node is None)
                    };
                let cw = post_rec.edges@[aw].child_node.unwrap() as int;
                assert(self.nodes@[cw].visits == post_rec.nodes@[cw].visits);
                assert(old(self).edges@[aw].child_node is None);
                assert(self.edges@[aw].child_node is Some);
            }
        }
        0 - d
    }
/// Run exactly `n` search iterations from the current root: the
    /// root's visit count grows by exactly `n`.
    #[verifier::loop_isolation(false)]
    pub fn search_n(&mut self, n: u32)
        requires
            old(self).wf(),
            old(self).total + 82 * (n as u64) <= TOTAL_CAP,
        ensures
            final(self).wf(),
            final(self).root == old(self).root,
            final(self).nodes@.len() >= old(self).nodes@.len(),
            final(self).nodes@[final(self).root as int].game_state == old(self).nodes@[old(self).root as int].game_state,
            final(self).nodes@[final(self).root as int].visits == old(self).nodes@[old(self).root as int].visits + n,
    {
        let ghost base = *self;
        let mut i: u32 = 0;
        while i < n
            invariant
                i <= n,
                self.wf(),
                self.root == base.root,
                self.nodes@.len() >= base.nodes@.len(),
                self.total <= base.total + 82 * (i as u64),
                self.nodes@[self.root as int].game_state == base.nodes@[base.root as int].game_state,
                self.nodes@[self.root as int].visits == base.nodes@[base.root as int].visits + i,
            decreases n - i,
        {
            let _ = self.search_step();
            i = i + 1;
        }
    }

    /// One search iteration from the current root: the returned delta is
    /// exactly the root's score change, from its previous player's view.
    pub fn search_step(&mut self) -> (delta: i64)
        requires
            old(self).wf(),
            old(self).total + 82 <= TOTAL_CAP,
        ensures
            final(self).wf(),
            final(self).root == old(self).root,
            final(self).nodes@.len() >= old(self).nodes@.len(),
            old(self).total < final(self).total,
            final(self).total <= old(self).total + 82,
            final(self).nodes@[final(self).root as int].game_state == old(self).nodes@[old(self).root as int].game_state,
            final(self).nodes@[final(self).root as int].visits == old(self).nodes@[old(self).root as int].visits + 1,
            -1 <= delta <= 1,
            final(self).nodes@[final(self).root as int].score == old(self).nodes@[old(self).root as int].score + delta,
            // one iteration explores at most one edge, and then a visited
            // child holding that edge's state hangs off it
            (final(self).edges@ == old(self).edges@) || (exists|a: int|
                #![trigger old(self).edges@[a]]
                {
                    &&& 0 <= a < old(self).edges@.len()
                    &&& old(self).edges@[a].child_node is None
                    &&& final(self).edges@[a].child_node is Some
                    &&& 1 <= final(self).edges@[a].child_node.unwrap() < final(self).nodes@.len()
                    &&& final(self).nodes@[final(self).edges@[a].child_node.unwrap() as int].visits
                        >= 1
                    &&& (forall|a2: int|
                        0 <= a2 < old(self).edges@.len() && a2 != a ==> (#[trigger] final(self).edges@[a2]) == old(self).edges@[a2])
                    &&& (forall|a2: int|
                        #![trigger final(self).edges@[a2]]
                        old(self).edges@.len() <= a2 < final(self).edges@.len() ==> final(self).edges@[a2].child_node is None)
                }),
    {
        proof {
            assert(node_ok(self.nodes@, self.edges@, self.total, self.root as int));
            node_state::lemma_inv_implies_core(self.nodes@[self.root as int].game_state);
            node_state::lemma_move_count_le_81(self.nodes@[self.root as int].game_state);
        }
        let ghost mc_root = move_count(self.nodes@[self.root as int].game_state);
        let root = self.root;
        self.expand(root, Ghost((81 - mc_root) as nat))
    }

    /// Search until the monotonic clock passes `deadline`; an in-flight
    /// iteration completes, so the overrun is bounded by one iteration.
    #[verifier::loop_isolation(false)]
    pub fn search_until(&mut self, deadline: &std::time::Instant)
        requires
            old(self).wf(),
        ensures
            final(self).wf(),
            final(self).root == old(self).root,
            final(self).nodes@[final(self).root as int].game_state == old(self).nodes@[old(self).root as int].game_state,
    {
        loop
            invariant
                self.wf(),
                self.root == old(self).root,
                self.nodes@[self.root as int].game_state == old(self).nodes@[old(self).root as int].game_state,
            decreases TOTAL_CAP - self.total,
        {
            if self.total + 82 > TOTAL_CAP {
                break ;
            }
            let now = instant_now();
            if !instant_is_before(&now, deadline) {
                break ;
            }
            let _ = self.search_step();
        }
    }

    /// Search while the shared flag stays set: cooperative cancellation
    /// for thinking on the opponent's time.
    #[verifier::loop_isolation(false)]
    pub fn search_while(&mut self, flag: &std::sync::atomic::AtomicBool)
        requires
            old(self).wf(),
        ensures
            final(self).wf(),
            final(self).root == old(self).root,
    {
        loop
            invariant
                self.wf(),
                self.root == old(self).root,
            decreases TOTAL_CAP - self.total,
        {
            if self.total + 82 > TOTAL_CAP {
                break ;
            }
            if !flag.load(core::sync::atomic::Ordering::Acquire) {
                break ;
            }
            let _ = self.search_step();
        }
    }

    /// The most robust reply found so far: among the root's explored
    /// edges, the move whose child was visited most, the first edge
    /// winning ties.
    #[verifier::loop_isolation(false)]
    #[verifier::rlimit(100)]
    pub fn best_explored_move(&self) -> (r: u8)
        requires
            self.wf(),
            exists|j: int|
                0 <= j < self.nodes@[self.root as int].child_count && (#[trigger] self.edges@[self.nodes@[self.root as int].first_edge
                    + j]).child_node is Some,
        ensures
            exists|j: int|
                #![trigger self.edges@[self.nodes@[self.root as int].first_edge + j]]
                {
                    let e = self.edges@[self.nodes@[self.root as int].first_edge + j];
                    &&& 0 <= j < self.nodes@[self.root as int].child_count
                    &&& e.child_node is Some
                    &&& e.move_ == r
                    &&& forall|j2: int|
                        0 <= j2 < self.nodes@[self.root as int].child_count && (
                        #[trigger] self.edges@[self.nodes@[self.root as int].first_edge + j2]).child_node
                            is Some ==> self.nodes@[self.edges@[self.nodes@[self.root as int].first_edge
                            + j2].child_node.unwrap() as int].visits
                            <= self.nodes@[e.child_node.unwrap() as int].visits
                },
    {
        proof {
            assert(node_ok(self.nodes@, self.edges@, self.total, self.root as int));
        }
        let node = self.nodes[self.root];
        let first_edge = node.first_edge;
        let edges_len = self.edges.len();
        let mut best: Option<(u8, usize, u64)> = None;
        let ghost fe = node.first_edge as int;
        let mut j: usize = 0;
        while j < node.child_count
            invariant
                j <= node.child_count,
                match best {
                    Option::None => forall|j2: int|
                        0 <= j2 < j ==> !((#[trigger] self.edges@[fe + j2]).child_node is Some),
                    Option::Some((mv, bj, bv)) => {
                        &&& 0 <= bj < j
                        &&& self.edges@[fe + bj].child_node is Some
                        &&& self.edges@[fe + bj].move_ == mv
                        &&& bv == self.nodes@[self.edges@[fe + bj].child_node.unwrap() as int].visits
                        &&& forall|j2: int|
                            0 <= j2 < j && (#[trigger] self.edges@[fe + j2]).child_node is Some
                                ==> self.nodes@[self.edges@[fe + j2].child_node.unwrap() as int].visits
                                <= bv
                    },
                },
            decreases node.child_count - j,
        {
            proof {
                assert(edge_ok(self.nodes@, self.edges@, self.root as int, j as int));
            }
            let e = self.edges[first_edge + j];
            if let Some(c) = e.child_node {
                let v = self.nodes[c].visits;
                let replace = match best {
                    None => true,
                    Some((_, _, bv)) => v > bv,
                };
                if replace {
                    best = Some((e.move_, j, v));
                }
            }
            j = j + 1;
        }
        match best {
            Some((mv, bj, _)) => mv,
            None => {
                proof {
                    let jw = choose|jw: int|
                        0 <= jw < self.nodes@[self.root as int].child_count && (
                        #[trigger] self.edges@[self.nodes@[self.root as int].first_edge + jw]).child_node
                            is Some;
                    assert(false);
                }
                0
            },
        }
    }

    /// Advance the root along the already-explored edge playing `k`.
    #[verifier::loop_isolation(false)]
    #[verifier::rlimit(100)]
    pub fn apply_explored_move(&mut self, board_col_major_idx: u8)
        requires
            old(self).wf(),
            exists|j: int|
                #![trigger old(self).edges@[old(self).nodes@[old(self).root as int].first_edge + j]]
                0 <= j < old(self).nodes@[old(self).root as int].child_count
                    && old(self).edges@[old(self).nodes@[old(self).root as int].first_edge
                    + j].child_node is Some && old(self).edges@[old(self).nodes@[old(self).root as int].first_edge + j].move_ == board_col_major_idx,
        ensures
            final(self).wf(),
            final(self).nodes@[final(self).root as int].game_state == spec_child(
                old(self).nodes@[old(self).root as int].game_state,
                board_col_major_idx,
            ),
            final(self).nodes == old(self).nodes,
            final(self).edges == old(self).edges,
            final(self).total == old(self).total,
    {
        proof {
            assert(node_ok(self.nodes@, self.edges@, self.total, self.root as int));
        }
        let node = self.nodes[self.root];
        let first_edge = node.first_edge;
        let edges_len = self.edges.len();
        let ghost fe = node.first_edge as int;
        let mut j: usize = 0;
        while j < node.child_count
            invariant
                j <= node.child_count,
                *self == *old(self),
                forall|j2: int|
                    0 <= j2 < j ==> !((#[trigger] self.edges@[fe + j2]).child_node is Some
                        && self.edges@[fe + j2].move_ == board_col_major_idx),
            decreases node.child_count - j,
        {
            proof {
                assert(edge_ok(self.nodes@, self.edges@, self.root as int, j as int));
            }
            let e = self.edges[first_edge + j];
            if let Some(c) = e.child_node {
                if e.move_ == board_col_major_idx {
                    self.root = c;
                    return ;
                }
            }
            j = j + 1;
        }
        proof {
            let jw = choose|jw: int|
                #![trigger old(self).edges@[old(self).nodes@[old(self).root as int].first_edge + jw]]
                0 <= jw < old(self).nodes@[old(self).root as int].child_count && old(self).edges@[old(self).nodes@[old(self).root as int].first_edge + jw].child_node
                    is Some && old(self).edges@[old(self).nodes@[old(self).root as int].first_edge
                    + jw].move_ == board_col_major_idx;
            assert(false);
        }
    }

    /// Advance the root by move `k`, materialising the child first when
    /// no explored edge plays it yet.
    #[verifier::loop_isolation(false)]
    #[verifier::rlimit(100)]
    pub fn apply_maybe_explored_move(&mut self, board_col_major_idx: u8)
        requires
            old(self).wf(),
            old(self).nodes@[old(self).root as int].game_state.score
                == NodeScore::Indeterminate,
            bit128(
                avail_mask(old(self).nodes@[old(self).root as int].game_state),
                board_col_major_idx as int,
            ),
        ensures
            final(self).wf(),
            final(self).nodes@[final(self).root as int].game_state == spec_child(
                old(self).nodes@[old(self).root as int].game_state,
                board_col_major_idx,
            ),
    {
        proof {
            assert(node_ok(self.nodes@, self.edges@, self.total, self.root as int));
        }
        let k = board_col_major_idx;
        let node = self.nodes[self.root];
        let first_edge = node.first_edge;
        let edges_len = self.edges.len();
        let ghost fe = node.first_edge as int;
        let mut j: usize = 0;
        while j < node.child_count
            invariant
                j <= node.child_count,
                *self == *old(self),
            decreases node.child_count - j,
        {
            proof {
                assert(edge_ok(self.nodes@, self.edges@, self.root as int, j as int));
            }
            let e = self.edges[first_edge + j];
            if let Some(c) = e.child_node {
                if e.move_ == k {
                    self.root = c;
                    return ;
                }
            }
            j = j + 1;
        }
        // not materialised yet: create the child and wire the edge slot
        // of rank `k` within the available mask
        let root_idx = self.root;
        let root_state = node.game_state;
        proof {
            lemma_avail_in_grid(root_state, k as int);
            lemma_avail_popcnt_le_81(root_state);
            lemma_popcnt_low_step(avail_mask(root_state), k as nat, 128);
            let kk = k as u128;
            assert((1u128 << kk) >= 1) by (bit_vector)
                requires
                    kk < 128,
            ;
            crate::bitops::lemma_popcnt_low_mask(
                avail_mask(root_state),
                k as u128,
                ((1u128 << (k as u128)) - 1) as u128,
            );
            lemma_popcnt_low_le(avail_mask(root_state), k as nat);
        }
        let available = node.game_state.available_in_board_or_fallback();
        let rank = count_ones_u128(available.get() & ((1u128 << (k as u128)) - 1)) as usize;
        let child_idx = self.get_or_insert_child(root_state, k);
        proof {
            assert(self.nodes@[root_idx as int] == old(self).nodes@[root_idx as int]);
            crate::bitops::lemma_popcnt128_is_low(avail_mask(root_state));
            assert(rank == popcnt_low(avail_mask(root_state), k as nat));
            assert(node.child_count == popcnt128(avail_mask(root_state)));
            assert(rank < node.child_count);
        }
        self.wire_edge(root_idx, rank, k, child_idx);
        self.root = child_idx;
    }
}

} // verus!
