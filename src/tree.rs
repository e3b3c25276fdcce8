//! The tree store: an arena of nodes and edges addressed by integer keys.
//!
//! Node `0` is the root. A node's edges are a contiguous range of the edge
//! arena, fixed when the node is created. An edge's child is created at most
//! once, by the completion of the one simulation that claimed it. Every node
//! holds its value from the perspective of its own side to move.
use vstd::prelude::*;
use crate::chess::{Color, GameResult};
use crate::puct::{
    frac_le, frac_less, frac_lt, frac_in_range, lemma_frac_le_lt, score_fraction, puct, sqrt_of, FirstPlayUrgency, MctsParams, PRIOR_ONE, PROB_ONE, SQRT_SCALE,
    VALUE_DRAW, VALUE_MAX, VISITS_MAX,
};

verus! {

/// The most simulations that one tree completes or holds in flight.
pub const MAX_SIMULATIONS: u64 = 1_099_511_627_776;

/// What an edge leads to.
#[derive(Clone, Copy, Debug, PartialEq, Eq, Structural)]
pub enum Child {
    /// Not yet claimed by any simulation.
    Unexpanded,
    /// Claimed by a simulation whose evaluation has not come back.
    Pending,
    /// The key of the child node.
    Expanded(usize),
}

/// One legal move from a node.
#[derive(Clone, Copy, Debug)]
pub struct Edge {
    /// The key of the node that the move is played from.
    pub parent: usize,
    /// The move, as its index in the position's list of legal moves.
    pub mv: u32,
    /// The policy prior, on the scale `0 ..= PRIOR_ONE`.
    pub prior: u32,
    /// The number of simulations in flight through this edge.
    pub virtual_loss: u64,
    pub child: Child,
}

/// A position reached in the tree.
#[derive(Clone, Copy, Debug)]
pub struct Node {
    /// Completed simulations through this node.
    pub visits: u64,
    /// Sum of the values backed up to this node, from its side to move's perspective.
    pub value_sum: u64,
    /// Sum of the draw probabilities backed up to this node.
    pub draw_sum: u64,
    /// The side to move.
    pub to_move: Color,
    /// Whether the game is over here, and how.
    pub result: GameResult,
    /// The key of the node's first edge.
    pub first_edge: usize,
    /// The number of the node's edges.
    pub num_edges: usize,
}

/// Where a walk from the root stopped.
#[derive(Clone, Copy, Debug, PartialEq, Eq, Structural)]
enum Walk {
    Terminal,
    Pending,
    Unexpanded,
}

/// The outcome of one selection.
#[derive(Clone, Copy, Debug, PartialEq, Eq, Structural)]
pub enum Selection {
    /// A leaf to evaluate: the path in slot `slot` ends at an edge that this
    /// simulation has claimed (or is empty, for the root).
    Expand { slot: usize },
    /// The path reached a node whose result is known; its value was backed up.
    Terminal,
    /// The path reached an edge that another simulation is expanding; nothing changed.
    Collision,
    /// The tree holds as many simulations as it can; nothing changed.
    Full,
}

/// What the evaluation of a leaf found.
#[derive(Debug)]
pub struct LeafEval {
    /// The result of the leaf position.
    pub result: GameResult,
    /// The side to move at the leaf.
    pub to_move: Color,
    /// The value, from the leaf's side to move, on the scale `0 ..= VALUE_MAX`.
    pub value: u64,
    /// The draw probability, on the scale `0 ..= PROB_ONE`.
    pub draw: u32,
    /// The legal moves, as indices.
    pub moves: Vec<u32>,
    /// The prior of each move, on the scale `0 ..= PRIOR_ONE`.
    pub priors: Vec<u32>,
}

/// The search tree and the simulations in flight through it.
pub struct Tree {
    pub nodes: Vec<Node>,
    pub edges: Vec<Edge>,
    /// The edge path of each simulation that was started.
    pub paths: Vec<Vec<usize>>,
    /// Whether the simulation of each slot is still in flight.
    pub live: Vec<bool>,
    /// The number of simulations in flight.
    pub pending: u64,
    /// The number of simulations completed.
    pub completed: u64,
    /// The side to move at the root.
    pub root_to_move: Color,
}

/// The value of a leaf as seen `plies` moves above it.
pub open spec fn value_at(v: int, plies: int) -> int {
    if plies % 2 == 0 {
        v
    } else {
        VALUE_MAX - v
    }
}

/// The fixed value of a finished game from the side to move's perspective.
pub open spec fn result_value(result: GameResult, to_move: Color) -> int {
    match result {
        GameResult::Decisive { winner } => if winner == to_move {
            VALUE_MAX as int
        } else {
            0
        },
        _ => VALUE_DRAW as int,
    }
}

/// The draw probability of a finished game.
pub open spec fn result_draw(result: GameResult) -> int {
    match result {
        GameResult::Draw => PROB_ONE as int,
        _ => 0,
    }
}

/// The edge key `e` lies in the range of node `n`.
pub open spec fn owns(n: Node, e: int) -> bool {
    n.first_edge <= e < n.first_edge + n.num_edges
}

/// The node that a child points to, or `-1`.
pub open spec fn child_key(c: Child) -> int {
    match c {
        Child::Expanded(k) => k as int,
        _ => -1,
    }
}

/// The number of times `e` occurs in `p`.
pub open spec fn occ(p: Seq<usize>, e: int) -> int
    decreases p.len(),
{
    if p.len() == 0 {
        0
    } else {
        occ(p.drop_last(), e) + if p.last() == e {
            1int
        } else {
            0
        }
    }
}

/// The uses of edge `e` by the live paths among the first `n` slots.
pub open spec fn pending_occ(paths: Seq<Vec<usize>>, live: Seq<bool>, e: int, n: int) -> int
    decreases n,
{
    if n <= 0 {
        0
    } else {
        pending_occ(paths, live, e, n - 1) + if live[n - 1] {
            occ(paths[n - 1]@, e)
        } else {
            0
        }
    }
}

/// The number of live slots among the first `n`.
pub open spec fn live_count(live: Seq<bool>, n: int) -> int
    decreases n,
{
    if n <= 0 {
        0
    } else {
        live_count(live, n - 1) + if live[n - 1] {
            1int
        } else {
            0
        }
    }
}

impl Node {
    /// The mean value from the node's own perspective.
    pub open spec fn q(self) -> int {
        if self.visits == 0 {
            VALUE_DRAW as int
        } else {
            self.value_sum as int / self.visits as int
        }
    }

    pub open spec fn is_terminal(self) -> bool {
        !(self.result is NonTerminal)
    }
}

impl Tree {
    /// The node reached after the first `k` edges of `p`.
    pub open spec fn node_at(self, p: Seq<usize>, k: int) -> int {
        if k <= 0 {
            0
        } else {
            child_key(self.edges[p[k - 1] as int].child)
        }
    }

    /// `p` is a walk from the root along edges, every one but the last expanded.
    pub open spec fn is_chain(self, p: Seq<usize>) -> bool {
        &&& forall|k: int|
            0 <= k < p.len() ==> #[trigger] p[k] < self.edges.len() && self.edges[p[k] as int].parent
                == self.node_at(p, k)
        &&& forall|k: int| 0 <= k < p.len() - 1 ==> self.edges[#[trigger] p[k] as int].child is Expanded
    }

    /// `p` is the path of a simulation in flight: a chain whose last edge is claimed.
    pub open spec fn is_pending_path(self, p: Seq<usize>) -> bool {
        &&& self.is_chain(p)
        &&& p.len() > 0 ==> self.edges[p.last() as int].child is Pending
        &&& (p.len() == 0) == (self.nodes.len() == 0)
    }

    /// The virtual loss that edge `e` should carry.
    pub open spec fn pending_uses(self, e: int) -> int {
        pending_occ(self.paths@, self.live@, e, self.paths.len() as int)
    }

    pub open spec fn num_live(self) -> int {
        live_count(self.live@, self.live.len() as int)
    }

    pub open spec fn is_live(self, i: int) -> bool {
        0 <= i < self.live.len() && self.live[i]
    }

    /// The arena's shape.
    pub open spec fn wf_shape(self) -> bool {
        &&& forall|n: int|
            0 <= n < self.nodes.len() ==> self.nodes[n].first_edge + self.nodes[n].num_edges
                <= self.edges.len()
        &&& forall|n: int, e: int|
            0 <= n < self.nodes.len() && owns(self.nodes[n], e) ==> self.edges[e].parent == n
        &&& forall|e: int|
            0 <= e < self.edges.len() ==> self.edges[e].parent < self.nodes.len() && owns(
                self.nodes[self.edges[e].parent as int],
                e,
            )
        &&& forall|e: int|
            0 <= e < self.edges.len() && (#[trigger] self.edges[e]).child is Expanded ==> self.edges[e].parent
                < child_key(self.edges[e].child) < self.nodes.len()
        &&& forall|e: int| 0 <= e < self.edges.len() ==> self.edges[e].prior <= PRIOR_ONE
        &&& forall|n: int|
            0 <= n < self.nodes.len() ==> (self.nodes[n].is_terminal() <==> self.nodes[n].num_edges
                == 0)
    }

    /// The statistics' bounds.
    pub open spec fn wf_stats(self) -> bool {
        &&& forall|n: int|
            0 <= n < self.nodes.len() ==> {
                let node = #[trigger] self.nodes[n];
                &&& node.visits <= self.completed
                &&& node.value_sum <= node.visits * VALUE_MAX
                &&& node.draw_sum <= node.visits * PROB_ONE
                &&& node.is_terminal() ==> node.value_sum == node.visits * result_value(node.result, node.to_move)
                    && node.draw_sum == node.visits * result_draw(node.result)
            }
        &&& self.nodes.len() > 0 ==> self.nodes[0].visits == self.completed
        &&& self.nodes.len() == 0 ==> self.completed == 0 && self.edges.len() == 0
        &&& self.completed + self.pending <= MAX_SIMULATIONS
    }

    /// The simulations in flight and the virtual loss that they hold.
    pub open spec fn wf_flight(self) -> bool {
        &&& self.paths.len() == self.live.len()
        &&& self.pending == self.num_live()
        &&& forall|i: int| #[trigger] self.is_live(i) ==> self.is_pending_path(self.paths[i]@)
        &&& forall|i: int, j: int|
            #[trigger] self.is_live(i) && #[trigger] self.is_live(j) && i != j ==> self.paths[i]@.len()
                > 0 && self.paths[i]@.last() != self.paths[j]@.last()
        &&& forall|e: int|
            0 <= e < self.edges.len() ==> self.edges[e].virtual_loss == self.pending_uses(e)
    }

    pub open spec fn wf(self) -> bool {
        self.wf_shape() && self.wf_stats() && self.wf_flight()
    }
}


/// Counting the first `k + 1` elements adds the `k`-th to the first `k`.
pub proof fn lemma_occ_take(p: Seq<usize>, e: int, k: int)
    requires
        0 <= k < p.len(),
    ensures
        occ(p.take(k + 1), e) == occ(p.take(k), e) + if p[k] == e {
            1int
        } else {
            0
        },
{
    assert(p.take(k + 1).drop_last() =~= p.take(k));
}

/// A sequence without repeats holds each element at most once.
pub proof fn lemma_occ_distinct(p: Seq<usize>, e: int)
    requires
        forall|j: int, k: int| 0 <= j < k < p.len() ==> p[j] != p[k],
    ensures
        occ(p, e) <= 1,
        occ(p, e) == 1 ==> exists|j: int| 0 <= j < p.len() && p[j] == e,
    decreases p.len(),
{
    if p.len() > 0 {
        let q = p.drop_last();
        lemma_occ_distinct(q, e);
        if occ(q, e) == 1 {
            let j = choose|j: int| 0 <= j < q.len() && q[j] == e;
            assert(p[j] == e);
        }
    }
}

/// Every element's count is at least zero.
pub proof fn lemma_occ_nonneg(p: Seq<usize>, e: int)
    ensures
        occ(p, e) >= 0,
    decreases p.len(),
{
    if p.len() > 0 {
        lemma_occ_nonneg(p.drop_last(), e);
    }
}

/// The slots past `n` do not change the count over the first `n`.
pub proof fn lemma_pending_prefix(
    paths1: Seq<Vec<usize>>,
    live1: Seq<bool>,
    paths2: Seq<Vec<usize>>,
    live2: Seq<bool>,
    e: int,
    n: int,
)
    requires
        0 <= n <= paths1.len(),
        n <= paths2.len(),
        n <= live1.len(),
        n <= live2.len(),
        forall|i: int| 0 <= i < n ==> paths1[i] == paths2[i] && live1[i] == live2[i],
    ensures
        pending_occ(paths1, live1, e, n) == pending_occ(paths2, live2, e, n),
        live_count(live1, n) == live_count(live2, n),
    decreases n,
{
    if n > 0 {
        lemma_pending_prefix(paths1, live1, paths2, live2, e, n - 1);
    }
}

/// Ending the simulation of slot `i` removes its uses.
pub proof fn lemma_pending_clear(paths: Seq<Vec<usize>>, live: Seq<bool>, e: int, n: int, i: int)
    requires
        0 <= i < n <= live.len(),
        n <= paths.len(),
        live[i],
    ensures
        pending_occ(paths, live.update(i, false), e, n) == pending_occ(paths, live, e, n) - occ(
            paths[i]@,
            e,
        ),
        live_count(live.update(i, false), n) == live_count(live, n) - 1,
    decreases n,
{
    if n - 1 == i {
        lemma_pending_prefix(paths, live.update(i, false), paths, live, e, n - 1);
    } else {
        lemma_pending_clear(paths, live, e, n - 1, i);
    }
}

/// Each live path uses an edge at most once, so an edge's uses are at most the live count.
pub proof fn lemma_pending_bound(paths: Seq<Vec<usize>>, live: Seq<bool>, e: int, n: int)
    requires
        0 <= n <= paths.len(),
        n <= live.len(),
        forall|i: int| 0 <= i < n && live[i] ==> occ(#[trigger] paths[i]@, e) <= 1,
    ensures
        0 <= pending_occ(paths, live, e, n) <= live_count(live, n),
    decreases n,
{
    if n > 0 {
        lemma_pending_bound(paths, live, e, n - 1);
        lemma_occ_nonneg(paths[n - 1]@, e);
    }
}

/// The live count is at least zero and at most the number of slots.
pub proof fn lemma_live_count_bound(live: Seq<bool>, n: int)
    requires
        0 <= n <= live.len(),
    ensures
        0 <= live_count(live, n) <= n,
    decreases n,
{
    if n > 0 {
        lemma_live_count_bound(live, n - 1);
    }
}

impl Tree {
    /// Along a chain the nodes' keys rise strictly.
    pub proof fn lemma_chain_rises(self, p: Seq<usize>)
        requires
            self.wf_shape(),
            self.is_chain(p),
        ensures
            forall|j: int, k: int|
                0 <= j < k < p.len() ==> self.node_at(p, j) < self.node_at(p, k),
            forall|j: int, k: int| 0 <= j < k < p.len() ==> p[j] != p[k],
    {
        assert forall|j: int, k: int| 0 <= j < k < p.len() implies self.node_at(p, j) < self.node_at(
            p,
            k,
        ) by {
            self.lemma_chain_rises_from(p, j, k);
        }
        assert forall|j: int, k: int| 0 <= j < k < p.len() implies p[j] != p[k] by {
            self.lemma_chain_rises_from(p, j, k);
        }
    }

    proof fn lemma_chain_rises_from(self, p: Seq<usize>, j: int, k: int)
        requires
            self.wf_shape(),
            self.is_chain(p),
            0 <= j < k < p.len(),
        ensures
            self.node_at(p, j) < self.node_at(p, k),
        decreases k - j,
    {
        let e = p[k - 1] as int;
        assert(self.edges[e].child is Expanded);
        if j < k - 1 {
            self.lemma_chain_rises_from(p, j, k - 1);
        }
    }

    /// A chain uses each edge at most once.
    pub proof fn lemma_chain_occ(self, p: Seq<usize>, e: int)
        requires
            self.wf_shape(),
            self.is_chain(p),
        ensures
            occ(p, e) <= 1,
    {
        self.lemma_chain_rises(p);
        lemma_occ_distinct(p, e);
    }

    /// Virtual loss is bounded by the number of simulations in flight.
    pub proof fn lemma_virtual_loss_bound(self, e: int)
        requires
            self.wf(),
            0 <= e < self.edges.len(),
        ensures
            self.edges[e].virtual_loss <= self.pending,
    {
        assert forall|i: int| 0 <= i < self.paths.len() && self.live@[i] implies occ(
            #[trigger] self.paths@[i]@,
            e,
        ) <= 1 by {
            assert(self.is_live(i));
            self.lemma_chain_occ(self.paths[i]@, e);
        }
        lemma_pending_bound(self.paths@, self.live@, e, self.paths.len() as int);
        assert(self.edges[e].virtual_loss == self.pending_uses(e));
        assert(self.pending == self.num_live());
    }
}


impl Tree {
    /// The value assumed for an edge of node `n` whose child has no visits yet.
    pub open spec fn fpu(self, params: MctsParams, n: int) -> int {
        match params.fpu {
            FirstPlayUrgency::ParentReduced(d) => {
                let q = self.nodes[n].q();
                if q >= d {
                    q - d
                } else {
                    0
                }
            },
            FirstPlayUrgency::Absolute(v) => v as int,
        }
    }

    /// The value of edge `e` from the perspective of its parent's side to move:
    /// the child's mean value turned round, once the child has a visit; else the
    /// first-play value.
    pub open spec fn edge_q(self, params: MctsParams, e: int) -> int {
        match self.edges[e].child {
            Child::Expanded(c) => if self.nodes[c as int].visits > 0 {
                VALUE_MAX - self.nodes[c as int].q()
            } else {
                self.fpu(params, self.edges[e].parent as int)
            },
            _ => self.fpu(params, self.edges[e].parent as int),
        }
    }

    /// The completed visits of the child of edge `e`.
    pub open spec fn edge_visits(self, e: int) -> int {
        match self.edges[e].child {
            Child::Expanded(c) => self.nodes[c as int].visits as int,
            _ => 0,
        }
    }

    /// The PUCT score of edge `e`, as a fraction (see `puct`).
    pub open spec fn edge_score(self, params: MctsParams, e: int) -> (int, int) {
        let edge = self.edges[e];
        puct(
            self.edge_q(params, e),
            params.cpuct as int,
            edge.prior as int,
            sqrt_of(self.nodes[edge.parent as int].visits * SQRT_SCALE),
            self.edge_visits(e),
            edge.virtual_loss as int,
        )
    }

    /// `e` is the first edge of node `n` with the highest score.
    #[verifier::opaque]
    pub open spec fn is_best_edge(self, params: MctsParams, n: int, e: int) -> bool {
        &&& owns(self.nodes[n], e)
        &&& forall|f: int|
            owns(self.nodes[n], f) ==> frac_le(self.edge_score(params, f), self.edge_score(params, e))
        &&& forall|f: int|
            owns(self.nodes[n], f) && f < e ==> frac_lt(self.edge_score(params, f), self.edge_score(params, e))
    }

    /// `p` follows the best edge from the root at every step.
    pub open spec fn is_greedy(self, params: MctsParams, p: Seq<usize>) -> bool {
        &&& self.is_chain(p)
        &&& forall|k: int| 0 <= k < p.len() ==> self.is_best_edge(params, self.node_at(p, k), p[k] as int)
    }

    /// The mean value of node `n`, computed.
    fn node_q(&self, n: usize) -> (r: u64)
        requires
            self.wf(),
            n < self.nodes.len(),
        ensures
            r == self.nodes[n as int].q(),
            r <= VALUE_MAX,
    {
        let node = self.nodes[n];
        if node.visits == 0 {
            return VALUE_DRAW;
        }
        assert(node.value_sum / node.visits <= VALUE_MAX) by (nonlinear_arith)
            requires
                node.value_sum <= node.visits * VALUE_MAX,
                node.visits >= 1,
        ;
        node.value_sum / node.visits
    }

    /// The score of edge `e`, computed.
    pub fn score_edge(&self, params: &MctsParams, e: usize) -> (r: (u128, u128))
        requires
            self.wf(),
            params.wf(),
            e < self.edges.len(),
        ensures
            (r.0 as int, r.1 as int) == self.edge_score(*params, e as int),
            frac_in_range((r.0 as int, r.1 as int)),
    {
        let edge = self.edges[e];
        let parent = edge.parent;
        let fpu: u64 = match params.fpu {
            FirstPlayUrgency::ParentReduced(d) => {
                let pq = self.node_q(parent);
                if pq >= d {
                    pq - d
                } else {
                    0
                }
            },
            FirstPlayUrgency::Absolute(v) => v,
        };
        let q: u64;
        let child_visits: u64;
        match edge.child {
            Child::Expanded(c) => {
                child_visits = self.nodes[c].visits;
                q = if child_visits > 0 {
                    VALUE_MAX - self.node_q(c)
                } else {
                    fpu
                };
            },
            _ => {
                q = fpu;
                child_visits = 0;
            },
        }
        proof {
            self.lemma_virtual_loss_bound(e as int);
        }
        score_fraction(q, params.cpuct, edge.prior, self.nodes[parent].visits, child_visits, edge.virtual_loss)
    }

    /// A score's denominator is positive.
    pub proof fn lemma_score_den(self, params: MctsParams, e: int)
        requires
            self.wf(),
            0 <= e < self.edges.len(),
        ensures
            self.edge_score(params, e).1 >= 1,
    {
    }

    /// The first edge of node `n` with the highest score.
    pub fn best_edge(&self, params: &MctsParams, n: usize) -> (r: usize)
        requires
            self.wf(),
            params.wf(),
            n < self.nodes.len(),
            !self.nodes[n as int].is_terminal(),
        ensures
            self.is_best_edge(*params, n as int, r as int),
            owns(self.nodes[n as int], r as int),
            r < self.edges.len(),
            self.edges[r as int].parent == n,
    {
        let node = self.nodes[n];
        let first = node.first_edge;
        let end = first + node.num_edges;
        let mut best = first;
        let mut best_score = self.score_edge(params, first);
        let mut e = first + 1;
        while e < end
            invariant
                self.wf(),
                params.wf(),
                node == self.nodes[n as int],
                first == node.first_edge,
                end == first + node.num_edges,
                end <= self.edges.len(),
                first <= best < e <= end,
                (best_score.0 as int, best_score.1 as int) == self.edge_score(*params, best as int),
                frac_in_range((best_score.0 as int, best_score.1 as int)),
                forall|f: int|
                    first <= f < e ==> #[trigger] frac_le(self.edge_score(*params, f), self.edge_score(*params, best as int)),
                forall|f: int|
                    first <= f < best ==> #[trigger] frac_lt(self.edge_score(*params, f), self.edge_score(*params, best as int)),
            decreases end - e,
        {
            let s = self.score_edge(params, e);
            if frac_less(best_score, s) {
                proof {
                    let b = self.edge_score(*params, best as int);
                    let sc = self.edge_score(*params, e as int);
                    assert forall|f: int| first <= f < e + 1 implies #[trigger] frac_le(self.edge_score(*params, f), sc) by {
                        if f < e {
                            self.lemma_score_den(*params, f);
                            lemma_frac_le_lt(self.edge_score(*params, f), b, sc);
                        }
                    }
                    assert forall|f: int| first <= f < e implies #[trigger] frac_lt(self.edge_score(*params, f), sc) by {
                        self.lemma_score_den(*params, f);
                        lemma_frac_le_lt(self.edge_score(*params, f), b, sc);
                    }
                }
                best = e;
                best_score = s;
            }
            e = e + 1;
        }
        proof {
            reveal(Tree::is_best_edge);
        }
        best
    }
}


/// `b` is `a` with one more visit that brought value `v` and draw probability `d`.
pub open spec fn bumped(a: Node, b: Node, v: int, d: int) -> bool {
    &&& b.visits == a.visits + 1
    &&& b.value_sum == a.value_sum + v
    &&& b.draw_sum == a.draw_sum + d
    &&& b.to_move == a.to_move
    &&& b.result == a.result
    &&& b.first_edge == a.first_edge
    &&& b.num_edges == a.num_edges
}

/// A finished game that gains a visit with its own fixed value keeps its sums
/// at that value per visit.
pub proof fn lemma_terminal_bump(a: Node, b: Node, v: int, d: int)
    requires
        bumped(a, b, v, d),
        a.is_terminal(),
        a.value_sum == a.visits * result_value(a.result, a.to_move),
        a.draw_sum == a.visits * result_draw(a.result),
        v == result_value(a.result, a.to_move),
        d == result_draw(a.result),
    ensures
        b.value_sum == b.visits * result_value(b.result, b.to_move),
        b.draw_sum == b.visits * result_draw(b.result),
{
    let rv = result_value(a.result, a.to_move);
    let rd = result_draw(a.result);
    assert(a.visits * rv + rv == (a.visits + 1) * rv) by (nonlinear_arith);
    assert(a.visits * rd + rd == (a.visits + 1) * rd) by (nonlinear_arith);
}

impl Tree {
    /// `p` is a chain whose every edge is expanded.
    pub open spec fn is_full_chain(self, p: Seq<usize>) -> bool {
        &&& self.is_chain(p)
        &&& p.len() > 0 ==> self.edges[p.last() as int].child is Expanded
    }

    /// `new` is `self` after a simulation along `p` backed up value `v` (from the
    /// perspective of the last node of `p`) and draw probability `d`: each node
    /// on the path gained one visit, and the value alternates at each ply.
    pub open spec fn backed_up(self, new: Tree, p: Seq<usize>, v: int, d: int) -> bool {
        &&& new.nodes.len() == self.nodes.len()
        &&& forall|k: int|
            0 <= k <= p.len() ==> bumped(
                self.nodes[self.node_at(p, k)],
                new.nodes[self.node_at(p, k)],
                value_at(v, p.len() - k),
                d,
            )
        &&& forall|m: int|
            0 <= m < self.nodes.len() && (forall|k: int| 0 <= k <= p.len() ==> m != self.node_at(p, k))
                ==> new.nodes[m] == self.nodes[m]
    }

    /// The edges, slots and counters other than the nodes are as in `self`.
    pub open spec fn same_flight(self, new: Tree) -> bool {
        &&& new.edges@ == self.edges@
        &&& new.paths@ == self.paths@
        &&& new.live@ == self.live@
        &&& new.pending == self.pending
        &&& new.root_to_move == self.root_to_move
    }

    /// Two trees with the same edges and node count agree on chains.
    pub proof fn lemma_same_edges(self, other: Tree, p: Seq<usize>)
        requires
            self.edges@ == other.edges@,
            self.nodes.len() == other.nodes.len(),
        ensures
            forall|k: int| #[trigger] self.node_at(p, k) == other.node_at(p, k),
            self.is_chain(p) == other.is_chain(p),
            self.is_full_chain(p) == other.is_full_chain(p),
            self.is_pending_path(p) == other.is_pending_path(p),
    {
        assert forall|k: int| #[trigger] self.node_at(p, k) == other.node_at(p, k) by {
            if k > 0 {
                assert(self.edges[p[k - 1] as int] == other.edges[p[k - 1] as int]);
            }
        }
    }

    /// Along a full chain the nodes' keys rise strictly, up to the last node.
    pub proof fn lemma_full_chain_rises(self, p: Seq<usize>)
        requires
            self.wf_shape(),
            self.is_full_chain(p),
            self.nodes.len() > 0,
        ensures
            forall|j: int, k: int|
                0 <= j < k <= p.len() ==> self.node_at(p, j) < self.node_at(p, k),
            forall|k: int| 0 <= k <= p.len() ==> 0 <= #[trigger] self.node_at(p, k) < self.nodes.len(),
            p.len() < self.nodes.len(),
    {
        self.lemma_chain_rises(p);
        assert forall|j: int, k: int| 0 <= j < k <= p.len() implies self.node_at(p, j) < self.node_at(
            p,
            k,
        ) by {
            let e = p[k - 1] as int;
            assert(self.edges[e].child is Expanded);
            if j < k - 1 {
                assert(self.node_at(p, j) < self.node_at(p, k - 1));
            }
        }
        assert forall|k: int| 0 <= k <= p.len() implies 0 <= #[trigger] self.node_at(p, k) < self.nodes.len() by {
            if k > 0 {
                let e = p[k - 1] as int;
                assert(p[k - 1] < self.edges.len());
                assert(self.edges[e].child is Expanded);
                assert(self.edges[e].parent < child_key(self.edges[e].child) < self.nodes.len());
            }
        }
        self.lemma_node_at_grows(p, p.len() as int);
    }

    proof fn lemma_node_at_grows(self, p: Seq<usize>, k: int)
        requires
            0 <= k <= p.len(),
            forall|j: int, i: int| 0 <= j < i <= p.len() ==> self.node_at(p, j) < self.node_at(p, i),
        ensures
            self.node_at(p, k) >= k,
        decreases k,
    {
        if k > 0 {
            self.lemma_node_at_grows(p, k - 1);
            assert(self.node_at(p, k - 1) < self.node_at(p, k));
        }
    }

    /// An empty tree, with `root_to_move` to play at the root.
    pub fn new(root_to_move: Color) -> (t: Tree)
        ensures
            t.wf(),
            t.nodes.len() == 0,
            t.edges.len() == 0,
            t.paths.len() == 0,
            t.completed == 0,
            t.pending == 0,
            t.root_to_move == root_to_move,
    {
        Tree {
            nodes: Vec::new(),
            edges: Vec::new(),
            paths: Vec::new(),
            live: Vec::new(),
            pending: 0,
            completed: 0,
            root_to_move,
        }
    }

    /// The key of the node after the first `k` edges of a full chain.
    fn node_at_exec(&self, path: &Vec<usize>, k: usize) -> (r: usize)
        requires
            k <= path.len(),
            k > 0 ==> path@[k - 1] < self.edges.len() && self.edges[path@[k - 1] as int].child is Expanded,
        ensures
            r == self.node_at(path@, k as int),
    {
        if k == 0 {
            0
        } else {
            match self.edges[path[k - 1]].child {
                Child::Expanded(c) => c,
                _ => 0,
            }
        }
    }

    /// Backs up value `value` (from the last node's perspective) and draw
    /// probability `draw` along a full chain, and counts the simulation.
    #[verifier::rlimit(80)]
    fn backup(&mut self, path: &Vec<usize>, value: u64, draw: u64)
        requires
            old(self).wf(),
            old(self).nodes.len() > 0,
            old(self).is_full_chain(path@),
            value <= VALUE_MAX,
            draw <= PROB_ONE,
            old(self).completed + old(self).pending < MAX_SIMULATIONS,
            ({
                let last = old(self).nodes[old(self).node_at(path@, path@.len() as int)];
                last.is_terminal() ==> value == result_value(last.result, last.to_move) && draw == result_draw(
                    last.result,
                )
            }),
        ensures
            final(self).wf(),
            old(self).same_flight(*final(self)),
            final(self).completed == old(self).completed + 1,
            old(self).backed_up(*final(self), path@, value as int, draw as int),
    {
        let ghost start = *self;
        let ghost p = path@;
        proof {
            self.lemma_full_chain_rises(p);
        }
        let len = path.len();
        let mut k: usize = 0;
        while k <= len
            invariant
                start.wf(),
                start.is_full_chain(p),
                start.nodes.len() > 0,
                p == path@,
                len == p.len(),
                value <= VALUE_MAX,
                draw <= PROB_ONE,
                k <= len + 1,
                len < start.nodes.len(),
                start.completed + start.pending < MAX_SIMULATIONS,
                start.same_flight(*self),
                self.completed == start.completed,
                self.nodes.len() == start.nodes.len(),
                forall|j: int, i: int| 0 <= j < i <= p.len() ==> start.node_at(p, j) < start.node_at(p, i),
                forall|i: int| 0 <= i <= p.len() ==> 0 <= #[trigger] start.node_at(p, i) < start.nodes.len(),
                forall|j: int|
                    0 <= j < k ==> bumped(
                        start.nodes[start.node_at(p, j)],
                        #[trigger] self.nodes[start.node_at(p, j)],
                        value_at(value as int, p.len() - j),
                        draw as int,
                    ),
                forall|m: int|
                    0 <= m < start.nodes.len() && (forall|j: int| 0 <= j < k ==> m != start.node_at(p, j))
                        ==> #[trigger] self.nodes[m] == start.nodes[m],
            decreases len + 1 - k,
        {
            assert(k > 0 ==> p[k - 1] < start.edges.len() && start.edges[p[k - 1] as int].child is Expanded);
            let n = self.node_at_exec(path, k);
            proof {
                self.lemma_same_edges(start, p);
            }
            assert(self.nodes[n as int] == start.nodes[n as int]) by {
                assert forall|j: int| 0 <= j < k implies n != start.node_at(p, j) by {
                    assert(start.node_at(p, j) < start.node_at(p, k as int));
                }
            }
            let v = if (len - k) % 2 == 0 {
                value
            } else {
                VALUE_MAX - value
            };
            let mut node = self.nodes[n];
            assert(node.visits <= start.completed);
            assert(node.value_sum + v <= (node.visits + 1) * VALUE_MAX) by (nonlinear_arith)
                requires
                    node.value_sum <= node.visits * VALUE_MAX,
                    v <= VALUE_MAX,
            ;
            assert(node.draw_sum + draw <= (node.visits + 1) * PROB_ONE) by (nonlinear_arith)
                requires
                    node.draw_sum <= node.visits * PROB_ONE,
                    draw <= PROB_ONE,
            ;
            assert((node.visits + 1) * VALUE_MAX <= MAX_SIMULATIONS * VALUE_MAX) by (nonlinear_arith)
                requires
                    node.visits + 1 <= MAX_SIMULATIONS,
            ;
            node.visits = node.visits + 1;
            node.value_sum = node.value_sum + v;
            node.draw_sum = node.draw_sum + draw;
            self.nodes.set(n, node);
            k = k + 1;
        }
        self.completed = self.completed + 1;
        proof {
            assert forall|m: int| 0 <= m < self.nodes.len() implies #[trigger] self.nodes[m].visits
                <= self.completed && self.nodes[m].value_sum <= self.nodes[m].visits * VALUE_MAX
                && self.nodes[m].draw_sum <= self.nodes[m].visits * PROB_ONE
                && self.nodes[m].first_edge == start.nodes[m].first_edge
                && self.nodes[m].num_edges == start.nodes[m].num_edges
                && self.nodes[m].result == start.nodes[m].result by {
                if exists|j: int| 0 <= j <= p.len() && m == start.node_at(p, j) {
                    let j = choose|j: int| 0 <= j <= p.len() && m == start.node_at(p, j);
                    assert(bumped(
                        start.nodes[start.node_at(p, j)],
                        self.nodes[start.node_at(p, j)],
                        value_at(value as int, p.len() - j),
                        draw as int,
                    ));
                } else {
                    assert(self.nodes[m] == start.nodes[m]);
                }
            }
            assert(start.node_at(p, 0) == 0);
            assert(bumped(start.nodes[0], self.nodes[0], value_at(value as int, p.len() - 0), draw as int));
            assert forall|n: int| 0 <= n < self.nodes.len() implies self.nodes[n].first_edge
                + self.nodes[n].num_edges <= self.edges.len() && (self.nodes[n].is_terminal()
                <==> self.nodes[n].num_edges == 0) by {
                assert(self.nodes[n].first_edge == start.nodes[n].first_edge);
            }
            assert forall|n: int, e: int|
                0 <= n < self.nodes.len() && owns(self.nodes[n], e) implies self.edges[e].parent == n by {
                assert(self.nodes[n].first_edge == start.nodes[n].first_edge);
                assert(owns(start.nodes[n], e));
            }
            assert forall|e: int| 0 <= e < self.edges.len() implies self.edges[e].parent < self.nodes.len()
                && owns(self.nodes[self.edges[e].parent as int], e) by {
                let n = self.edges[e].parent as int;
                assert(self.nodes[n].first_edge == start.nodes[n].first_edge);
                assert(owns(start.nodes[n], e));
            }
            assert forall|m: int| 0 <= m < self.nodes.len() && (#[trigger] self.nodes[m]).is_terminal() implies
                self.nodes[m].value_sum == self.nodes[m].visits * result_value(self.nodes[m].result, self.nodes[m].to_move)
                && self.nodes[m].draw_sum == self.nodes[m].visits * result_draw(self.nodes[m].result) by {
                if exists|j: int| 0 <= j <= p.len() && m == start.node_at(p, j) {
                    let j = choose|j: int| 0 <= j <= p.len() && m == start.node_at(p, j);
                    let b = bumped(
                        start.nodes[m],
                        self.nodes[m],
                        value_at(value as int, p.len() - j),
                        draw as int,
                    );
                    assert(b);
                    if j < p.len() {
                        assert(p[j] < start.edges.len());
                        assert(owns(start.nodes[m], p[j] as int));
                    }
                    lemma_terminal_bump(start.nodes[m], self.nodes[m], value as int, draw as int);
                } else {
                    assert(self.nodes[m] == start.nodes[m]);
                }
            }
            assert(self.wf_shape());
            assert(self.wf_stats());
            assert forall|i: int| #[trigger] self.is_live(i) implies self.is_pending_path(self.paths[i]@) by {
                assert(start.is_live(i));
                assert(start.is_pending_path(start.paths[i]@));
                self.lemma_same_edges(start, self.paths[i]@);
            }
            assert forall|e: int| 0 <= e < self.edges.len() implies self.edges[e].virtual_loss == self.pending_uses(e) by {
                assert(start.edges[e].virtual_loss == start.pending_uses(e));
            }
            assert(self.pending == self.num_live());
            assert forall|i: int, j: int|
                #[trigger] self.is_live(i) && #[trigger] self.is_live(j) && i != j implies self.paths[i]@.len()
                    > 0 && self.paths[i]@.last() != self.paths[j]@.last() by {
                assert(start.is_live(i) && start.is_live(j));
            }
            assert(self.wf_flight());
        }
    }
}


/// The fixed value and draw probability of a finished game, computed.
pub fn result_value_exec(result: GameResult, to_move: Color) -> (r: (u64, u64))
    ensures
        r.0 == result_value(result, to_move),
        r.1 == result_draw(result),
        r.0 <= VALUE_MAX,
        r.1 <= PROB_ONE,
{
    match result {
        GameResult::Decisive { winner } => if winner == to_move {
            (VALUE_MAX, 0)
        } else {
            (0, 0)
        },
        GameResult::Draw => (VALUE_DRAW, PROB_ONE as u64),
        GameResult::NonTerminal => (VALUE_DRAW, 0),
    }
}

/// If no slot among the first `n` is live, none is.
pub proof fn lemma_none_live(paths: Seq<Vec<usize>>, live: Seq<bool>, n: int, i: int)
    requires
        0 <= i < n <= live.len(),
        n <= paths.len(),
        live_count(live, n) == 0,
    ensures
        !live[i],
{
    if live[i] {
        lemma_pending_clear(paths, live, 0, n, i);
        lemma_live_count_bound(live.update(i, false), n);
    }
}

impl Tree {
    /// `self` and `other` agree on the parent and child of every edge of `p`.
    pub open spec fn agree_on(self, other: Tree, p: Seq<usize>) -> bool {
        forall|k: int|
            0 <= k < p.len() ==> p[k] < self.edges.len() && p[k] < other.edges.len()
                && self.edges[#[trigger] p[k] as int].parent == other.edges[p[k] as int].parent
                && self.edges[p[k] as int].child == other.edges[p[k] as int].child
    }

    /// Trees that agree on the edges of `p` agree on whether it is a chain.
    pub proof fn lemma_agree_on(self, other: Tree, p: Seq<usize>)
        requires
            self.agree_on(other, p),
        ensures
            forall|k: int| 0 <= k <= p.len() ==> #[trigger] self.node_at(p, k) == other.node_at(p, k),
            self.is_chain(p) == other.is_chain(p),
            self.nodes.len() == other.nodes.len() ==> self.is_pending_path(p) == other.is_pending_path(p),
            p.len() > 0 && self.nodes.len() > 0 && other.nodes.len() > 0 ==> self.is_pending_path(p)
                == other.is_pending_path(p),
    {
        assert forall|k: int| 0 <= k <= p.len() implies #[trigger] self.node_at(p, k) == other.node_at(p, k) by {
            if k > 0 {
                let j = k - 1;
                assert(self.edges[p[j] as int].child == other.edges[p[j] as int].child);
            }
        }
    }

    /// `new` is `self` with a simulation along `p` started in a new slot: the
    /// last edge of `p` is claimed and every edge of `p` carries one more virtual loss.
    pub open spec fn started(self, new: Tree, p: Seq<usize>) -> bool {
        &&& new.nodes@ == self.nodes@
        &&& new.completed == self.completed
        &&& new.pending == self.pending + 1
        &&& new.root_to_move == self.root_to_move
        &&& new.paths.len() == self.paths.len() + 1
        &&& forall|i: int| 0 <= i < self.paths.len() ==> new.paths[i] == self.paths[i]
        &&& new.paths[self.paths.len() as int]@ == p
        &&& new.live@ == self.live@.push(true)
        &&& new.edges.len() == self.edges.len()
        &&& forall|e: int|
            0 <= e < self.edges.len() ==> {
                let a = self.edges[e];
                let b = #[trigger] new.edges[e];
                &&& b.parent == a.parent
                &&& b.mv == a.mv
                &&& b.prior == a.prior
                &&& b.virtual_loss == a.virtual_loss + occ(p, e)
                &&& b.child == if p.len() > 0 && e == p.last() {
                    Child::Pending
                } else {
                    a.child
                }
            }
    }

    /// Starts a simulation along `path`, whose last edge is claimed.
    fn claim(&mut self, path: Vec<usize>) -> (slot: usize)
        requires
            old(self).wf(),
            old(self).is_chain(path@),
            (path.len() == 0) == (old(self).nodes.len() == 0),
            path.len() == 0 ==> old(self).pending == 0,
            path.len() > 0 ==> old(self).edges[path@.last() as int].child is Unexpanded,
            old(self).completed + old(self).pending < MAX_SIMULATIONS,
        ensures
            final(self).wf(),
            slot == old(self).paths.len(),
            old(self).started(*final(self), path@),
    {
        let ghost start = *self;
        let ghost p = path@;
        let len = path.len();
        if len > 0 {
            let last = path[len - 1];
            let mut ed = self.edges[last];
            ed.child = Child::Pending;
            self.edges.set(last, ed);
        }
        let ghost marked = *self;
        proof {
            start.lemma_chain_rises(p);
        }
        let mut k: usize = 0;
        while k < len
            invariant
                start.wf(),
                start.is_chain(p),
                p == path@,
                len == p.len(),
                k <= len,
                forall|j: int, i: int| 0 <= j < i < p.len() ==> p[j] != p[i],
                self.nodes@ == start.nodes@,
                self.paths@ == start.paths@,
                self.live@ == start.live@,
                self.pending == start.pending,
                self.completed == start.completed,
                self.root_to_move == start.root_to_move,
                self.edges.len() == start.edges.len(),
                forall|e: int|
                    0 <= e < start.edges.len() ==> {
                        let a = start.edges[e];
                        let b = #[trigger] self.edges[e];
                        &&& b.parent == a.parent
                        &&& b.mv == a.mv
                        &&& b.prior == a.prior
                        &&& b.virtual_loss == a.virtual_loss + occ(p.take(k as int), e)
                        &&& b.child == if p.len() > 0 && e == p.last() {
                            Child::Pending
                        } else {
                            a.child
                        }
                    },
            decreases len - k,
        {
            let e = path[k];
            proof {
                lemma_occ_take(p, e as int, k as int);
                start.lemma_virtual_loss_bound(e as int);
                lemma_occ_distinct(p.take(k as int), e as int);
                if occ(p.take(k as int), e as int) == 1 {
                    let j = choose|j: int| 0 <= j < k && p.take(k as int)[j] == e;
                    assert(p[j] == p[k as int]);
                }
                assert(occ(p.take(k as int), e as int) == 0) by {
                    lemma_occ_nonneg(p.take(k as int), e as int);
                }
            }
            let mut ed = self.edges[e];
            ed.virtual_loss = ed.virtual_loss + 1;
            self.edges.set(e, ed);
            proof {
                assert forall|f: int| 0 <= f < start.edges.len() && f != e implies occ(
                    p.take(k + 1),
                    f,
                ) == occ(p.take(k as int), f) by {
                    lemma_occ_take(p, f, k as int);
                }
            }
            k = k + 1;
        }
        assert(p.take(len as int) =~= p);
        let slot = self.paths.len();
        self.paths.push(path);
        self.live.push(true);
        self.pending = self.pending + 1;
        proof {
            let n = start.paths.len() as int;
            assert forall|e: int| 0 <= e < self.edges.len() implies self.edges[e].virtual_loss
                == self.pending_uses(e) by {
                lemma_pending_prefix(start.paths@, start.live@, self.paths@, self.live@, e, n);
                assert(self.live@[n]);
                assert(self.paths@[n]@ == p);
                assert(start.edges[e].virtual_loss == start.pending_uses(e));
                assert(self.edges[e].virtual_loss == start.edges[e].virtual_loss + occ(p, e));
                assert(pending_occ(self.paths@, self.live@, e, n + 1) == pending_occ(
                    self.paths@,
                    self.live@,
                    e,
                    n,
                ) + occ(p, e));
            }
            lemma_pending_prefix(start.paths@, start.live@, self.paths@, self.live@, 0, n);
            assert(self.pending == self.num_live());
            assert forall|i: int| #[trigger] self.is_live(i) implies self.is_pending_path(self.paths[i]@) by {
                if i < n {
                    assert(start.is_live(i));
                    let q = start.paths[i]@;
                    assert(start.is_pending_path(q));
                    assert forall|k: int| 0 <= k < q.len() implies q[k] != p.last() by {
                        if k < q.len() - 1 {
                            assert(start.edges[q[k] as int].child is Expanded);
                        } else {
                            assert(start.edges[q[k] as int].child is Pending);
                        }
                    }
                    start.lemma_agree_on(*self, q);
                } else {
                    assert(self.paths[i]@ == p);
                    if len > 0 {
                        assert forall|k: int| 0 <= k < p.len() implies #[trigger] self.node_at(p, k)
                            == start.node_at(p, k) by {
                            if k > 0 {
                                assert(p[k - 1] != p[len - 1]);
                            }
                        }
                        assert forall|k: int| 0 <= k < p.len() - 1 implies self.edges[#[trigger] p[k] as int].child is Expanded by {
                            assert(p[k] != p[len - 1]);
                        }
                        assert(self.is_chain(p));
                    }
                }
            }
            assert forall|i: int, j: int|
                #[trigger] self.is_live(i) && #[trigger] self.is_live(j) && i != j implies self.paths[i]@.len()
                    > 0 && self.paths[i]@.last() != self.paths[j]@.last() by {
                if i < n && j < n {
                    assert(start.is_live(i) && start.is_live(j));
                } else {
                    let o = if i < n { i } else { j };
                    assert(start.is_live(o));
                    if len == 0 {
                        lemma_none_live(start.paths@, start.live@, n, o);
                    }
                    assert(start.is_pending_path(start.paths[o]@));
                }
            }
            assert(self.wf_shape());
            assert(self.wf_flight());
        }
        slot
    }
}


impl Tree {
    /// A greedy full chain extended by the best edge of its last node stays greedy.
    pub proof fn lemma_greedy_push(self, params: MctsParams, p: Seq<usize>, e: int)
        requires
            self.wf_shape(),
            self.is_greedy(params, p),
            self.is_full_chain(p),
            self.is_best_edge(params, self.node_at(p, p.len() as int), e),
            0 <= e < self.edges.len(),
            self.edges[e].parent == self.node_at(p, p.len() as int),
            0 <= self.node_at(p, p.len() as int) < self.nodes.len(),
        ensures
            self.is_greedy(params, p.push(e as usize)),
            forall|k: int| 0 <= k <= p.len() ==> #[trigger] self.node_at(p.push(e as usize), k) == self.node_at(p, k),
    {
        let q = p.push(e as usize);
        assert forall|k: int| 0 <= k <= p.len() implies #[trigger] self.node_at(q, k) == self.node_at(p, k) by {
            if k > 0 {
                assert(q[k - 1] == p[k - 1]);
            }
        }
        assert forall|k: int| 0 <= k < q.len() implies #[trigger] q[k] < self.edges.len()
            && self.edges[q[k] as int].parent == self.node_at(q, k) by {
            if k < p.len() {
                assert(q[k] == p[k]);
            } else {
                assert(self.node_at(q, k) == self.node_at(p, k));
            }
        }
        assert forall|k: int| 0 <= k < q.len() implies self.is_best_edge(
            params,
            self.node_at(q, k),
            #[trigger] q[k] as int,
        ) by {
            if k < p.len() {
                assert(q[k] == p[k]);
            }
            assert(self.node_at(q, k) == self.node_at(p, k));
        }
        assert forall|k: int| 0 <= k < q.len() - 1 implies self.edges[#[trigger] q[k] as int].child is Expanded by {
            assert(q[k] == p[k]);
        }
    }

    /// What one selection on `self` with `params` may do, returning `r` and leaving `new`.
    pub open spec fn selected(self, new: Tree, params: MctsParams, r: Selection) -> bool {
        match r {
            Selection::Expand { slot } => {
                let p = new.paths[slot as int]@;
                &&& slot == self.paths.len()
                &&& self.completed + self.pending < MAX_SIMULATIONS
                &&& self.is_greedy(params, p)
                &&& self.started(new, p)
                &&& p.len() == 0 ==> self.nodes.len() == 0 && self.pending == 0
                &&& p.len() > 0 ==> self.edges[p.last() as int].child is Unexpanded
            },
            Selection::Terminal => exists|p: Seq<usize>|
                {
                    &&& self.nodes.len() > 0
                    &&& self.completed + self.pending < MAX_SIMULATIONS
                    &&& self.is_greedy(params, p)
                    &&& self.is_full_chain(p)
                    &&& self.nodes[self.node_at(p, p.len() as int)].is_terminal()
                    &&& self.same_flight(new)
                    &&& new.completed == self.completed + 1
                    &&& self.backed_up(
                        new,
                        p,
                        result_value(
                            self.nodes[self.node_at(p, p.len() as int)].result,
                            self.nodes[self.node_at(p, p.len() as int)].to_move,
                        ),
                        result_draw(self.nodes[self.node_at(p, p.len() as int)].result),
                    )
                },
            Selection::Collision => {
                &&& new == self
                &&& self.completed + self.pending < MAX_SIMULATIONS
                &&& (self.nodes.len() == 0 && self.pending > 0) || exists|p: Seq<usize>|
                    self.is_greedy(params, p) && p.len() > 0 && self.edges[p.last() as int].child is Pending
            },
            Selection::Full => new == self && self.completed + self.pending >= MAX_SIMULATIONS,
        }
    }

    /// Walks from the root along the best edges. At an edge that no simulation
    /// has claimed, claims it and returns the path to evaluate; at a finished
    /// game, backs up its value at once; at an edge that another simulation is
    /// expanding, changes nothing.
    pub fn select(&mut self, params: &MctsParams) -> (r: Selection)
        requires
            old(self).wf(),
            params.wf(),
        ensures
            final(self).wf(),
            old(self).selected(*final(self), *params, r),
    {
        if self.completed + self.pending >= MAX_SIMULATIONS {
            return Selection::Full;
        }
        if self.nodes.len() == 0 {
            if self.pending > 0 {
                return Selection::Collision;
            }
            let slot = self.claim(Vec::new());
            return Selection::Expand { slot };
        }
        let (path, walk) = self.descend(params);
        let ghost gp = path@;
        match walk {
            Walk::Terminal => {
                let n = self.node_at_exec(&path, path.len());
                let cur = self.nodes[n];
                let (v, d) = result_value_exec(cur.result, cur.to_move);
                self.backup(&path, v, d);
                assert(old(self).is_greedy(*params, gp));
                Selection::Terminal
            },
            Walk::Pending => {
                assert(old(self).is_greedy(*params, gp) && gp.len() > 0 && old(self).edges[gp.last() as int].child is Pending);
                Selection::Collision
            },
            Walk::Unexpanded => {
                let slot = self.claim(path);
                assert(self.paths[slot as int]@ == gp);
                Selection::Expand { slot }
            },
        }
    }

    /// Follows the best edges from the root of a non-empty tree until a
    /// finished game or an edge without a child.
    fn descend(&self, params: &MctsParams) -> (r: (Vec<usize>, Walk))
        requires
            self.wf(),
            params.wf(),
            self.nodes.len() > 0,
        ensures
            self.is_greedy(*params, r.0@),
            self.is_chain(r.0@),
            match r.1 {
                Walk::Terminal => self.is_full_chain(r.0@) && self.nodes[self.node_at(
                    r.0@,
                    r.0@.len() as int,
                )].is_terminal(),
                Walk::Pending => r.0@.len() > 0 && self.edges[r.0@.last() as int].child is Pending,
                Walk::Unexpanded => r.0@.len() > 0 && self.edges[r.0@.last() as int].child is Unexpanded,
            },
    {
        let mut path: Vec<usize> = Vec::new();
        let mut node: usize = 0;
        loop
            invariant
                self.wf(),
                params.wf(),
                self.nodes.len() > 0,
                self.is_greedy(*params, path@),
                self.is_full_chain(path@),
                node == self.node_at(path@, path.len() as int),
                node < self.nodes.len(),
            decreases self.nodes.len() - node,
        {
            if self.nodes[node].result != GameResult::NonTerminal {
                return (path, Walk::Terminal);
            }
            let e = self.best_edge(params, node);
            let ghost before = path@;
            path.push(e);
            proof {
                self.lemma_greedy_push(*params, before, e as int);
                assert(path@ == before.push(e));
                assert(path@.last() == e);
            }
            match self.edges[e].child {
                Child::Expanded(c) => {
                    node = c;
                },
                Child::Pending => {
                    return (path, Walk::Pending);
                },
                Child::Unexpanded => {
                    return (path, Walk::Unexpanded);
                },
            }
        }
    }
}


/// A count over live slots is at least zero.
pub proof fn lemma_pending_nonneg(paths: Seq<Vec<usize>>, live: Seq<bool>, e: int, n: int)
    ensures
        pending_occ(paths, live, e, n) >= 0,
    decreases n,
{
    if n > 0 {
        lemma_pending_nonneg(paths, live, e, n - 1);
        lemma_occ_nonneg(paths[n - 1]@, e);
    }
}

/// An element that does not occur is counted zero times.
pub proof fn lemma_occ_absent(p: Seq<usize>, e: int)
    requires
        forall|k: int| 0 <= k < p.len() ==> p[k] != e,
    ensures
        occ(p, e) == 0,
    decreases p.len(),
{
    if p.len() > 0 {
        lemma_occ_absent(p.drop_last(), e);
    }
}

/// An edge that no live path holds has no uses.
pub proof fn lemma_pending_absent(paths: Seq<Vec<usize>>, live: Seq<bool>, e: int, n: int)
    requires
        0 <= n <= paths.len(),
        n <= live.len(),
        forall|i: int, k: int| 0 <= i < n && live[i] && 0 <= k < paths[i]@.len() ==> paths[i]@[k] != e,
    ensures
        pending_occ(paths, live, e, n) == 0,
    decreases n,
{
    if n > 0 {
        lemma_pending_absent(paths, live, e, n - 1);
        if live[n - 1] {
            lemma_occ_absent(paths[n - 1]@, e);
        }
    }
}

impl Tree {
    /// Ends the simulation of slot `slot`: its edges drop the virtual loss it held.
    fn release(&mut self, slot: usize)
        requires
            old(self).wf(),
            old(self).is_live(slot as int),
        ensures
            final(self).wf(),
            final(self).nodes@ == old(self).nodes@,
            final(self).completed == old(self).completed,
            final(self).pending == old(self).pending - 1,
            final(self).paths@ == old(self).paths@,
            final(self).live@ == old(self).live@.update(slot as int, false),
            final(self).root_to_move == old(self).root_to_move,
            final(self).edges.len() == old(self).edges.len(),
            forall|e: int|
                0 <= e < old(self).edges.len() ==> {
                    let a = old(self).edges[e];
                    let b = #[trigger] final(self).edges[e];
                    &&& b.parent == a.parent
                    &&& b.mv == a.mv
                    &&& b.prior == a.prior
                    &&& b.child == a.child
                    &&& b.virtual_loss == a.virtual_loss - occ(old(self).paths[slot as int]@, e)
                },
    {
        let ghost start = *self;
        let ghost p = self.paths[slot as int]@;
        let n = self.paths.len();
        proof {
            assert forall|e: int| 0 <= e < start.edges.len() implies start.edges[e].virtual_loss >= occ(p, e) by {
                assert(start.edges[e].virtual_loss == start.pending_uses(e));
                lemma_pending_clear(start.paths@, start.live@, e, n as int, slot as int);
                lemma_pending_nonneg(start.paths@, start.live@.update(slot as int, false), e, n as int);
            }
            assert(p.take(p.len() as int) =~= p);
        }
        let len = self.paths[slot].len();
        let mut k: usize = len;
        while k > 0
            invariant
                start.wf(),
                start.is_live(slot as int),
                p == start.paths[slot as int]@,
                p == self.paths[slot as int]@,
                len == p.len(),
                k <= len,
                n == start.paths.len(),
                forall|e: int| 0 <= e < start.edges.len() ==> start.edges[e].virtual_loss >= occ(p, e),
                self.nodes@ == start.nodes@,
                self.paths@ == start.paths@,
                self.live@ == start.live@,
                self.pending == start.pending,
                self.completed == start.completed,
                self.root_to_move == start.root_to_move,
                self.edges.len() == start.edges.len(),
                forall|e: int|
                    0 <= e < start.edges.len() ==> {
                        let a = start.edges[e];
                        let b = #[trigger] self.edges[e];
                        &&& b.parent == a.parent
                        &&& b.mv == a.mv
                        &&& b.prior == a.prior
                        &&& b.child == a.child
                        &&& b.virtual_loss == a.virtual_loss - occ(p, e) + occ(p.take(k as int), e)
                    },
            decreases k,
        {
            let e = self.paths[slot][k - 1];
            proof {
                assert(start.is_pending_path(p));
                lemma_occ_take(p, e as int, k - 1);
                lemma_occ_nonneg(p.take(k - 1), e as int);
                assert forall|f: int| 0 <= f < start.edges.len() && f != e implies occ(p.take(k - 1), f)
                    == occ(p.take(k as int), f) by {
                    lemma_occ_take(p, f, k - 1);
                }
            }
            let mut ed = self.edges[e];
            ed.virtual_loss = ed.virtual_loss - 1;
            self.edges.set(e, ed);
            k = k - 1;
        }
        proof {
            lemma_pending_clear(start.paths@, start.live@, 0, n as int, slot as int);
            lemma_live_count_bound(start.live@.update(slot as int, false), n as int);
        }
        self.live.set(slot, false);
        self.pending = self.pending - 1;
        proof {
            assert(p.take(0) =~= Seq::<usize>::empty());
            lemma_pending_clear(start.paths@, start.live@, 0, n as int, slot as int);
            assert forall|e: int| 0 <= e < self.edges.len() implies self.edges[e].virtual_loss
                == self.pending_uses(e) by {
                lemma_pending_clear(start.paths@, start.live@, e, n as int, slot as int);
                assert(start.edges[e].virtual_loss == start.pending_uses(e));
                assert(self.edges[e].virtual_loss == start.edges[e].virtual_loss - occ(p, e) + occ(p.take(0), e));
                assert(occ(p.take(0), e) == 0);
                assert(self.live@ == start.live@.update(slot as int, false));
                assert(self.paths.len() == n);
            }
            assert forall|i: int| #[trigger] self.is_live(i) implies self.is_pending_path(self.paths[i]@) by {
                assert(start.is_live(i));
                start.lemma_agree_on(*self, self.paths[i]@);
            }
            assert forall|i: int, j: int|
                #[trigger] self.is_live(i) && #[trigger] self.is_live(j) && i != j implies self.paths[i]@.len()
                    > 0 && self.paths[i]@.last() != self.paths[j]@.last() by {
                assert(start.is_live(i) && start.is_live(j));
            }
            assert(self.wf_shape());
            assert(self.wf_flight());
        }
    }
}


impl LeafEval {
    /// One prior per move, each at most `PRIOR_ONE`; moves exactly when the game goes on;
    /// value and draw probability in range.
    pub open spec fn wf(&self) -> bool {
        &&& self.moves.len() == self.priors.len()
        &&& forall|i: int| 0 <= i < self.priors.len() ==> self.priors[i] <= PRIOR_ONE
        &&& (self.result is NonTerminal) == (self.moves.len() > 0)
        &&& self.value <= VALUE_MAX
        &&& self.draw <= PROB_ONE
    }

    /// The value that the leaf backs up: the evaluation, or the fixed value of a finished game.
    pub open spec fn leaf_value(&self) -> int {
        if self.result is NonTerminal {
            self.value as int
        } else {
            result_value(self.result, self.to_move)
        }
    }

    /// The draw probability that the leaf backs up.
    pub open spec fn leaf_draw(&self) -> int {
        if self.result is NonTerminal {
            self.draw as int
        } else {
            result_draw(self.result)
        }
    }
}

/// The node that an evaluation creates, before its first visit is counted.
pub open spec fn fresh_node(eval: LeafEval, first_edge: int) -> Node {
    Node {
        visits: 0,
        value_sum: 0,
        draw_sum: 0,
        to_move: eval.to_move,
        result: eval.result,
        first_edge: first_edge as usize,
        num_edges: eval.moves.len(),
    }
}

/// The edge of a new node for its `i`-th move.
pub open spec fn fresh_edge(eval: LeafEval, key: int, i: int) -> Edge {
    Edge {
        parent: key as usize,
        mv: eval.moves[i],
        prior: eval.priors[i],
        virtual_loss: 0,
        child: Child::Unexpanded,
    }
}

impl Tree {
    /// Creates the node that the evaluation `eval` of the leaf of `path` describes,
    /// with one edge per move, and hangs it under the last edge of `path`.
    #[verifier::rlimit(80)]
    fn attach(&mut self, path: &Vec<usize>, eval: &LeafEval) -> (key: usize)
        requires
            old(self).wf(),
            eval.wf(),
            old(self).is_chain(path@),
            (path.len() == 0) == (old(self).nodes.len() == 0),
            path.len() > 0 ==> old(self).edges[path@.last() as int].child is Pending,
            forall|i: int|
                #[trigger] old(self).is_live(i) ==> path.len() > 0 && old(self).paths[i]@.last()
                    != path@.last(),
            old(self).nodes.len() < usize::MAX,
            old(self).edges.len() + eval.moves.len() <= usize::MAX,
        ensures
            final(self).wf(),
            key == old(self).nodes.len(),
            final(self).nodes@ == old(self).nodes@.push(fresh_node(*eval, old(self).edges.len() as int)),
            final(self).edges.len() == old(self).edges.len() + eval.moves.len(),
            forall|i: int|
                0 <= i < eval.moves.len() ==> #[trigger] final(self).edges[old(self).edges.len() + i]
                    == fresh_edge(*eval, key as int, i),
            forall|e: int|
                0 <= e < old(self).edges.len() ==> #[trigger] final(self).edges[e] == if path.len() > 0
                    && e == path@.last() {
                    Edge { child: Child::Expanded(key), ..old(self).edges[e] }
                } else {
                    old(self).edges[e]
                },
            final(self).paths@ == old(self).paths@,
            final(self).live@ == old(self).live@,
            final(self).pending == old(self).pending,
            final(self).completed == old(self).completed,
            final(self).root_to_move == old(self).root_to_move,
            final(self).is_full_chain(path@),
            final(self).node_at(path@, path.len() as int) == key,
    {
        let ghost start = *self;
        let key = self.nodes.len();
        let first = self.edges.len();
        let m = eval.moves.len();
        let mut i: usize = 0;
        while i < m
            invariant
                start.wf(),
                eval.wf(),
                m == eval.moves.len(),
                key == start.nodes.len(),
                first == start.edges.len(),
                first + m <= usize::MAX,
                i <= m,
                self.edges.len() == first + i,
                forall|e: int| 0 <= e < first ==> #[trigger] self.edges[e] == start.edges[e],
                forall|j: int| 0 <= j < i ==> #[trigger] self.edges[first + j] == fresh_edge(*eval, key as int, j),
                self.nodes@ == start.nodes@,
                self.paths@ == start.paths@,
                self.live@ == start.live@,
                self.pending == start.pending,
                self.completed == start.completed,
                self.root_to_move == start.root_to_move,
            decreases m - i,
        {
            self.edges.push(
                Edge {
                    parent: key,
                    mv: eval.moves[i],
                    prior: eval.priors[i],
                    virtual_loss: 0,
                    child: Child::Unexpanded,
                },
            );
            i = i + 1;
        }
        self.nodes.push(
            Node {
                visits: 0,
                value_sum: 0,
                draw_sum: 0,
                to_move: eval.to_move,
                result: eval.result,
                first_edge: first,
                num_edges: m,
            },
        );
        let len = path.len();
        if len > 0 {
            let last = path[len - 1];
            let mut ed = self.edges[last];
            ed.child = Child::Expanded(key);
            self.edges.set(last, ed);
        }
        proof {
            let p = path@;
            assert forall|e: int|
                0 <= e < start.edges.len() implies #[trigger] self.edges[e] == if p.len() > 0 && e
                    == p.last() {
                    Edge { child: Child::Expanded(key), ..start.edges[e] }
                } else {
                    start.edges[e]
                } by {}
            assert forall|j: int| 0 <= j < m implies #[trigger] self.edges[first + j] == fresh_edge(
                *eval,
                key as int,
                j,
            ) by {
                if len > 0 {
                    assert(p.last() < first);
                }
            }
            // the shape
            assert forall|n: int| 0 <= n < self.nodes.len() implies self.nodes[n].first_edge
                + self.nodes[n].num_edges <= self.edges.len() by {}
            assert forall|n: int, e: int|
                0 <= n < self.nodes.len() && owns(self.nodes[n], e) implies self.edges[e].parent == n by {
                if n < key {
                    assert(self.nodes[n] == start.nodes[n]);
                    assert(self.edges[e].parent == start.edges[e].parent);
                } else {
                    assert(self.edges[first + (e - first)] == fresh_edge(*eval, key as int, e - first));
                }
            }
            assert forall|e: int| 0 <= e < self.edges.len() implies self.edges[e].parent < self.nodes.len()
                && owns(self.nodes[self.edges[e].parent as int], e) by {
                if e < first {
                    assert(self.edges[e].parent == start.edges[e].parent);
                    assert(self.nodes[start.edges[e].parent as int] == start.nodes[start.edges[e].parent as int]);
                } else {
                    assert(self.edges[first + (e - first)] == fresh_edge(*eval, key as int, e - first));
                }
            }
            assert forall|e: int|
                0 <= e < self.edges.len() && (#[trigger] self.edges[e]).child is Expanded implies self.edges[e].parent
                < child_key(self.edges[e].child) < self.nodes.len() by {
                if e >= first {
                    assert(self.edges[first + (e - first)] == fresh_edge(*eval, key as int, e - first));
                } else if len > 0 && e == p.last() {
                    assert(start.edges[e].parent < start.nodes.len());
                } else {
                    assert(self.edges[e] == start.edges[e]);
                }
            }
            assert forall|e: int| 0 <= e < self.edges.len() implies self.edges[e].prior <= PRIOR_ONE by {
                if e >= first {
                    assert(self.edges[first + (e - first)] == fresh_edge(*eval, key as int, e - first));
                }
            }
            assert(self.wf_shape());
            // the statistics
            assert forall|m: int| 0 <= m < self.nodes.len() && (#[trigger] self.nodes[m]).is_terminal() implies
                self.nodes[m].value_sum == self.nodes[m].visits * result_value(self.nodes[m].result, self.nodes[m].to_move)
                && self.nodes[m].draw_sum == self.nodes[m].visits * result_draw(self.nodes[m].result) by {
                if m < key {
                    assert(self.nodes[m] == start.nodes[m]);
                } else {
                    assert(self.nodes[m].visits == 0);
                }
            }
            assert(self.wf_stats());
            // the flight
            assert forall|i: int| #[trigger] self.is_live(i) implies self.is_pending_path(self.paths[i]@) by {
                assert(start.is_live(i));
                let q = start.paths[i]@;
                assert(start.is_pending_path(q));
                assert forall|k: int| 0 <= k < q.len() implies q[k] != p.last() by {
                    if k < q.len() - 1 {
                        assert(start.edges[q[k] as int].child is Expanded);
                    }
                }
                start.lemma_agree_on(*self, q);
                assert(q.len() > 0);
            }
            assert forall|i: int, j: int|
                #[trigger] self.is_live(i) && #[trigger] self.is_live(j) && i != j implies self.paths[i]@.len()
                    > 0 && self.paths[i]@.last() != self.paths[j]@.last() by {
                assert(start.is_live(i) && start.is_live(j));
            }
            assert forall|e: int| 0 <= e < self.edges.len() implies self.edges[e].virtual_loss
                == self.pending_uses(e) by {
                if e < first {
                    assert(start.edges[e].virtual_loss == start.pending_uses(e));
                } else {
                    assert(self.edges[first + (e - first)] == fresh_edge(*eval, key as int, e - first));
                    assert forall|i: int, k: int|
                        0 <= i < self.paths.len() && self.live@[i] && 0 <= k < self.paths@[i]@.len()
                            implies self.paths@[i]@[k] != e by {
                        assert(start.is_live(i));
                        assert(start.is_pending_path(start.paths[i]@));
                    }
                    lemma_pending_absent(self.paths@, self.live@, e, self.paths.len() as int);
                }
            }
            assert(self.wf_flight());
            // the path
            assert forall|k: int| 0 <= k <= p.len() implies #[trigger] self.node_at(p, k) == if k
                == p.len() && p.len() > 0 {
                key as int
            } else {
                start.node_at(p, k)
            } by {
                if k > 0 && k < p.len() {
                    assert(p[k - 1] != p.last()) by {
                        assert(start.edges[p[k - 1] as int].child is Expanded);
                    }
                }
            }
            assert(self.is_chain(p));
        }
        key
    }
}


impl LeafEval {
    /// The value and draw probability that the leaf backs up, computed.
    pub fn backed_values(&self) -> (r: (u64, u64))
        requires
            self.wf(),
        ensures
            r.0 == self.leaf_value(),
            r.1 == self.leaf_draw(),
            r.0 <= VALUE_MAX,
            r.1 <= PROB_ONE,
    {
        match self.result {
            GameResult::NonTerminal => (self.value, self.draw as u64),
            _ => result_value_exec(self.result, self.to_move),
        }
    }
}

impl Tree {
    /// `new` is `self` after the simulation of slot `slot` completed with the
    /// evaluation `eval`, which became node `key`: the slot's virtual loss is
    /// gone, the claimed edge leads to the new node, and every node on the path
    /// gained one visit with the leaf's value, alternating at each ply.
    pub open spec fn completed_with(self, new: Tree, slot: int, eval: LeafEval, key: int) -> bool {
        let p = self.paths[slot]@;
        let v = eval.leaf_value();
        let d = eval.leaf_draw();
        &&& key == self.nodes.len()
        &&& new.nodes.len() == self.nodes.len() + 1
        &&& new.completed == self.completed + 1
        &&& new.pending == self.pending - 1
        &&& new.paths@ == self.paths@
        &&& new.live@ == self.live@.update(slot, false)
        &&& new.root_to_move == self.root_to_move
        &&& new.edges.len() == self.edges.len() + eval.moves.len()
        &&& forall|i: int|
            0 <= i < eval.moves.len() ==> #[trigger] new.edges[self.edges.len() + i] == fresh_edge(
                eval,
                key,
                i,
            )
        &&& forall|e: int|
            0 <= e < self.edges.len() ==> #[trigger] new.edges[e] == Edge {
                virtual_loss: (self.edges[e].virtual_loss - occ(p, e)) as u64,
                child: if p.len() > 0 && e == p.last() {
                    Child::Expanded(key as usize)
                } else {
                    self.edges[e].child
                },
                ..self.edges[e]
            }
        &&& bumped(fresh_node(eval, self.edges.len() as int), new.nodes[key], v, d)
        &&& forall|k: int|
            0 <= k < p.len() ==> bumped(
                self.nodes[self.node_at(p, k)],
                new.nodes[#[trigger] self.node_at(p, k)],
                value_at(v, p.len() - k),
                d,
            )
        &&& forall|m: int|
            0 <= m < self.nodes.len() && (forall|k: int| 0 <= k < p.len() ==> m != self.node_at(p, k))
                ==> new.nodes[m] == self.nodes[m]
    }

    /// A copy of the path of slot `slot`.
    fn copy_path(&self, slot: usize) -> (r: Vec<usize>)
        requires
            slot < self.paths.len(),
        ensures
            r@ == self.paths[slot as int]@,
    {
        let src = &self.paths[slot];
        let mut r: Vec<usize> = Vec::new();
        let mut i: usize = 0;
        while i < src.len()
            invariant
                src == &self.paths[slot as int],
                i <= src.len(),
                r@ == src@.take(i as int),
            decreases src.len() - i,
        {
            r.push(src[i]);
            i = i + 1;
            assert(r@ =~= src@.take(i as int));
        }
        assert(src@.take(i as int) =~= src@);
        r
    }

    /// Gives up the simulation of slot `slot`, whose evaluation failed: its
    /// virtual loss is released and its claimed edge is free again.
    pub fn abandon(&mut self, slot: usize)
        requires
            old(self).wf(),
            old(self).is_live(slot as int),
        ensures
            final(self).wf(),
            final(self).nodes@ == old(self).nodes@,
            final(self).completed == old(self).completed,
            final(self).pending == old(self).pending - 1,
            final(self).paths@ == old(self).paths@,
            final(self).live@ == old(self).live@.update(slot as int, false),
            final(self).edges.len() == old(self).edges.len(),
            forall|e: int|
                0 <= e < old(self).edges.len() ==> #[trigger] final(self).edges[e] == (Edge {
                    virtual_loss: (old(self).edges[e].virtual_loss - occ(old(self).paths[slot as int]@, e)) as u64,
                    child: if old(self).paths[slot as int]@.len() > 0 && e == old(self).paths[slot as int]@.last() {
                        Child::Unexpanded
                    } else {
                        old(self).edges[e].child
                    },
                    ..old(self).edges[e]
                }),
    {
        let ghost start = *self;
        let path = self.copy_path(slot);
        let ghost p = path@;
        proof {
            assert(start.is_pending_path(p));
        }
        self.release(slot);
        let ghost released = *self;
        if path.len() > 0 {
            let last = path[path.len() - 1];
            let mut ed = self.edges[last];
            ed.child = Child::Unexpanded;
            self.edges.set(last, ed);
        }
        proof {
            assert forall|i: int| #[trigger] self.is_live(i) implies self.is_pending_path(self.paths[i]@) by {
                assert(released.is_live(i));
                assert(start.is_live(i) && i != slot);
                let q = start.paths[i]@;
                assert(released.is_pending_path(q));
                assert(q.len() > 0 && q.last() != p.last());
                assert forall|k: int| 0 <= k < q.len() implies q[k] != p.last() by {
                    if k < q.len() - 1 {
                        assert(released.edges[q[k] as int].child is Expanded);
                    }
                }
                released.lemma_agree_on(*self, q);
            }
            assert forall|i: int, j: int|
                #[trigger] self.is_live(i) && #[trigger] self.is_live(j) && i != j implies self.paths[i]@.len()
                    > 0 && self.paths[i]@.last() != self.paths[j]@.last() by {
                assert(released.is_live(i) && released.is_live(j));
            }
            assert forall|e: int| 0 <= e < self.edges.len() implies self.edges[e].virtual_loss
                == self.pending_uses(e) by {
                assert(released.edges[e].virtual_loss == released.pending_uses(e));
            }
            assert forall|e: int|
                0 <= e < self.edges.len() && (#[trigger] self.edges[e]).child is Expanded implies self.edges[e].parent
                < child_key(self.edges[e].child) < self.nodes.len() by {
                assert(released.edges[e].child is Expanded);
            }
            assert(self.wf_shape());
            assert(self.wf_flight());
        }
    }

    /// Completes the simulation of slot `slot` with the evaluation `eval` of the
    /// position it reached: creates that node and backs up its value to the root.
    #[verifier::rlimit(40)]
    pub fn complete(&mut self, slot: usize, eval: &LeafEval) -> (key: usize)
        requires
            old(self).wf(),
            old(self).is_live(slot as int),
            eval.wf(),
            old(self).nodes.len() < usize::MAX,
            old(self).edges.len() + eval.moves.len() <= usize::MAX,
        ensures
            final(self).wf(),
            old(self).completed_with(*final(self), slot as int, *eval, key as int),
    {
        let ghost start = *self;
        let path = self.copy_path(slot);
        let ghost p = path@;
        proof {
            assert(start.is_pending_path(p));
            assert forall|i: int| #[trigger] start.is_live(i) && i != slot implies p.len() > 0
                && start.paths[i]@.last() != p.last() by {
                assert(start.is_live(slot as int));
            }
        }
        self.release(slot);
        let ghost released = *self;
        proof {
            start.lemma_agree_on(released, p);
            assert forall|i: int| #[trigger] released.is_live(i) implies p.len() > 0
                && released.paths[i]@.last() != p.last() by {
                assert(start.is_live(i) && i != slot);
            }
        }
        let key = self.attach(&path, eval);
        let ghost attached = *self;
        let (v, d) = eval.backed_values();
        proof {
            lemma_pending_clear(start.paths@, start.live@, 0, start.paths.len() as int, slot as int);
            lemma_live_count_bound(start.live@.update(slot as int, false), start.paths.len() as int);
        }
        self.backup(&path, v, d);
        proof {
            assert forall|k: int| 0 <= k < p.len() implies #[trigger] attached.node_at(p, k) == start.node_at(p, k) by {
                if k > 0 {
                    assert(p[k - 1] != p.last()) by {
                        assert(start.edges[p[k - 1] as int].child is Expanded);
                    }
                    assert(attached.edges[p[k - 1] as int] == released.edges[p[k - 1] as int]);
                }
            }
            start.lemma_chain_rises(p);
            assert forall|k: int| 0 <= k < p.len() implies 0 <= #[trigger] start.node_at(p, k) < start.nodes.len() by {
                if k > 0 {
                    assert(start.edges[p[k - 1] as int].child is Expanded);
                }
            }
            assert(bumped(
                attached.nodes[attached.node_at(p, p.len() as int)],
                self.nodes[attached.node_at(p, p.len() as int)],
                value_at(v as int, p.len() - p.len()),
                d as int,
            ));
            assert forall|k: int|
                0 <= k < p.len() implies bumped(
                start.nodes[start.node_at(p, k)],
                self.nodes[#[trigger] start.node_at(p, k)],
                value_at(v as int, p.len() - k),
                d as int,
            ) by {
                assert(attached.node_at(p, k) == start.node_at(p, k));
                assert(bumped(
                    attached.nodes[attached.node_at(p, k)],
                    self.nodes[attached.node_at(p, k)],
                    value_at(v as int, p.len() - k),
                    d as int,
                ));
            }
            assert forall|m: int|
                0 <= m < start.nodes.len() && (forall|k: int| 0 <= k < p.len() ==> m != start.node_at(p, k))
                    implies self.nodes[m] == start.nodes[m] by {
                assert forall|k: int| 0 <= k <= p.len() implies m != attached.node_at(p, k) by {
                    if k < p.len() {
                        assert(attached.node_at(p, k) == start.node_at(p, k));
                    }
                }
            }
            assert forall|e: int| 0 <= e < start.edges.len() implies #[trigger] self.edges[e] == Edge {
                virtual_loss: (start.edges[e].virtual_loss - occ(p, e)) as u64,
                child: if p.len() > 0 && e == p.last() {
                    Child::Expanded(key)
                } else {
                    start.edges[e].child
                },
                ..start.edges[e]
            } by {
                assert(self.edges[e] == attached.edges[e]);
                assert(released.edges[e].virtual_loss == start.edges[e].virtual_loss - occ(p, e));
            }
            assert forall|i: int| 0 <= i < eval.moves.len() implies #[trigger] self.edges[start.edges.len() + i]
                == fresh_edge(*eval, key as int, i) by {
                assert(self.edges[start.edges.len() + i] == attached.edges[start.edges.len() + i]);
            }
        }
        key
    }
}


/// The play order of an edge: visits, then value.
pub open spec fn play_lt(a: (int, int), b: (int, int)) -> bool {
    a.0 < b.0 || (a.0 == b.0 && a.1 < b.1)
}

impl Tree {
    /// The value of edge `e` for choosing the move to play: the child's value from
    /// the parent's perspective once it has visits, else `0`.
    pub open spec fn play_q(self, e: int) -> int {
        match self.edges[e].child {
            Child::Expanded(c) => if self.nodes[c as int].visits > 0 {
                VALUE_MAX - self.nodes[c as int].q()
            } else {
                0
            },
            _ => 0,
        }
    }

    /// The key by which the move to play is chosen.
    pub open spec fn play_key(self, e: int) -> (int, int) {
        (self.edge_visits(e), self.play_q(e))
    }

    /// `e` is the root edge to play: most visits, ties broken by the higher value,
    /// then by the edge order, which is the expansion's policy order.
    pub open spec fn is_play_choice(self, e: int) -> bool {
        self.nodes.len() > 0 && self.is_play_choice_at(0, e)
    }

    /// `e` is the edge to play from node `n`, by the same order.
    pub open spec fn is_play_choice_at(self, n: int, e: int) -> bool {
        &&& owns(self.nodes[n], e)
        &&& forall|f: int| owns(self.nodes[n], f) ==> !play_lt(self.play_key(e), self.play_key(f))
        &&& forall|f: int| owns(self.nodes[n], f) && f < e ==> play_lt(self.play_key(f), self.play_key(e))
    }

    fn play_key_exec(&self, e: usize) -> (r: (u64, u64))
        requires
            self.wf(),
            e < self.edges.len(),
        ensures
            r.0 == self.play_key(e as int).0,
            r.1 == self.play_key(e as int).1,
    {
        let edge = self.edges[e];
        match edge.child {
            Child::Expanded(c) => {
                let visits = self.nodes[c].visits;
                let q = if visits > 0 {
                    VALUE_MAX - self.node_q(c)
                } else {
                    0
                };
                (visits, q)
            },
            _ => (0, 0),
        }
    }

    /// The root edge to play, or `None` when the root does not exist yet or the
    /// game is over there.
    pub fn best_move_edge(&self) -> (r: Option<usize>)
        requires
            self.wf(),
        ensures
            r is None <==> (self.nodes.len() == 0 || self.nodes[0].is_terminal()),
            r matches Some(e) ==> self.is_play_choice(e as int),
    {
        if self.nodes.len() == 0 {
            return None;
        }
        self.play_edge_at(0)
    }

    /// The edge to play from node `n`, or `None` when the game is over there.
    pub fn play_edge_at(&self, n: usize) -> (r: Option<usize>)
        requires
            self.wf(),
            n < self.nodes.len(),
        ensures
            r is None <==> self.nodes[n as int].is_terminal(),
            r matches Some(e) ==> self.is_play_choice_at(n as int, e as int) && e < self.edges.len(),
    {
        let node = self.nodes[n];
        if node.num_edges == 0 {
            return None;
        }
        let first = node.first_edge;
        let end = first + node.num_edges;
        let mut best = first;
        let mut best_key = self.play_key_exec(first);
        let mut e = first + 1;
        while e < end
            invariant
                self.wf(),
                n < self.nodes.len(),
                node == self.nodes[n as int],
                first == node.first_edge,
                end == first + node.num_edges,
                end <= self.edges.len(),
                first <= best < e <= end,
                best_key.0 == self.play_key(best as int).0,
                best_key.1 == self.play_key(best as int).1,
                forall|f: int| first <= f < e ==> !play_lt(self.play_key(best as int), self.play_key(f)),
                forall|f: int| first <= f < best ==> play_lt(self.play_key(f), self.play_key(best as int)),
            decreases end - e,
        {
            let k = self.play_key_exec(e);
            if k.0 > best_key.0 || (k.0 == best_key.0 && k.1 > best_key.1) {
                best = e;
                best_key = k;
            }
            e = e + 1;
        }
        Some(best)
    }

    /// The simulations completed in the tree are the root's visits.
    pub proof fn lemma_root_visits(self)
        requires
            self.wf(),
            self.nodes.len() > 0,
        ensures
            self.nodes[0].visits == self.completed,
    {
    }

    /// An edge into a visited position where the side to move has lost carries
    /// the highest value there is: a win for the side that played it, which no
    /// edge's value exceeds.
    pub proof fn lemma_mating_edge_value(self, params: MctsParams, e: int)
        requires
            self.wf(),
            params.wf(),
            0 <= e < self.edges.len(),
            self.edges[e].child is Expanded,
            ({
                let c = self.nodes[child_key(self.edges[e].child)];
                &&& c.visits > 0
                &&& c.result matches GameResult::Decisive { winner } && winner != c.to_move
            }),
        ensures
            self.edge_q(params, e) == VALUE_MAX,
            forall|f: int| 0 <= f < self.edges.len() ==> self.edge_q(params, f) <= VALUE_MAX,
    {
        let c = child_key(self.edges[e].child);
        let node = self.nodes[c];
        assert(node.is_terminal());
        assert(result_value(node.result, node.to_move) == 0);
        assert(node.value_sum == 0) by (nonlinear_arith)
            requires
                node.value_sum == node.visits * 0,
        ;
        assert(node.q() == 0);
        assert forall|f: int| 0 <= f < self.edges.len() implies self.edge_q(params, f) <= VALUE_MAX by {
            let p = self.edges[f].parent as int;
            let pn = self.nodes[p];
            if pn.visits > 0 {
                assert(pn.value_sum / pn.visits <= VALUE_MAX) by (nonlinear_arith)
                    requires
                        pn.value_sum <= pn.visits * VALUE_MAX,
                        pn.visits >= 1,
                ;
            }
            match self.edges[f].child {
                Child::Expanded(k) => {
                    let kn = self.nodes[k as int];
                    if kn.visits > 0 {
                        assert(kn.value_sum / kn.visits >= 0) by (nonlinear_arith)
                            requires
                                kn.visits >= 1,
                        ;
                    }
                },
                _ => {},
            }
        }
    }

    /// A tree that counts a simulation has a root, and the root counts them all.
    pub proof fn lemma_root_visits_if_any(self)
        requires
            self.wf(),
            self.nodes.len() > 0 || self.completed > 0 || self.completed + self.pending >= MAX_SIMULATIONS,
            self.pending == 0,
        ensures
            self.nodes.len() > 0,
            self.nodes[0].visits == self.completed,
    {
    }

    /// With no simulation in flight, no edge carries virtual loss.
    pub proof fn lemma_no_virtual_loss_at_rest(self)
        requires
            self.wf(),
            self.pending == 0,
        ensures
            forall|e: int| 0 <= e < self.edges.len() ==> self.edges[e].virtual_loss == 0,
    {
        assert forall|e: int| 0 <= e < self.edges.len() implies self.edges[e].virtual_loss == 0 by {
            self.lemma_virtual_loss_bound(e);
        }
    }

    /// A selection that asks for an evaluation never asks it of a node that
    /// exists, terminal or not: every node on its path goes on, and its last
    /// edge had no child.
    pub proof fn lemma_expand_skips_terminal(self, new: Tree, params: MctsParams, r: Selection)
        requires
            self.wf(),
            self.selected(new, params, r),
            r is Expand,
        ensures
            ({
                let p = new.paths[r->slot as int]@;
                &&& forall|k: int| 0 <= k < p.len() ==> !self.nodes[#[trigger] self.node_at(p, k)].is_terminal()
                &&& p.len() > 0 ==> self.edges[p.last() as int].child is Unexpanded
                &&& p.len() == 0 ==> self.nodes.len() == 0
            }),
    {
        let p = new.paths[r->slot as int]@;
        assert forall|k: int| 0 <= k < p.len() implies !self.nodes[#[trigger] self.node_at(p, k)].is_terminal() by {
            reveal(Tree::is_best_edge);
            assert(self.is_best_edge(params, self.node_at(p, k), p[k] as int));
            assert(owns(self.nodes[self.node_at(p, k)], p[k] as int));
            assert(p[k] < self.edges.len());
        }
    }

    /// Two simulations never claim the same edge: after one selection claimed an
    /// edge, a second selection on the tree it left does not claim it again.
    pub proof fn lemma_single_flight(
        t0: Tree,
        t1: Tree,
        t2: Tree,
        params: MctsParams,
        r1: Selection,
        r2: Selection,
    )
        requires
            t0.wf(),
            t0.selected(t1, params, r1),
            t1.wf(),
            t1.selected(t2, params, r2),
            r1 is Expand,
            r2 is Expand,
        ensures
            t1.paths[r1->slot as int]@.len() > 0 ==> t2.paths[r2->slot as int]@.last() != t1.paths[r1->slot as int]@.last(),
            t1.paths[r1->slot as int]@.len() == 0 ==> t2.paths[r2->slot as int]@.len() > 0,
    {
        let p1 = t1.paths[r1->slot as int]@;
        let p2 = t2.paths[r2->slot as int]@;
        if p1.len() > 0 {
            assert(t1.edges[p1.last() as int].child is Pending);
            if p2.len() > 0 {
                assert(t1.edges[p2.last() as int].child is Unexpanded);
            } else {
                assert(t1.nodes.len() == t0.nodes.len());
            }
        } else {
            assert(t1.pending == t0.pending + 1);
        }
    }
}


impl Tree {
    /// The two trees hold the same nodes, edges, slots and counters.
    pub open spec fn same_state(self, other: Tree) -> bool {
        &&& self.nodes@ == other.nodes@
        &&& self.edges@ == other.edges@
        &&& self.live@ == other.live@
        &&& self.paths.len() == other.paths.len()
        &&& forall|i: int| 0 <= i < self.paths.len() ==> #[trigger] self.paths[i]@ == other.paths[i]@
        &&& self.pending == other.pending
        &&& self.completed == other.completed
        &&& self.root_to_move == other.root_to_move
    }

    /// A node has one best edge.
    pub proof fn lemma_best_edge_unique(self, params: MctsParams, n: int, e1: int, e2: int)
        requires
            self.is_best_edge(params, n, e1),
            self.is_best_edge(params, n, e2),
        ensures
            e1 == e2,
    {
        reveal(Tree::is_best_edge);
        if e1 < e2 {
            assert(frac_lt(self.edge_score(params, e1), self.edge_score(params, e2)));
            assert(frac_le(self.edge_score(params, e2), self.edge_score(params, e1)));
        } else if e2 < e1 {
            assert(frac_lt(self.edge_score(params, e2), self.edge_score(params, e1)));
            assert(frac_le(self.edge_score(params, e1), self.edge_score(params, e2)));
        }
    }

    /// Two greedy chains agree on their common length.
    pub proof fn lemma_greedy_agree(self, params: MctsParams, p: Seq<usize>, q: Seq<usize>, k: int)
        requires
            self.is_greedy(params, p),
            self.is_greedy(params, q),
            0 <= k <= p.len(),
            k <= q.len(),
        ensures
            forall|j: int| 0 <= j < k ==> p[j] == q[j],
        decreases k,
    {
        if k > 0 {
            self.lemma_greedy_agree(params, p, q, k - 1);
            assert(self.node_at(p, k - 1) == self.node_at(q, k - 1)) by {
                if k - 1 > 0 {
                    assert(p[k - 2] == q[k - 2]);
                }
            }
            self.lemma_best_edge_unique(params, self.node_at(p, k - 1), p[k - 1] as int, q[k - 1] as int);
        }
    }

    /// Where a greedy walk from the root may end: at a finished game after
    /// expanded edges, or at an edge without a child.
    pub open spec fn walk_ends(self, p: Seq<usize>) -> bool {
        ||| (self.is_full_chain(p) && self.nodes[self.node_at(p, p.len() as int)].is_terminal())
        ||| (p.len() > 0 && !(self.edges[p.last() as int].child is Expanded))
    }

    /// There is one greedy walk that ends.
    pub proof fn lemma_walk_unique(self, params: MctsParams, p: Seq<usize>, q: Seq<usize>)
        requires
            self.wf(),
            self.nodes.len() > 0,
            self.is_greedy(params, p),
            self.is_greedy(params, q),
            self.walk_ends(p),
            self.walk_ends(q),
        ensures
            p == q,
    {
        let m = if p.len() <= q.len() {
            p.len() as int
        } else {
            q.len() as int
        };
        self.lemma_greedy_agree(params, p, q, m);
        if p.len() < q.len() {
            self.lemma_stops_early(params, p, q);
        } else if q.len() < p.len() {
            self.lemma_stops_early(params, q, p);
        }
        assert(p =~= q);
    }

    /// A greedy walk that ends is not a proper prefix of another greedy walk.
    proof fn lemma_stops_early(self, params: MctsParams, p: Seq<usize>, q: Seq<usize>)
        requires
            self.wf(),
            self.nodes.len() > 0,
            self.is_greedy(params, p),
            self.is_greedy(params, q),
            self.walk_ends(p),
            p.len() <= q.len(),
            forall|j: int| 0 <= j < p.len() ==> p[j] == q[j],
        ensures
            p.len() == q.len(),
    {
        if p.len() == q.len() {
            return;
        }
        let k = p.len() as int;
        assert(self.node_at(p, k) == self.node_at(q, k)) by {
            if k > 0 {
                assert(p[k - 1] == q[k - 1]);
            }
        }
        if p.len() > 0 && !(self.edges[p.last() as int].child is Expanded) {
            assert(self.edges[q[k - 1] as int].child is Expanded);
        } else {
            reveal(Tree::is_best_edge);
            assert(self.is_best_edge(params, self.node_at(q, k), q[k] as int));
            assert(owns(self.nodes[self.node_at(q, k)], q[k] as int));
            assert(q[k] < self.edges.len());
            assert(0 <= self.node_at(q, k) < self.nodes.len()) by {
                if k > 0 {
                    assert(self.edges[q[k - 1] as int].child is Expanded);
                }
            }
        }
    }

    /// A selection is a function of the tree and the parameters: two selections
    /// from the same tree return the same outcome and leave the same tree.
    pub proof fn lemma_selection_deterministic(
        self,
        params: MctsParams,
        a: Tree,
        ra: Selection,
        b: Tree,
        rb: Selection,
    )
        requires
            self.wf(),
            a.wf(),
            b.wf(),
            self.selected(a, params, ra),
            self.selected(b, params, rb),
        ensures
            ra == rb,
            a.same_state(b),
    {
        if self.completed + self.pending >= MAX_SIMULATIONS {
            assert(ra is Full && rb is Full);
        } else if self.nodes.len() == 0 {
            assert(self.edges.len() == 0);
            self.lemma_empty_selection(params, a, ra);
            self.lemma_empty_selection(params, b, rb);
            if self.pending == 0 {
                assert(a.paths[self.paths.len() as int]@ =~= b.paths[self.paths.len() as int]@);
                self.lemma_started_same(a, b, a.paths[self.paths.len() as int]@);
            }
        } else {
            let pa = self.walk_of(params, a, ra);
            let pb = self.walk_of(params, b, rb);
            self.lemma_walk_unique(params, pa, pb);
            match ra {
                Selection::Expand { .. } => {
                    self.lemma_started_same(a, b, pa);
                },
                Selection::Terminal => {
                    assert(self.backed_up(a, pa, result_value(
                        self.nodes[self.node_at(pa, pa.len() as int)].result,
                        self.nodes[self.node_at(pa, pa.len() as int)].to_move,
                    ), result_draw(self.nodes[self.node_at(pa, pa.len() as int)].result)));
                    self.lemma_backed_up_same(a, b, pa);
                },
                _ => {},
            }
        }
    }

    proof fn lemma_empty_selection(self, params: MctsParams, a: Tree, ra: Selection)
        requires
            self.wf(),
            self.nodes.len() == 0,
            self.completed + self.pending < MAX_SIMULATIONS,
            self.selected(a, params, ra),
        ensures
            self.pending == 0 ==> ra == (Selection::Expand { slot: self.paths.len() }) && a.paths[self.paths.len() as int]@.len() == 0,
            self.pending > 0 ==> ra == Selection::Collision && a == self,
    {
        match ra {
            Selection::Expand { slot } => {
                let p = a.paths[slot as int]@;
                if p.len() > 0 {
                    assert(p[0] < self.edges.len());
                }
            },
            Selection::Collision => {
                if self.pending == 0 {
                    let p = choose|p: Seq<usize>|
                        self.is_greedy(params, p) && p.len() > 0 && self.edges[p.last() as int].child is Pending;
                    assert(p[0] < self.edges.len());
                }
            },
            _ => {},
        }
    }

    /// The greedy walk that a selection followed, on a non-empty tree.
    proof fn walk_of(self, params: MctsParams, a: Tree, ra: Selection) -> (p: Seq<usize>)
        requires
            self.wf(),
            self.nodes.len() > 0,
            self.completed + self.pending < MAX_SIMULATIONS,
            self.selected(a, params, ra),
        ensures
            self.is_greedy(params, p),
            self.walk_ends(p),
            ra is Expand ==> p == a.paths[ra->slot as int]@ && self.edges[p.last() as int].child is Unexpanded,
            ra is Terminal ==> self.is_full_chain(p) && self.nodes[self.node_at(p, p.len() as int)].is_terminal()
                && self.same_flight(a) && a.completed == self.completed + 1 && self.backed_up(
                a,
                p,
                result_value(
                    self.nodes[self.node_at(p, p.len() as int)].result,
                    self.nodes[self.node_at(p, p.len() as int)].to_move,
                ),
                result_draw(self.nodes[self.node_at(p, p.len() as int)].result),
            ),
            ra is Collision ==> a == self && p.len() > 0 && self.edges[p.last() as int].child is Pending,
            !(ra is Full),
    {
        match ra {
            Selection::Expand { slot } => a.paths[slot as int]@,
            Selection::Terminal => choose|p: Seq<usize>|
                {
                    &&& self.nodes.len() > 0
                    &&& self.completed + self.pending < MAX_SIMULATIONS
                    &&& self.is_greedy(params, p)
                    &&& self.is_full_chain(p)
                    &&& self.nodes[self.node_at(p, p.len() as int)].is_terminal()
                    &&& self.same_flight(a)
                    &&& a.completed == self.completed + 1
                    &&& self.backed_up(
                        a,
                        p,
                        result_value(
                            self.nodes[self.node_at(p, p.len() as int)].result,
                            self.nodes[self.node_at(p, p.len() as int)].to_move,
                        ),
                        result_draw(self.nodes[self.node_at(p, p.len() as int)].result),
                    )
                },
            _ => choose|p: Seq<usize>|
                self.is_greedy(params, p) && p.len() > 0 && self.edges[p.last() as int].child is Pending,
        }
    }

    proof fn lemma_started_same(self, a: Tree, b: Tree, p: Seq<usize>)
        requires
            self.started(a, p),
            self.started(b, p),
        ensures
            a.same_state(b),
    {
        assert(a.edges@ =~= b.edges@);
        assert forall|i: int| 0 <= i < a.paths.len() implies #[trigger] a.paths[i]@ == b.paths[i]@ by {
            if i < self.paths.len() {
                assert(a.paths[i] == self.paths[i]);
                assert(b.paths[i] == self.paths[i]);
            }
        }
    }

    proof fn lemma_backed_up_same(self, a: Tree, b: Tree, p: Seq<usize>)
        requires
            self.same_flight(a),
            self.same_flight(b),
            a.completed == b.completed,
            self.backed_up(a, p, result_value(
                self.nodes[self.node_at(p, p.len() as int)].result,
                self.nodes[self.node_at(p, p.len() as int)].to_move,
            ), result_draw(self.nodes[self.node_at(p, p.len() as int)].result)),
            self.backed_up(b, p, result_value(
                self.nodes[self.node_at(p, p.len() as int)].result,
                self.nodes[self.node_at(p, p.len() as int)].to_move,
            ), result_draw(self.nodes[self.node_at(p, p.len() as int)].result)),
        ensures
            a.same_state(b),
    {
        assert(a.nodes@ =~= b.nodes@) by {
            assert forall|m: int| 0 <= m < a.nodes.len() implies a.nodes[m] == b.nodes[m] by {
                if exists|k: int| 0 <= k <= p.len() && m == self.node_at(p, k) {
                    let k = choose|k: int| 0 <= k <= p.len() && m == self.node_at(p, k);
                    assert(bumped(self.nodes[m], a.nodes[m], value_at(result_value(
                        self.nodes[self.node_at(p, p.len() as int)].result,
                        self.nodes[self.node_at(p, p.len() as int)].to_move,
                    ), p.len() - k), result_draw(self.nodes[self.node_at(p, p.len() as int)].result)));
                    assert(bumped(self.nodes[m], b.nodes[m], value_at(result_value(
                        self.nodes[self.node_at(p, p.len() as int)].result,
                        self.nodes[self.node_at(p, p.len() as int)].to_move,
                    ), p.len() - k), result_draw(self.nodes[self.node_at(p, p.len() as int)].result)));
                }
            }
        }
    }
}


impl Tree {
    /// A completion is a function of the tree, the slot and the evaluation: two
    /// completions of the same slot with the same evaluation leave the same tree.
    pub proof fn lemma_completion_deterministic(
        self,
        slot: int,
        eval: LeafEval,
        a: Tree,
        ka: int,
        b: Tree,
        kb: int,
    )
        requires
            self.wf(),
            self.is_live(slot),
            self.completed_with(a, slot, eval, ka),
            self.completed_with(b, slot, eval, kb),
        ensures
            ka == kb,
            a.same_state(b),
    {
        self.lemma_completion_same_nodes(slot, eval, a, ka, b, kb);
        self.lemma_completion_same_edges(slot, eval, a, ka, b, kb);
    }

    proof fn lemma_completion_same_nodes(self, slot: int, eval: LeafEval, a: Tree, ka: int, b: Tree, kb: int)
        requires
            self.completed_with(a, slot, eval, ka),
            self.completed_with(b, slot, eval, kb),
        ensures
            a.nodes@ == b.nodes@,
    {
        let p = self.paths[slot]@;
        let v = eval.leaf_value();
        let d = eval.leaf_draw();
        assert forall|m: int| 0 <= m < a.nodes.len() implies a.nodes[m] == b.nodes[m] by {
            if m == self.nodes.len() {
            } else if exists|k: int| 0 <= k < p.len() && m == self.node_at(p, k) {
                let k = choose|k: int| 0 <= k < p.len() && m == self.node_at(p, k);
                assert(bumped(self.nodes[m], a.nodes[m], value_at(v, p.len() - k), d));
                assert(bumped(self.nodes[m], b.nodes[m], value_at(v, p.len() - k), d));
            }
        }
        assert(a.nodes@ =~= b.nodes@);
    }

    proof fn lemma_completion_same_edges(self, slot: int, eval: LeafEval, a: Tree, ka: int, b: Tree, kb: int)
        requires
            self.completed_with(a, slot, eval, ka),
            self.completed_with(b, slot, eval, kb),
        ensures
            a.edges@ == b.edges@,
    {
        assert forall|e: int| 0 <= e < a.edges.len() implies a.edges[e] == b.edges[e] by {
            if e >= self.edges.len() {
                assert(a.edges[self.edges.len() + (e - self.edges.len())] == fresh_edge(
                    eval,
                    ka,
                    e - self.edges.len(),
                ));
                assert(b.edges[self.edges.len() + (e - self.edges.len())] == fresh_edge(
                    eval,
                    kb,
                    e - self.edges.len(),
                ));
            }
        }
        assert(a.edges@ =~= b.edges@);
    }
}

} // verus!
