//! The search manager: the state machine that starts simulations within the
//! limits, drains them on a stop, and picks the move to play.
//!
//! The caller runs the loop. It asks [`SearchManager::step`] what to do next,
//! evaluates the leaves it is handed, and delivers each result with
//! [`SearchManager::deliver`].
use vstd::prelude::*;
use crate::chess::{legal_moves_at, Color, GameState};
use crate::puct::{MctsParams, PROB_ONE, VALUE_DRAW, VALUE_MAX};
use crate::network::{InputFormat, NetworkCapabilities};
use crate::tree::{
    lemma_live_count_bound, lemma_pending_clear, owns, Child, LeafEval, Selection, Tree, MAX_SIMULATIONS,
};

verus! {

/// What ends a search.
#[derive(Clone, Copy, Debug, PartialEq, Eq, Structural)]
pub enum SearchLimits {
    /// A budget of milliseconds.
    Time(u64),
    /// A number of simulations.
    Nodes(usize),
    /// A depth of the deepest selected path.
    Depth(usize),
    /// Only a stop ends it.
    Infinite,
}

impl Default for SearchLimits {
    fn default() -> (r: SearchLimits)
        ensures
            r == SearchLimits::Time(1000),
    {
        SearchLimits::Time(1000)
    }
}

/// Limits that can end no search: a zero node count or depth.
pub open spec fn limits_illegal(limits: SearchLimits) -> bool {
    match limits {
        SearchLimits::Nodes(n) => n == 0,
        SearchLimits::Depth(d) => d == 0,
        _ => false,
    }
}

/// Why a search refused to start.
#[derive(Clone, Copy, Debug, PartialEq, Eq, Structural)]
pub enum ConfigError {
    InvalidParams,
    IllegalLimits,
    UnsupportedInput,
}

/// The phases of one search.
#[derive(Clone, Copy, Debug, PartialEq, Eq, Structural)]
pub enum SearchState {
    Idle,
    Running,
    Stopped,
    Completed,
}

/// What the caller should do next.
#[derive(Clone, Copy, Debug, PartialEq, Eq, Structural)]
pub enum Action {
    /// Evaluate the leaf of the path in this slot and deliver the result.
    Evaluate { slot: usize },
    /// A finished game was reached and backed up; ask again.
    Continue,
    /// Deliver a result that is still out before asking again.
    Wait,
    /// The search is over; the move to play is ready.
    Finish,
}

/// Whether `limits` end a search that has started `started` simulations, after
/// `elapsed_ms` milliseconds, with its deepest path `depth` edges long.
pub open spec fn limit_reached(limits: SearchLimits, started: int, elapsed_ms: int, depth: int) -> bool {
    match limits {
        SearchLimits::Time(ms) => elapsed_ms >= ms,
        SearchLimits::Nodes(n) => started >= n,
        SearchLimits::Depth(d) => depth >= d,
        SearchLimits::Infinite => false,
    }
}

/// Whether the limits are reached, computed.
pub fn check_limits(limits: SearchLimits, started: u64, elapsed_ms: u64, depth: usize) -> (r: bool)
    ensures
        r == limit_reached(limits, started as int, elapsed_ms as int, depth as int),
{
    match limits {
        SearchLimits::Time(ms) => elapsed_ms >= ms,
        SearchLimits::Nodes(n) => started as u128 >= n as u128,
        SearchLimits::Depth(d) => depth >= d,
        SearchLimits::Infinite => false,
    }
}

/// A search: its tree, parameters, limits and phase.
pub struct SearchManager {
    pub tree: Tree,
    pub params: MctsParams,
    pub limits: SearchLimits,
    pub state: SearchState,
    /// A stop was asked for.
    pub stop_requested: bool,
    /// The search runs as ponder search until a ponderhit.
    pub pondering: bool,
    /// The length of the longest path selected so far.
    pub max_depth: usize,
    /// An evaluation failed: the search ends without retrying.
    pub failed: bool,
    /// The summed lengths of the paths selected for evaluation.
    pub depth_total: u64,
    /// The number of paths selected for evaluation.
    pub expansions: u64,
}

impl SearchManager {
    pub open spec fn wf(&self) -> bool {
        &&& self.tree.wf()
        &&& self.params.wf()
        &&& (self.state is Stopped || self.state is Completed) ==> self.tree.pending == 0
        &&& self.state is Idle ==> self.tree.nodes.len() == 0 && self.tree.pending == 0
        &&& (self.state is Stopped || self.state is Completed) ==> self.may_end()
        &&& self.state is Completed ==> !self.failed
    }

    /// `other` has the same parameters, limits, signals and depth counters.
    pub open spec fn keeps_settings(&self, other: &SearchManager) -> bool {
        &&& other.params == self.params
        &&& other.limits == self.limits
        &&& other.stop_requested == self.stop_requested
        &&& other.pondering == self.pondering
        &&& other.failed == self.failed
        &&& other.max_depth == self.max_depth
        &&& other.depth_total == self.depth_total
        &&& other.expansions == self.expansions
    }

    /// The depth counters after a path of `depth` edges was selected for evaluation.
    pub open spec fn counted_depth(&self, other: &SearchManager, depth: int) -> bool {
        &&& other.max_depth == if depth > self.max_depth {
            depth as usize
        } else {
            self.max_depth
        }
        &&& if self.expansions < u64::MAX && depth <= u64::MAX - self.depth_total {
            other.expansions == self.expansions + 1 && other.depth_total == self.depth_total + depth
        } else {
            other.expansions == self.expansions && other.depth_total == self.depth_total
        }
    }

    /// Whether the search should start no more simulations.
    pub open spec fn done(&self, elapsed_ms: int) -> bool {
        ||| self.stop_requested
        ||| (!self.pondering && limit_reached(
            self.limits,
            self.tree.completed + self.tree.pending,
            elapsed_ms,
            self.max_depth as int,
        ))
        ||| self.tree.completed + self.tree.pending >= MAX_SIMULATIONS
        ||| self.failed
    }

    /// Whether a search that is done may end: it has a root to choose from, it
    /// is full, or an evaluation failed.
    pub open spec fn may_end(&self) -> bool {
        self.tree.nodes.len() > 0 || self.tree.completed + self.tree.pending >= MAX_SIMULATIONS || self.failed
    }

    /// A search that has not started, from a position where `root_to_move` plays.
    pub fn new(params: MctsParams, limits: SearchLimits, root_to_move: Color) -> (r: SearchManager)
        requires
            params.wf(),
        ensures
            r.wf(),
            r.state == SearchState::Idle,
            r.params == params,
            r.limits == limits,
            r.tree.nodes.len() == 0,
            r.tree.root_to_move == root_to_move,
            !r.stop_requested,
            !r.pondering,
            !r.failed,
    {
        SearchManager {
            tree: Tree::new(root_to_move),
            params,
            limits,
            state: SearchState::Idle,
            stop_requested: false,
            pondering: false,
            max_depth: 0,
            failed: false,
            depth_total: 0,
            expansions: 0,
        }
    }

    /// A search checked before it starts: the parameters in range, the limits
    /// legal (no zero node count or depth), and an evaluator whose input format
    /// is known.
    pub fn configure(
        params: MctsParams,
        limits: SearchLimits,
        capabilities: NetworkCapabilities,
        root_to_move: Color,
    ) -> (r: Result<SearchManager, ConfigError>)
        ensures
            r matches Err(ConfigError::InvalidParams) <==> !params.wf(),
            r matches Err(ConfigError::IllegalLimits) <==> params.wf() && limits_illegal(limits),
            r matches Err(ConfigError::UnsupportedInput) <==> (params.wf() && !limits_illegal(limits)
                && capabilities.input_format == InputFormat::Unknown),
            r matches Ok(m) ==> m.wf() && m.state == SearchState::Idle && m.params == params && m.limits
                == limits && m.tree.nodes.len() == 0 && m.tree.root_to_move == root_to_move && !m.stop_requested
                && !m.pondering && !m.failed,
    {
        if !params.is_valid() {
            return Err(ConfigError::InvalidParams);
        }
        let illegal = match limits {
            SearchLimits::Nodes(n) => n == 0,
            SearchLimits::Depth(d) => d == 0,
            _ => false,
        };
        if illegal {
            return Err(ConfigError::IllegalLimits);
        }
        if capabilities.input_format == InputFormat::Unknown {
            return Err(ConfigError::UnsupportedInput);
        }
        Ok(SearchManager::new(params, limits, root_to_move))
    }

    /// Starts the search; as ponder search, the limits count only after a ponderhit.
    pub fn start(&mut self, ponder: bool)
        requires
            old(self).wf(),
            old(self).state == SearchState::Idle,
        ensures
            final(self).wf(),
            final(self).state == SearchState::Running,
            final(self).pondering == ponder,
            final(self).tree == old(self).tree,
            final(self).limits == old(self).limits,
            final(self).stop_requested == old(self).stop_requested,
            final(self).params == old(self).params,
            final(self).failed == old(self).failed,
            final(self).max_depth == old(self).max_depth,
            final(self).depth_total == old(self).depth_total,
            final(self).expansions == old(self).expansions,
    {
        self.state = SearchState::Running;
        self.pondering = ponder;
    }

    /// Asks the search to stop: no simulation starts after this.
    pub fn stop(&mut self)
        requires
            old(self).wf(),
        ensures
            final(self).wf(),
            final(self).stop_requested,
            final(self).state == old(self).state,
            final(self).tree == old(self).tree,
            final(self).keeps_settings(&(SearchManager { stop_requested: true, ..*old(self) })),
    {
        self.stop_requested = true;
    }

    /// The pondered move was played: the limits count from now on.
    pub fn ponderhit(&mut self, limits: SearchLimits)
        requires
            old(self).wf(),
        ensures
            final(self).wf(),
            !final(self).pondering,
            final(self).limits == limits,
            final(self).state == old(self).state,
            final(self).tree == old(self).tree,
            final(self).keeps_settings(&(SearchManager { pondering: false, limits, ..*old(self) })),
    {
        self.pondering = false;
        self.limits = limits;
    }

    /// What one step from `self`, `elapsed_ms` milliseconds into the search,
    /// does when it returns `r` and leaves `new`: it ends the search once it is
    /// done and nothing is in flight, waits while something is, and otherwise
    /// selects once.
    pub open spec fn stepped(&self, new: &SearchManager, elapsed_ms: int, r: Action) -> bool {
        let ending = self.done(elapsed_ms) && self.may_end();
        &&& new.params == self.params
        &&& new.limits == self.limits
        &&& new.stop_requested == self.stop_requested
        &&& new.pondering == self.pondering
        &&& new.failed == self.failed
        &&& !(r is Evaluate) ==> self.keeps_settings(new)
        &&& r matches Action::Evaluate { slot } ==> self.counted_depth(new, new.tree.paths[slot as int].len() as int)
        &&& match r {
            Action::Finish => {
                &&& ending
                &&& self.tree.pending == 0
                &&& new.tree == self.tree
                &&& new.state == if self.stop_requested || self.failed {
                    SearchState::Stopped
                } else {
                    SearchState::Completed
                }
            },
            Action::Wait => {
                &&& new.tree == self.tree
                &&& new.state == SearchState::Running
                &&& (ending && self.tree.pending > 0) || (!ending && self.tree.selected(
                    new.tree,
                    self.params,
                    Selection::Collision,
                ))
            },
            Action::Continue => {
                &&& !ending
                &&& new.state == SearchState::Running
                &&& self.tree.selected(new.tree, self.params, Selection::Terminal)
            },
            Action::Evaluate { slot } => {
                &&& !ending
                &&& new.state == SearchState::Running
                &&& self.tree.selected(new.tree, self.params, Selection::Expand { slot })
            },
        }
    }

    /// A step is a function of the manager and the time: two steps from the
    /// same manager at the same time return the same action and leave the same
    /// phase, settings, counters and tree contents.
    pub proof fn lemma_step_deterministic(
        &self,
        elapsed_ms: int,
        a: &SearchManager,
        ra: Action,
        b: &SearchManager,
        rb: Action,
    )
        requires
            self.wf(),
            self.state is Running,
            a.wf(),
            b.wf(),
            self.stepped(a, elapsed_ms, ra),
            self.stepped(b, elapsed_ms, rb),
        ensures
            ra == rb,
            a.state == b.state,
            a.keeps_settings(b),
            a.tree.same_state(b.tree),
    {
        let ending = self.done(elapsed_ms) && self.may_end();
        if ending {
            assert(!(ra is Continue) && !(ra is Evaluate));
            assert(!(rb is Continue) && !(rb is Evaluate));
            assert(a.tree.same_state(b.tree)) by {
                assert(a.tree == self.tree && b.tree == self.tree);
            }
        } else {
            let sa = self.selection_of(a, ra);
            let sb = self.selection_of(b, rb);
            self.tree.lemma_selection_deterministic(self.params, a.tree, sa, b.tree, sb);
            match ra {
                Action::Evaluate { slot } => {
                    assert(a.tree.paths[slot as int]@ == b.tree.paths[slot as int]@);
                },
                _ => {},
            }
        }
    }

    /// The selection that a step which did not end the search made, read off its action.
    proof fn selection_of(&self, new: &SearchManager, r: Action) -> (s: Selection)
        ensures
            r is Wait ==> s == Selection::Collision,
            r is Continue ==> s == Selection::Terminal,
            r matches Action::Evaluate { slot } ==> s == (Selection::Expand { slot }),
    {
        match r {
            Action::Evaluate { slot } => Selection::Expand { slot },
            Action::Continue => Selection::Terminal,
            _ => Selection::Collision,
        }
    }

    /// A delivery is a function of the manager, the slot and the evaluation.
    pub proof fn lemma_deliver_deterministic(
        &self,
        slot: int,
        eval: LeafEval,
        a: &SearchManager,
        ka: int,
        b: &SearchManager,
        kb: int,
    )
        requires
            self.wf(),
            self.tree.is_live(slot),
            self.tree.completed_with(a.tree, slot, eval, ka),
            self.tree.completed_with(b.tree, slot, eval, kb),
            self.keeps_settings(a),
            self.keeps_settings(b),
            a.state == self.state,
            b.state == self.state,
        ensures
            ka == kb,
            a.state == b.state,
            a.keeps_settings(b),
            a.tree.same_state(b.tree),
    {
        self.tree.lemma_completion_deterministic(slot, eval, a.tree, ka, b.tree, kb);
    }

    /// Decides what the caller does next, `elapsed_ms` milliseconds into the search.
    pub fn step(&mut self, elapsed_ms: u64) -> (r: Action)
        requires
            old(self).wf(),
            old(self).state == SearchState::Running,
        ensures
            final(self).wf(),
            old(self).stepped(&*final(self), elapsed_ms as int, r),
    {
        let started = self.tree.completed + self.tree.pending;
        let limited = !self.pondering && check_limits(self.limits, started, elapsed_ms, self.max_depth);
        // a search always evaluates the root, so that it has a move to play
        if (self.stop_requested || limited || started >= MAX_SIMULATIONS || self.failed) && (
        self.tree.nodes.len() > 0 || started >= MAX_SIMULATIONS || self.failed) {
            if self.tree.pending == 0 {
                self.state = if self.stop_requested || self.failed {
                    SearchState::Stopped
                } else {
                    SearchState::Completed
                };
                return Action::Finish;
            }
            return Action::Wait;
        }
        let params = self.params;
        let sel = self.tree.select(&params);
        match sel {
            Selection::Expand { slot } => {
                let depth = self.tree.paths[slot].len();
                if depth > self.max_depth {
                    self.max_depth = depth;
                }
                if self.expansions < u64::MAX && (depth as u128) <= (u64::MAX - self.depth_total) as u128 {
                    self.expansions = self.expansions + 1;
                    self.depth_total = self.depth_total + depth as u64;
                }
                Action::Evaluate { slot }
            },
            Selection::Terminal => Action::Continue,
            Selection::Collision => Action::Wait,
            Selection::Full => Action::Wait,
        }
    }

    /// Hands the search the evaluation of the leaf of slot `slot`.
    pub fn deliver(&mut self, slot: usize, eval: &LeafEval) -> (key: usize)
        requires
            old(self).wf(),
            old(self).tree.is_live(slot as int),
            eval.wf(),
            old(self).tree.nodes.len() < usize::MAX,
            old(self).tree.edges.len() + eval.moves.len() <= usize::MAX,
        ensures
            final(self).wf(),
            old(self).tree.completed_with(final(self).tree, slot as int, *eval, key as int),
            final(self).state == old(self).state,
            final(self).params == old(self).params,
            final(self).limits == old(self).limits,
            final(self).stop_requested == old(self).stop_requested,
            final(self).pondering == old(self).pondering,
            final(self).max_depth == old(self).max_depth,
            final(self).failed == old(self).failed,
            old(self).keeps_settings(&*final(self)),
    {
        proof {
            self.lemma_live_means_running(slot as int);
        }
        self.tree.complete(slot, eval)
    }

    /// A simulation in flight means a running search.
    proof fn lemma_live_means_running(&self, slot: int)
        requires
            self.wf(),
            self.tree.is_live(slot),
        ensures
            self.tree.pending > 0,
            self.state is Running,
    {
        lemma_pending_clear(self.tree.paths@, self.tree.live@, 0, self.tree.paths.len() as int, slot);
        lemma_live_count_bound(self.tree.live@.update(slot, false), self.tree.paths.len() as int);
    }

    /// The evaluation of the leaf of slot `slot` failed: the simulation is
    /// given up and the search ends, without a retry, once nothing else is in flight.
    pub fn fail_evaluation(&mut self, slot: usize)
        requires
            old(self).wf(),
            old(self).tree.is_live(slot as int),
        ensures
            final(self).wf(),
            final(self).failed,
            final(self).state == old(self).state,
            final(self).tree.nodes@ == old(self).tree.nodes@,
            final(self).tree.completed == old(self).tree.completed,
            final(self).tree.pending == old(self).tree.pending - 1,
            final(self).tree.live@ == old(self).tree.live@.update(slot as int, false),
            final(self).stop_requested == old(self).stop_requested,
            final(self).params == old(self).params,
            final(self).limits == old(self).limits,
            final(self).keeps_settings(&(SearchManager { failed: true, ..*old(self) })),
    {
        proof {
            self.lemma_live_means_running(slot as int);
        }
        self.tree.abandon(slot);
        self.failed = true;
    }

    /// The move to play from `root`, the position searched: the search's choice,
    /// or else the first legal move; `None` only when there is no legal move.
    pub fn move_to_play(&self, root: &GameState) -> (r: Option<u32>)
        requires
            self.wf(),
        ensures
            r is None <==> legal_moves_at(root.position).len() == 0,
            r matches Some(m) ==> m < legal_moves_at(root.position).len(),
            r matches Some(m) ==> m == 0 || exists|e: int| self.tree.is_play_choice(e) && self.tree.edges[e].mv == m,
            (self.tree.nodes.len() > 0 && !self.tree.nodes[0].is_terminal() && forall|e: int|
                self.tree.is_play_choice(e) ==> self.tree.edges[e].mv < legal_moves_at(root.position).len())
                ==> (r matches Some(m) && exists|e: int| self.tree.is_play_choice(e) && self.tree.edges[e].mv == m),
    {
        let best = self.best_move();
        let n = root.legal_moves().len();
        if n == 0 {
            return None;
        }
        match best {
            Some(b) => if (b as usize) < n {
                Some(b)
            } else {
                Some(0)
            },
            None => Some(0),
        }
    }

    /// The move to play, as its index among the root's legal moves; `None` when
    /// no simulation has completed or the game is over at the root.
    pub fn best_move(&self) -> (r: Option<u32>)
        requires
            self.wf(),
        ensures
            r is None <==> (self.tree.nodes.len() == 0 || self.tree.nodes[0].is_terminal()),
            r matches Some(m) ==> exists|e: int| self.tree.is_play_choice(e) && self.tree.edges[e].mv == m,
    {
        match self.tree.best_move_edge() {
            Some(e) => Some(self.tree.edges[e].mv),
            None => None,
        }
    }

    /// The move to play and the reply expected to it, as indices among the legal
    /// moves of their positions; `None` when there is no move to play.
    pub fn best_move_info(&self) -> (r: Option<BestMoveInfo>)
        requires
            self.wf(),
        ensures
            r is None <==> (self.tree.nodes.len() == 0 || self.tree.nodes[0].is_terminal()),
            r matches Some(info) ==> info.is_black == Some(self.tree.nodes[0].to_move == Color::Black),
            r matches Some(info) ==> exists|e: int|
                {
                    &&& self.tree.is_play_choice(e)
                    &&& self.tree.edges[e].mv == info.best_move
                    &&& match self.tree.edges[e].child {
                        Child::Expanded(c) => match info.ponder {
                            Some(p) => exists|f: int|
                                self.tree.is_play_choice_at(c as int, f) && self.tree.edges[f].mv == p,
                            None => self.tree.nodes[c as int].is_terminal(),
                        },
                        _ => info.ponder is None,
                    }
                },
    {
        let e = match self.tree.best_move_edge() {
            Some(e) => e,
            None => {
                return None;
            },
        };
        let ponder = match self.tree.edges[e].child {
            Child::Expanded(c) => match self.tree.play_edge_at(c) {
                Some(f) => Some(self.tree.edges[f].mv),
                None => None,
            },
            _ => None,
        };
        let is_black = match self.tree.nodes[0].to_move {
            Color::Black => true,
            Color::White => false,
        };
        Some(BestMoveInfo { best_move: self.tree.edges[e].mv, ponder, is_black: Some(is_black) })
    }

    /// The moves that the play order chooses from the root on, while the chosen
    /// edge has a child: the line ends at a finished game or at an edge whose
    /// child is not expanded.
    pub open spec fn is_pv(&self, pv: Seq<u32>) -> bool {
        exists|p: Seq<usize>|
            {
                &&& p.len() == pv.len()
                &&& self.tree.is_chain(p)
                &&& forall|k: int|
                    0 <= k < p.len() ==> self.tree.is_play_choice_at(self.tree.node_at(p, k), #[trigger] p[k] as int)
                        && self.tree.edges[p[k] as int].mv == pv[k]
                &&& self.pv_ends(p)
            }
    }

    /// The line `p` ends where the play order can go no further.
    pub open spec fn pv_ends(&self, p: Seq<usize>) -> bool {
        ||| self.tree.nodes[self.tree.node_at(p, p.len() as int)].is_terminal() && (p.len() > 0 ==> self.tree.edges[p.last() as int].child is Expanded)
        ||| (p.len() > 0 && !(self.tree.edges[p.last() as int].child is Expanded))
    }

    /// The principal variation.
    #[verifier::rlimit(40)]
    pub fn principal_variation(&self) -> (r: Vec<u32>)
        requires
            self.wf(),
        ensures
            r.len() <= self.tree.nodes.len(),
            self.tree.nodes.len() > 0 ==> self.is_pv(r@),
            self.tree.nodes.len() > 0 && !self.tree.nodes[0].is_terminal() ==> r.len() > 0,
    {
        let mut pv: Vec<u32> = Vec::new();
        if self.tree.nodes.len() == 0 {
            return pv;
        }
        let ghost mut path: Seq<usize> = Seq::empty();
        let mut node: usize = 0;
        loop
            invariant
                pv.len() <= node,
                self.tree.is_full_chain(path),
                node == self.tree.node_at(path, path.len() as int),
                self.wf(),
                self.tree.nodes.len() > 0,
                node < self.tree.nodes.len(),
                path.len() == pv.len(),
                pv.len() <= self.tree.nodes.len(),
                self.tree.is_chain(path),
                forall|k: int|
                    0 <= k < path.len() ==> self.tree.is_play_choice_at(self.tree.node_at(path, k), #[trigger] path[k] as int)
                        && self.tree.edges[path[k] as int].mv == pv@[k],
            decreases self.tree.nodes.len() - node,
        {
            let e = match self.tree.play_edge_at(node) {
                Some(e) => e,
                None => {
                    assert(self.pv_ends(path));
                    return pv;
                },
            };
            let ghost before = path;
            proof {
                path = path.push(e);
                assert forall|k: int| 0 <= k <= before.len() implies #[trigger] self.tree.node_at(path, k)
                    == self.tree.node_at(before, k) by {
                    if k > 0 {
                        assert(path[k - 1] == before[k - 1]);
                    }
                }
                assert(self.tree.edges[e as int].parent == node);
                assert forall|k: int| 0 <= k < path.len() implies #[trigger] path[k] < self.tree.edges.len()
                    && self.tree.edges[path[k] as int].parent == self.tree.node_at(path, k) by {
                    if k < before.len() {
                        assert(path[k] == before[k]);
                    }
                }
                assert forall|k: int| 0 <= k < path.len() - 1 implies self.tree.edges[#[trigger] path[k] as int].child is Expanded by {
                    assert(path[k] == before[k]);
                }
            }
            pv.push(self.tree.edges[e].mv);
            proof {
                assert forall|k: int|
                    0 <= k < path.len() implies self.tree.is_play_choice_at(self.tree.node_at(path, k), #[trigger] path[k] as int)
                        && self.tree.edges[path[k] as int].mv == pv@[k] by {
                    if k < before.len() {
                        assert(path[k] == before[k]);
                    }
                }
            }
            match self.tree.edges[e].child {
                Child::Expanded(c) => {
                    node = c;
                },
                _ => {
                    assert(path.last() == e);
                    assert(self.pv_ends(path));
                    return pv;
                },
            }
        }
    }

    /// A progress report, `elapsed_ms` milliseconds into the search.
    pub fn thinking_info(&self, elapsed_ms: u64) -> (r: ThinkingInfo)
        requires
            self.wf(),
            self.tree.nodes.len() > 0,
        ensures
            r.depth == self.max_depth,
            r.seldepth == self.max_depth,
            r.tb_hits is None && r.multipv is None && r.comment is None,
            r.time_ms == elapsed_ms,
            r.nodes == self.tree.completed,
            r.nps == if elapsed_ms == 0 {
                0
            } else {
                self.tree.completed * 1000 / elapsed_ms as int
            },
            r.score == self.tree.nodes[0].q() - VALUE_DRAW,
            ({
                let root = self.tree.nodes[0];
                let d = if root.visits == 0 {
                    0
                } else {
                    root.draw_sum / root.visits
                };
                let t = wdl_of(root.q(), d as int);
                r.wdl.win == t.0 && r.wdl.draw == t.1 && r.wdl.loss == t.2
            }),
            r.mate == Some(1i32) <==> exists|e: int| owns(self.tree.nodes[0], e) && self.wins_at_once(e),
            r.mate is None || r.mate == Some(1i32),
            self.is_pv(r.pv@),
    {
        let root = self.tree.nodes[0];
        let q: u64 = if root.visits == 0 {
            VALUE_DRAW
        } else {
            assert(root.value_sum / root.visits <= VALUE_MAX) by (nonlinear_arith)
                requires
                    root.value_sum <= root.visits * VALUE_MAX,
                    root.visits >= 1,
            ;
            root.value_sum / root.visits
        };
        let d: u64 = if root.visits == 0 {
            0
        } else {
            assert(root.draw_sum / root.visits <= PROB_ONE) by (nonlinear_arith)
                requires
                    root.draw_sum <= root.visits * PROB_ONE,
                    root.visits >= 1,
            ;
            root.draw_sum / root.visits
        };
        let w: u64 = if q >= d {
            (q - d) / 20
        } else {
            0
        };
        let l: u64 = if VALUE_MAX >= q + d {
            (VALUE_MAX - q - d) / 20
        } else {
            0
        };
        let nps: u64 = if elapsed_ms == 0 {
            0
        } else {
            assert(self.tree.completed * 1000 <= MAX_SIMULATIONS * 1000) by (nonlinear_arith)
                requires
                    self.tree.completed <= MAX_SIMULATIONS,
            ;
            (self.tree.completed * 1000) / elapsed_ms
        };
        let stats = self.iteration_stats(elapsed_ms, elapsed_ms);
        let mate = if stats.win_found {
            Some(1i32)
        } else {
            None
        };
        ThinkingInfo {
            depth: self.max_depth,
            seldepth: self.max_depth,
            time_ms: elapsed_ms,
            nodes: self.tree.completed,
            nps,
            score: q as i64 - VALUE_DRAW as i64,
            mate,
            wdl: Wdl { win: w, draw: 1000 - w - l, loss: l },
            pv: self.principal_variation(),
            tb_hits: None,
            multipv: None,
            comment: None,
        }
    }

    /// After a search completed, the root counts every simulation as a visit.
    pub proof fn lemma_completed_root_visits(&self)
        requires
            self.wf(),
            self.state is Completed,
        ensures
            self.tree.nodes.len() > 0,
            self.tree.nodes[0].visits == self.tree.completed,
            self.tree.pending == 0,
    {
        self.tree.lemma_root_visits_if_any();
    }

    /// After a search completed or stopped, no edge carries virtual loss.
    pub proof fn lemma_completed_no_virtual_loss(&self)
        requires
            self.wf(),
            self.state is Completed || self.state is Stopped,
        ensures
            forall|e: int| 0 <= e < self.tree.edges.len() ==> self.tree.edges[e].virtual_loss == 0,
    {
        self.tree.lemma_no_virtual_loss_at_rest();
    }
}

/// Sent when a search decides on its move.
#[derive(Clone, Copy, Debug, PartialEq, Eq)]
pub struct BestMoveInfo {
    pub best_move: u32,
    pub ponder: Option<u32>,
    /// Whether Black plays the move, when known.
    pub is_black: Option<bool>,
}

/// Win, draw and loss chances in permille.
#[derive(Clone, Copy, Debug, PartialEq, Eq)]
pub struct Wdl {
    pub win: u64,
    pub draw: u64,
    pub loss: u64,
}

/// A progress report of a running search.
#[derive(Debug, PartialEq, Eq)]
pub struct ThinkingInfo {
    /// The length of the longest path selected.
    pub depth: usize,
    /// The same: the tree has no quiescence extension to report apart.
    pub seldepth: usize,
    pub time_ms: u64,
    /// Simulations completed.
    pub nodes: u64,
    /// Simulations per second.
    pub nps: u64,
    /// The root's value minus a draw, from the side to move, in `-VALUE_DRAW ..= VALUE_DRAW`.
    pub score: i64,
    /// Mate in this many moves, when a root move mates at once.
    pub mate: Option<i32>,
    pub wdl: Wdl,
    /// The principal variation: moves to play from the root on, as indices among
    /// the legal moves of their positions.
    pub pv: Vec<u32>,
    /// Endgame tablebase hits; no tablebases are probed.
    pub tb_hits: Option<usize>,
    /// The number of the line in multi-line output; one line is reported.
    pub multipv: Option<usize>,
    pub comment: Option<String>,
}

/// Win, draw and loss in permille from a value `q` on `0 ..= VALUE_MAX` and a
/// draw probability `d` on `0 ..= PROB_ONE`: a win is `(1 + q - d) / 2`, a loss
/// `(1 - q - d) / 2` on the usual scales, each at least zero, and the draw the rest.
pub open spec fn wdl_of(q: int, d: int) -> (int, int, int) {
    let w = if q >= d {
        (q - d) / 20
    } else {
        0
    };
    let l = if VALUE_MAX >= q + d {
        (VALUE_MAX - q - d) / 20
    } else {
        0
    };
    (w, 1000 - w - l, l)
}

/// A snapshot of a search, for the stopping policy and for progress reports.
pub struct IterationStats {
    pub time_since_movestart_ms: u64,
    /// Time since the first evaluation came back.
    pub time_since_first_batch_ms: u64,
    /// Simulations completed.
    pub total_nodes: u64,
    /// Simulations completed in this search.
    pub nodes_since_movestart: u64,
    /// Evaluations that came back in this search.
    pub batches_since_movestart: u64,
    /// Simulations in flight.
    pub pending: u64,
    /// The length of the longest path selected.
    pub max_depth: usize,
    /// The mean length of the paths selected for evaluation.
    pub avg_depth: u64,
    /// The visits of each root move's child, in the root's edge order.
    pub edge_n: Vec<u64>,
    /// Some root move wins at once.
    pub win_found: bool,
    /// The root's value is so low that the side to move may resign.
    pub may_resign: bool,
    /// Root moves that lose at once.
    pub num_losing_edges: u64,
    pub time_usage_hint: TimeUsageHint,
}

/// What the search suggests to the stopping policy.
#[derive(Clone, Copy, Debug, PartialEq, Eq, Structural)]
pub enum TimeUsageHint {
    Normal,
    NeedMoreTime,
    ImmediateMove,
}

/// The root value, from its side to move, at or below which it may resign.
pub const RESIGN_VALUE: u64 = 500;

impl Default for IterationStats {
    fn default() -> (r: IterationStats)
        ensures
            r.time_since_movestart_ms == 0,
            r.time_since_first_batch_ms == 0,
            r.total_nodes == 0,
            r.nodes_since_movestart == 0,
            r.batches_since_movestart == 0,
            r.pending == 0,
            r.max_depth == 0,
            r.avg_depth == 0,
            r.edge_n.len() == 0,
            !r.win_found,
            !r.may_resign,
            r.num_losing_edges == 0,
            r.time_usage_hint == TimeUsageHint::Normal,
    {
        IterationStats {
            time_since_movestart_ms: 0,
            time_since_first_batch_ms: 0,
            total_nodes: 0,
            nodes_since_movestart: 0,
            batches_since_movestart: 0,
            pending: 0,
            max_depth: 0,
            avg_depth: 0,
            edge_n: Vec::new(),
            win_found: false,
            may_resign: false,
            num_losing_edges: 0,
            time_usage_hint: TimeUsageHint::Normal,
        }
    }
}

/// Decides when a search stops, from a snapshot and the limits.
pub trait TimeManager {
    fn should_stop(&self, stats: &IterationStats, limits: &SearchLimits) -> bool;
}

/// The stopping policy that follows the limits alone.
pub struct LimitsTimeManager;

impl TimeManager for LimitsTimeManager {
    fn should_stop(&self, stats: &IterationStats, limits: &SearchLimits) -> bool {
        let started: u64 = if stats.total_nodes <= u64::MAX - stats.pending {
            stats.total_nodes + stats.pending
        } else {
            u64::MAX
        };
        check_limits(*limits, started, stats.time_since_movestart_ms, stats.max_depth)
    }
}

impl SearchManager {
    /// Root edge `e` leads to a finished game that the root's side has won.
    pub open spec fn wins_at_once(&self, e: int) -> bool {
        match self.tree.edges[e].child {
            Child::Expanded(c) => self.tree.nodes[c as int].result == (crate::chess::GameResult::Decisive {
                winner: self.tree.nodes[0].to_move,
            }),
            _ => false,
        }
    }

    /// Root edge `e` leads to a finished game that the root's side has lost.
    pub open spec fn loses_at_once(&self, e: int) -> bool {
        match self.tree.edges[e].child {
            Child::Expanded(c) => match self.tree.nodes[c as int].result {
                crate::chess::GameResult::Decisive { winner } => winner != self.tree.nodes[0].to_move,
                _ => false,
            },
            _ => false,
        }
    }

    /// How many of the `k` edges from `first` on lose at once.
    pub open spec fn losing_edges(&self, first: int, k: int) -> int
        decreases k,
    {
        if k <= 0 {
            0
        } else {
            self.losing_edges(first, k - 1) + if self.loses_at_once(first + k - 1) {
                1int
            } else {
                0
            }
        }
    }

    /// A snapshot of the search, `elapsed_ms` milliseconds in and
    /// `since_first_batch_ms` after the first evaluation came back.
    pub fn iteration_stats(&self, elapsed_ms: u64, since_first_batch_ms: u64) -> (r: IterationStats)
        requires
            self.wf(),
        ensures
            r.time_since_movestart_ms == elapsed_ms,
            r.time_since_first_batch_ms == since_first_batch_ms,
            r.total_nodes == self.tree.completed,
            r.nodes_since_movestart == self.tree.completed,
            r.batches_since_movestart == self.tree.nodes.len(),
            r.pending == self.tree.pending,
            r.max_depth == self.max_depth,
            r.avg_depth == if self.expansions == 0 {
                0
            } else {
                self.depth_total / self.expansions
            },
            self.tree.nodes.len() == 0 ==> r.edge_n.len() == 0 && !r.win_found && !r.may_resign
                && r.num_losing_edges == 0 && r.time_usage_hint == TimeUsageHint::Normal,
            self.tree.nodes.len() > 0 ==> {
                let root = self.tree.nodes[0];
                &&& r.edge_n.len() == root.num_edges
                &&& forall|i: int|
                    0 <= i < root.num_edges ==> r.edge_n[i] == self.tree.edge_visits(root.first_edge + i)
                &&& r.win_found <==> exists|e: int| owns(root, e) && self.wins_at_once(e)
                &&& r.may_resign == (root.visits > 0 && root.q() <= RESIGN_VALUE)
                &&& r.num_losing_edges == self.losing_edges(root.first_edge as int, root.num_edges as int)
                &&& r.time_usage_hint == if r.win_found || root.num_edges == 1 {
                    TimeUsageHint::ImmediateMove
                } else {
                    TimeUsageHint::Normal
                }
            },
    {
        let mut edge_n: Vec<u64> = Vec::new();
        let mut win_found = false;
        let mut losing: u64 = 0;
        let mut may_resign = false;
        let mut hint = TimeUsageHint::Normal;
        if self.tree.nodes.len() > 0 {
            let root = self.tree.nodes[0];
            let mut i: usize = 0;
            while i < root.num_edges
                invariant
                    self.wf(),
                    self.tree.nodes.len() > 0,
                    root == self.tree.nodes[0],
                    i <= root.num_edges,
                    edge_n.len() == i,
                    losing == self.losing_edges(root.first_edge as int, i as int),
                    losing <= i,
                    forall|k: int| 0 <= k < i ==> edge_n[k] == self.tree.edge_visits(root.first_edge + k),
                    win_found <==> exists|e: int| root.first_edge <= e < root.first_edge + i && self.wins_at_once(e),
                decreases root.num_edges - i,
            {
                let e = root.first_edge + i;
                let ghost before = win_found;
                match self.tree.edges[e].child {
                    Child::Expanded(c) => {
                        let child = self.tree.nodes[c];
                        edge_n.push(child.visits);
                        match child.result {
                            crate::chess::GameResult::Decisive { winner } => {
                                if winner == root.to_move {
                                    win_found = true;
                                } else {
                                    losing = losing + 1;
                                }
                            },
                            _ => {},
                        }
                    },
                    _ => {
                        edge_n.push(0);
                    },
                }
                proof {
                    assert(win_found == (before || self.wins_at_once(e as int)));
                    let lo = root.first_edge as int;
                    if exists|f: int| lo <= f < lo + i + 1 && self.wins_at_once(f) {
                        let f = choose|f: int| lo <= f < lo + i + 1 && self.wins_at_once(f);
                        if f != e {
                            assert(lo <= f < lo + i);
                        }
                    }
                }
                i = i + 1;
            }
            may_resign = root.visits > 0 && root.value_sum / root.visits <= RESIGN_VALUE;
            if win_found || root.num_edges == 1 {
                hint = TimeUsageHint::ImmediateMove;
            }
        }
        let avg_depth = if self.expansions == 0 {
            0
        } else {
            self.depth_total / self.expansions
        };
        IterationStats {
            time_since_movestart_ms: elapsed_ms,
            time_since_first_batch_ms: since_first_batch_ms,
            total_nodes: self.tree.completed,
            nodes_since_movestart: self.tree.completed,
            batches_since_movestart: self.tree.nodes.len() as u64,
            pending: self.tree.pending,
            max_depth: self.max_depth,
            avg_depth,
            edge_n,
            win_found,
            may_resign,
            num_losing_edges: losing,
            time_usage_hint: hint,
        }
    }
}

} // verus!
