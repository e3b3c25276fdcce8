use fatduck::chess::{repetitions, GameResult, GameState};
use fatduck::expand::leaf_eval_for;
use fatduck::puct::{MctsParams, VALUE_DRAW};
use fatduck::network::{InputFormat, MovesLeftFormat, NetworkCapabilities};
use fatduck::search::{Action, ConfigError, SearchLimits, SearchManager, SearchState};
use shakmaty::fen::Fen;
use shakmaty::{CastlingMode, Chess};

fn position(fen: &str) -> GameState {
    let pos: Chess = Fen::from_ascii(fen.as_bytes())
        .unwrap()
        .into_position(CastlingMode::Standard)
        .unwrap();
    GameState::from_position(pos)
}

fn uci_of(state: &GameState, index: u32) -> String {
    state.legal_moves()[index as usize].to_uci(CastlingMode::Standard).to_string()
}

/// Runs a single-worker search in which every open position is valued a draw
/// and each move gets the mass that `mass` gives its index.
fn run(root: &GameState, limits: SearchLimits, mass: &dyn Fn(usize) -> u32) -> SearchManager {
    let mut m = SearchManager::new(MctsParams::new(1500, 0), limits, root.turn());
    m.start(false);
    let history: Vec<Chess> = Vec::new();
    loop {
        match m.step(0) {
            Action::Evaluate { slot } => {
                let moves = m.tree.path_moves(slot);
                let leaf = root.after_moves(&history, &moves).unwrap();
                let n = leaf.legal_moves().len();
                let masses: Vec<u32> = (0..n).map(|i| mass(i)).collect();
                let eval = leaf_eval_for(&leaf, VALUE_DRAW, 0, &masses).unwrap();
                m.deliver(slot, &eval);
            }
            Action::Continue => {}
            Action::Wait => panic!("a single worker has nothing to wait for"),
            Action::Finish => break,
        }
    }
    m
}

/// Runs a search that claims up to `batch` leaves before evaluating any.
fn run_batched(root: &GameState, limits: SearchLimits, batch: usize) -> (SearchManager, usize) {
    let mut m = SearchManager::new(MctsParams::new(1500, 0), limits, root.turn());
    m.start(false);
    let history: Vec<Chess> = Vec::new();
    let mut most = 0;
    while m.state == SearchState::Running {
        let mut slots = Vec::new();
        while slots.len() < batch && m.state == SearchState::Running {
            match m.step(0) {
                Action::Evaluate { slot } => slots.push(slot),
                Action::Continue => {}
                Action::Wait | Action::Finish => break,
            }
        }
        most = most.max(m.tree.pending as usize);
        for slot in slots {
            let moves = m.tree.path_moves(slot);
            let leaf = root.after_moves(&history, &moves).unwrap();
            let masses = vec![1u32; leaf.legal_moves().len()];
            let eval = leaf_eval_for(&leaf, VALUE_DRAW, 0, &masses).unwrap();
            m.deliver(slot, &eval);
        }
    }
    (m, most)
}

/// The root edge for the move with index `mv`.
fn root_edge(m: &SearchManager, mv: u32) -> usize {
    let root = m.tree.nodes[0];
    (root.first_edge..root.first_edge + root.num_edges)
        .find(|&e| m.tree.edges[e].mv == mv)
        .unwrap()
}

fn root_visits(m: &SearchManager) -> Vec<u64> {
    let root = m.tree.nodes[0];
    (root.first_edge..root.first_edge + root.num_edges)
        .map(|e| match m.tree.edges[e].child {
            fatduck::tree::Child::Expanded(c) => m.tree.nodes[c].visits,
            _ => 0,
        })
        .collect()
}

#[test]
fn one_node_search_plays_highest_prior() {
    let root = GameState::new();
    let n = root.legal_moves().len();
    assert_eq!(n, 20);
    // the seventh move gets the largest mass
    let m = run(&root, SearchLimits::Nodes(1), &|i| if i == 6 { 50 } else { 10 });
    assert_eq!(m.state, SearchState::Completed);
    assert_eq!(m.tree.completed, 1);
    assert_eq!(m.tree.nodes[0].visits, 1);
    assert_eq!(m.best_move(), Some(6));
    // the root's edges stand from the highest prior down
    let root_node = m.tree.nodes[0];
    assert_eq!(m.tree.edges[root_node.first_edge].mv, 6);
    let priors: Vec<u32> = (0..20).map(|i| m.tree.edges[root_node.first_edge + i].prior).collect();
    assert!(priors.windows(2).all(|w| w[0] >= w[1]));
    assert_eq!(priors.iter().sum::<u32>(), 10_000);
}

#[test]
fn mate_in_one_is_found_despite_low_prior() {
    // Ra8 mates; give it the smallest prior of all moves
    let root = position("6k1/5ppp/8/8/8/8/8/R5K1 w - - 0 1");
    let mate = (0..root.legal_moves().len() as u32)
        .find(|&i| uci_of(&root, i) == "a1a8")
        .unwrap();
    let m = run(&root, SearchLimits::Nodes(800), &|i| if i as u32 == mate { 1 } else { 10 });
    assert_eq!(m.best_move(), Some(mate));
    let e = root_edge(&m, mate);
    match m.tree.edges[e].child {
        fatduck::tree::Child::Expanded(c) => {
            let child = m.tree.nodes[c];
            // the mated side's value is a loss at every visit
            assert_eq!(child.value_sum, 0);
            assert_eq!(child.result, GameResult::Decisive { winner: fatduck::chess::Color::White });
        }
        _ => panic!("the mating move was never expanded"),
    }
}

#[test]
fn fifty_move_rule_draws_after_hundredth_half_move() {
    let root = position("4k3/8/8/3q4/8/8/8/4K2R w K - 99 60");
    assert_eq!(root.halfmoves(), 99);
    assert_eq!(root.compute_game_result(), GameResult::NonTerminal);
    let quiet = (0..root.legal_moves().len() as u32)
        .find(|&i| uci_of(&root, i) == "e1f1")
        .unwrap();
    let history: Vec<Chess> = Vec::new();
    let next = root.after_moves(&history, &vec![quiet]).unwrap();
    assert_eq!(next.halfmoves(), 100);
    assert_eq!(next.compute_game_result(), GameResult::Draw);
}

#[test]
fn same_search_twice_gives_same_result() {
    let root = GameState::new();
    let mass = |i: usize| (i as u32 * 7) % 5 + 1;
    let a = run(&root, SearchLimits::Nodes(60), &mass);
    let b = run(&root, SearchLimits::Nodes(60), &mass);
    assert_eq!(a.best_move(), b.best_move());
    assert_eq!(root_visits(&a), root_visits(&b));
    assert_eq!(a.tree.completed, 60);
}

#[test]
fn completed_search_counts_every_simulation_at_root() {
    let root = GameState::new();
    let m = run(&root, SearchLimits::Nodes(37), &|_| 1);
    assert_eq!(m.state, SearchState::Completed);
    assert_eq!(m.tree.nodes[0].visits, m.tree.completed);
    assert_eq!(m.tree.completed, 37);
    assert_eq!(root_visits(&m).iter().sum::<u64>(), 36);
}

#[test]
fn completed_search_leaves_no_virtual_loss() {
    let root = GameState::new();
    let m = run(&root, SearchLimits::Nodes(25), &|i| i as u32 + 1);
    assert_eq!(m.tree.pending, 0);
    assert!(m.tree.edges.iter().all(|e| e.virtual_loss == 0));
}

#[test]
fn stop_before_any_simulation_still_evaluates_root() {
    let root = GameState::new();
    let mut m = SearchManager::new(MctsParams::new(1000, 0), SearchLimits::Infinite, root.turn());
    m.start(false);
    m.stop();
    // the root is evaluated once, so that the highest prior can be played
    let slot = match m.step(0) {
        Action::Evaluate { slot } => slot,
        other => panic!("expected the root's evaluation, got {other:?}"),
    };
    let masses: Vec<u32> = (0..20).map(|i| if i == 11 { 9 } else { 1 }).collect();
    let eval = leaf_eval_for(&root, VALUE_DRAW, 0, &masses).unwrap();
    m.deliver(slot, &eval);
    assert_eq!(m.step(0), Action::Finish);
    assert_eq!(m.state, SearchState::Stopped);
    assert_eq!(m.tree.completed, 1);
    assert_eq!(m.best_move(), Some(11));
}

#[test]
fn time_limit_ends_search() {
    let root = GameState::new();
    let mut m = SearchManager::new(MctsParams::new(1000, 0), SearchLimits::Time(50), root.turn());
    m.start(false);
    assert!(matches!(m.step(10), Action::Evaluate { .. }));
    // the root is still out, so the search waits for it
    assert_eq!(m.step(60), Action::Wait);
}

#[test]
fn ponder_search_ignores_limits_until_ponderhit() {
    let root = GameState::new();
    let mut m = SearchManager::new(MctsParams::new(1000, 0), SearchLimits::Nodes(0), root.turn());
    m.start(true);
    assert!(matches!(m.step(0), Action::Evaluate { .. }));
    m.ponderhit(SearchLimits::Nodes(0));
    assert_eq!(m.step(0), Action::Wait);
}

#[test]
fn default_limits_are_one_second() {
    assert_eq!(SearchLimits::default(), SearchLimits::Time(1000));
}

#[test]
fn batched_search_releases_all_virtual_loss() {
    let root = GameState::new();
    let (m, most) = run_batched(&root, SearchLimits::Nodes(41), 4);
    assert_eq!(most, 4);
    assert_eq!(m.state, SearchState::Completed);
    assert_eq!(m.tree.pending, 0);
    assert_eq!(m.tree.completed, 41);
    assert_eq!(m.tree.nodes[0].visits, 41);
    assert!(m.tree.edges.iter().all(|e| e.virtual_loss == 0));
    assert!(m.tree.edges.iter().all(|e| e.child != fatduck::tree::Child::Pending));
}

#[test]
fn iteration_stats_report_root_visits() {
    let root = GameState::new();
    let m = run(&root, SearchLimits::Nodes(15), &|_| 1);
    let s = m.iteration_stats(7, 5);
    assert_eq!(s.time_since_movestart_ms, 7);
    assert_eq!(s.time_since_first_batch_ms, 5);
    assert_eq!(s.nodes_since_movestart, 15);
    assert_eq!(s.batches_since_movestart, m.tree.nodes.len() as u64);
    assert!(!s.may_resign);
    assert_eq!(s.num_losing_edges, 0);
    assert_eq!(s.time_usage_hint, fatduck::search::TimeUsageHint::Normal);
    assert_eq!(s.avg_depth, m.depth_total / m.expansions);
    assert_eq!(s.total_nodes, 15);
    assert_eq!(s.edge_n, root_visits(&m));
    assert!(!s.win_found);
}

/// Plays moves given in UCI notation, keeping the game's history.
fn play_all(start: &GameState, moves: &[&str]) -> GameState {
    let mut history: Vec<Chess> = Vec::new();
    let mut state = start.duplicate();
    for text in moves {
        let i = (0..state.legal_moves().len() as u32)
            .find(|&i| uci_of(&state, i) == *text)
            .unwrap();
        let m = state.legal_moves()[i as usize].clone();
        let next = state.play(&history, &m).unwrap();
        history.push(state.position().clone());
        state = next;
    }
    state
}

#[test]
fn repetitions_are_counted_from_comparisons() {
    assert_eq!(repetitions(&vec![]), (0, 0));
    assert_eq!(repetitions(&vec![false, true, false, true, false]), (2, 2));
    assert_eq!(repetitions(&vec![true, false, false]), (1, 3));
    assert_eq!(repetitions(&vec![true; 300]), (255, 1));
}

#[test]
fn third_occurrence_is_a_draw() {
    let start = GameState::new();
    let knights = ["g1f3", "g8f6", "f3g1", "f6g8"];
    let once = play_all(&start, &knights);
    assert_eq!(once.repetition_count(), 1);
    assert_eq!(once.cycle_length, 4);
    assert_eq!(once.compute_game_result(), GameResult::NonTerminal);
    assert_eq!(once.terminal_kind(), fatduck::chess::Terminal::TwoFold);
    let twice = play_all(&start, &[&knights[..], &knights[..]].concat());
    assert_eq!(twice.repetition_count(), 2);
    assert_eq!(twice.compute_game_result(), GameResult::Draw);
}

#[test]
fn best_move_info_names_expected_reply() {
    let root = GameState::new();
    let m = run(&root, SearchLimits::Nodes(30), &|i| if i == 3 { 40 } else { 5 });
    let info = m.best_move_info().unwrap();
    assert_eq!(Some(info.best_move), m.best_move());
    assert_eq!(info.is_black, Some(false));
    let e = root_edge(&m, info.best_move);
    match m.tree.edges[e].child {
        fatduck::tree::Child::Expanded(c) => {
            assert_eq!(info.ponder, m.tree.play_edge_at(c).map(|f| m.tree.edges[f].mv));
            assert!(info.ponder.is_some());
        }
        _ => panic!("the most visited move has a child"),
    }
}

#[test]
fn thinking_info_reports_root_statistics() {
    let root = position("6k1/5ppp/8/8/8/8/8/R5K1 w - - 0 1");
    let m = run(&root, SearchLimits::Nodes(800), &|_| 1);
    let info = m.thinking_info(400);
    assert_eq!(info.nodes, 800);
    assert_eq!(info.nps, 2000);
    assert_eq!(info.time_ms, 400);
    assert_eq!(info.seldepth, info.depth);
    assert_eq!(info.tb_hits, None);
    assert_eq!(info.mate, Some(1));
    assert_eq!(info.wdl.win + info.wdl.draw + info.wdl.loss, 1000);
    assert!(info.score > 0);
    // the principal variation starts with the mate and ends there
    assert_eq!(info.pv.len(), 1);
    assert_eq!(uci_of(&root, info.pv[0]), "a1a8");
    assert_eq!(m.principal_variation(), info.pv);
}

#[test]
fn wdl_splits_value_and_draw() {
    let root = GameState::new();
    let m = run(&root, SearchLimits::Nodes(1), &|_| 1);
    // one draw-valued visit with no draw probability: half win, half loss
    let info = m.thinking_info(0);
    assert_eq!(info.nps, 0);
    assert_eq!(info.score, 0);
    assert_eq!((info.wdl.win, info.wdl.draw, info.wdl.loss), (500, 0, 500));
    assert_eq!(info.mate, None);
}

#[test]
fn failed_evaluation_ends_search_with_a_legal_move() {
    let root = GameState::new();
    let mut m = SearchManager::new(MctsParams::new(1000, 0), SearchLimits::Infinite, root.turn());
    m.start(false);
    let slot = match m.step(0) {
        Action::Evaluate { slot } => slot,
        other => panic!("expected the root's evaluation, got {other:?}"),
    };
    m.fail_evaluation(slot);
    assert!(m.failed);
    assert_eq!(m.tree.pending, 0);
    // no retry: the search ends at once
    assert_eq!(m.step(0), Action::Finish);
    assert_eq!(m.state, SearchState::Stopped);
    assert_eq!(m.best_move(), None);
    assert_eq!(m.move_to_play(&root), Some(0));
}

#[test]
fn move_to_play_follows_the_search() {
    let root = GameState::new();
    let m = run(&root, SearchLimits::Nodes(1), &|i| if i == 9 { 30 } else { 1 });
    assert_eq!(m.move_to_play(&root), Some(9));
    let mated = position("6k1/5ppp/8/8/8/8/8/R5K1 w - - 0 1");
    let history: Vec<Chess> = Vec::new();
    let i = (0..mated.legal_moves().len() as u32).find(|&i| uci_of(&mated, i) == "a1a8").unwrap();
    let after = mated.after_moves(&history, &vec![i]).unwrap();
    assert!(!after.needs_evaluation());
    assert_eq!(m.move_to_play(&after), None);
}

#[test]
fn configuration_is_checked_before_search() {
    let caps = NetworkCapabilities::new(InputFormat::Classical112Plane, MovesLeftFormat::V1);
    let unknown = NetworkCapabilities::new(InputFormat::Unknown, MovesLeftFormat::V1);
    let ok = MctsParams::new(1500, 0);
    let bad = MctsParams::new(2_000_000, 0);
    assert!(matches!(
        SearchManager::configure(bad, SearchLimits::Nodes(5), caps, fatduck::chess::Color::White),
        Err(ConfigError::InvalidParams)
    ));
    assert!(matches!(
        SearchManager::configure(ok, SearchLimits::Nodes(0), caps, fatduck::chess::Color::White),
        Err(ConfigError::IllegalLimits)
    ));
    assert!(matches!(
        SearchManager::configure(ok, SearchLimits::Depth(0), caps, fatduck::chess::Color::White),
        Err(ConfigError::IllegalLimits)
    ));
    assert!(matches!(
        SearchManager::configure(ok, SearchLimits::Time(0), unknown, fatduck::chess::Color::White),
        Err(ConfigError::UnsupportedInput)
    ));
    let m = SearchManager::configure(ok, SearchLimits::Time(0), caps, fatduck::chess::Color::Black).unwrap();
    assert_eq!(m.state, SearchState::Idle);
}

#[test]
fn finished_leaf_needs_no_masses() {
    let mated = position("R5k1/5ppp/8/8/8/8/8/6K1 b - - 1 1");
    assert!(!mated.needs_evaluation());
    let eval = leaf_eval_for(&mated, VALUE_DRAW, 0, &vec![]).unwrap();
    assert_eq!(eval.result, GameResult::Decisive { winner: fatduck::chess::Color::White });
    assert!(eval.moves.is_empty());
    let open = GameState::new();
    assert!(open.needs_evaluation());
    assert!(leaf_eval_for(&open, VALUE_DRAW, 0, &vec![1; 19]).is_none());
}
