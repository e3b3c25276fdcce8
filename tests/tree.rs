use fatduck::chess::{Color, GameResult};
use fatduck::puct::{FirstPlayUrgency, MctsParams, VALUE_DRAW, VALUE_MAX};
use fatduck::tree::{Child, LeafEval, Selection, Tree};

fn open_eval(to_move: Color, value: u64, priors: Vec<u32>) -> LeafEval {
    LeafEval {
        result: GameResult::NonTerminal,
        to_move,
        value,
        draw: 0,
        moves: (0..priors.len() as u32).collect(),
        priors,
    }
}

fn params() -> MctsParams {
    MctsParams::new(1000, 0)
}

#[test]
fn root_request_is_single_flight() {
    let mut t = Tree::new(Color::White);
    let first = t.select(&params());
    assert_eq!(first, Selection::Expand { slot: 0 });
    // a second worker finds the root being expanded
    assert_eq!(t.select(&params()), Selection::Collision);
    let key = t.complete(0, &open_eval(Color::White, VALUE_DRAW, vec![10_000]));
    assert_eq!(key, 0);
    assert_eq!(t.nodes.len(), 1);
    assert_eq!(t.nodes[0].visits, 1);
}

#[test]
fn racing_workers_create_one_node_per_edge() {
    let mut t = Tree::new(Color::White);
    t.select(&params());
    t.complete(0, &open_eval(Color::White, VALUE_DRAW, vec![10_000]));
    // the only edge is claimed once; the second worker collides
    assert_eq!(t.select(&params()), Selection::Expand { slot: 1 });
    assert_eq!(t.edges[0].child, Child::Pending);
    assert_eq!(t.edges[0].virtual_loss, 1);
    assert_eq!(t.select(&params()), Selection::Collision);
    assert_eq!(t.edges[0].virtual_loss, 1);
    let key = t.complete(1, &open_eval(Color::Black, 5_000, vec![10_000]));
    assert_eq!(key, 1);
    assert_eq!(t.nodes.len(), 2);
    assert_eq!(t.edges[0].child, Child::Expanded(1));
    assert_eq!(t.edges[0].virtual_loss, 0);
    // the value alternates: the child's 5000 is the root's 15000
    assert_eq!(t.nodes[1].value_sum, 5_000);
    assert_eq!(t.nodes[0].value_sum, VALUE_DRAW + 15_000);
    assert_eq!(t.nodes[0].visits, 2);
}

#[test]
fn virtual_loss_steers_second_worker_elsewhere() {
    let mut t = Tree::new(Color::White);
    t.select(&params());
    t.complete(0, &open_eval(Color::White, VALUE_DRAW, vec![5_000, 5_000]));
    assert_eq!(t.select(&params()), Selection::Expand { slot: 1 });
    assert_eq!(t.paths[1], vec![0]);
    assert_eq!(t.select(&params()), Selection::Expand { slot: 2 });
    assert_eq!(t.paths[2], vec![1]);
    assert_eq!(t.pending, 2);
}

#[test]
fn terminal_leaf_is_backed_up_without_evaluation() {
    let mut t = Tree::new(Color::White);
    t.select(&params());
    t.complete(0, &open_eval(Color::White, VALUE_DRAW, vec![10_000]));
    t.select(&params());
    let mate = LeafEval {
        result: GameResult::Decisive { winner: Color::White },
        to_move: Color::Black,
        value: 0,
        draw: 0,
        moves: vec![],
        priors: vec![],
    };
    t.complete(1, &mate);
    assert_eq!(t.nodes[1].num_edges, 0);
    let nodes = t.nodes.len();
    // from now on the path ends at the finished game: no new request
    assert_eq!(t.select(&params()), Selection::Terminal);
    assert_eq!(t.select(&params()), Selection::Terminal);
    assert_eq!(t.nodes.len(), nodes);
    assert_eq!(t.paths.len(), 2);
    assert_eq!(t.nodes[1].visits, 3);
    assert_eq!(t.nodes[1].value_sum, 0);
    assert_eq!(t.nodes[0].visits, 4);
    assert_eq!(t.nodes[0].value_sum, VALUE_DRAW + 3 * VALUE_MAX);
    assert_eq!(t.completed, 4);
}

#[test]
fn play_choice_prefers_visits_then_value_then_edge_order() {
    let mut t = Tree::new(Color::White);
    t.select(&params());
    t.complete(0, &open_eval(Color::White, VALUE_DRAW, vec![2_000, 3_000, 5_000]));
    // no child visited: the first edge in order
    assert_eq!(t.best_move_edge(), Some(0));
    t.select(&params());
    let slot = t.paths.len() - 1;
    let e = t.paths[slot][0];
    t.complete(slot, &open_eval(Color::Black, VALUE_DRAW, vec![10_000]));
    assert_eq!(t.best_move_edge(), Some(e));
}

#[test]
fn scores_follow_the_formula() {
    let mut t = Tree::new(Color::White);
    t.select(&params());
    t.complete(0, &open_eval(Color::White, 12_000, vec![4_000, 6_000]));
    // parent q 12000, one visit: sqrt(1 * 10^6) = 1000;
    // explore = 1000 * prior * 1000 / (10^6 * 1)
    // the score times 10^6, as a fraction over 1 + visits + virtual loss
    assert_eq!(t.score_edge(&params(), 0), (12_000_000_000 + 4_000_000_000, 1));
    assert_eq!(t.score_edge(&params(), 1), (12_000_000_000 + 6_000_000_000, 1));
    assert_eq!(t.best_edge(&params(), 0), 1);
}

#[test]
fn first_play_urgency_sets_unvisited_value() {
    let mut t = Tree::new(Color::White);
    t.select(&params());
    t.complete(0, &open_eval(Color::White, 12_000, vec![4_000, 6_000]));
    let fixed = MctsParams::with_fpu(1000, FirstPlayUrgency::Absolute(VALUE_DRAW));
    assert_eq!(t.score_edge(&fixed, 0), ((VALUE_DRAW as u128 + 4_000) * 1_000_000, 1));
    let reduced = MctsParams::new(1000, 3_000);
    assert_eq!(t.score_edge(&reduced, 1), ((12_000 - 3_000 + 6_000) * 1_000_000, 1));
    let floor = MctsParams::new(1000, 15_000);
    assert_eq!(t.score_edge(&floor, 1), (6_000 * 1_000_000, 1));
}

#[test]
fn abandoned_claim_frees_the_edge() {
    let mut t = Tree::new(Color::White);
    t.select(&params());
    t.complete(0, &open_eval(Color::White, VALUE_DRAW, vec![10_000]));
    assert_eq!(t.select(&params()), Selection::Expand { slot: 1 });
    t.abandon(1);
    assert_eq!(t.edges[0].child, Child::Unexpanded);
    assert_eq!(t.edges[0].virtual_loss, 0);
    assert_eq!(t.pending, 0);
    assert_eq!(t.completed, 1);
    // the edge can be claimed again
    assert_eq!(t.select(&params()), Selection::Expand { slot: 2 });
}
