use wordle_solver::game;
use wordle_solver::game::{compute_cidx_to_gidx_map, compute_lower_bounds, lower_bound};
use wordle_solver::game::strat::{Strategy, StrategyNode};

fn w(s: &str) -> [u8; 5] {
    let b = s.as_bytes();
    [b[0], b[1], b[2], b[3], b[4]]
}

#[test]
fn lower_bound_of_sizes() {
    assert_eq!(lower_bound(0), 0);
    assert_eq!(lower_bound(1), 1);
    assert_eq!(lower_bound(2), 3);
    assert_eq!(lower_bound(10), 19);
}

#[test]
fn lower_bounds_table() {
    assert_eq!(compute_lower_bounds(4), vec![0, 1, 3, 5, 7]);
    assert_eq!(compute_lower_bounds(0), vec![0]);
}

#[test]
fn candidates_map_to_their_guess_index() {
    let guesses = vec![w("ABACK"), w("CRANE"), w("SLATE"), w("CRANE")];
    let candidates = vec![w("SLATE"), w("CRANE"), w("ABACK")];
    // A word listed twice among the guesses maps to its last place.
    assert_eq!(compute_cidx_to_gidx_map(&candidates, &guesses), vec![2, 3, 0]);
}

#[test]
fn strategy_nodes_hold_children() {
    let children = vec![("BBBBB".to_string(), 1)];
    let node = StrategyNode { guess: 3, children };
    let strategy = Strategy { context_hash: 7, root: 0, nodes: vec![node.clone(), StrategyNode { guess: 1, children: Vec::new() }] };
    assert_eq!(strategy.nodes[strategy.root].guess, 3);
    assert_eq!(strategy.nodes[0].children[0], ("BBBBB".to_string(), 1));
}

#[test]
fn game_response_to_index_reads_b_y_g() {
    assert_eq!(game::response_to_index(&[game::B, game::B, game::B, game::B, game::B]), 0);
    assert_eq!(game::response_to_index(&[game::Y, game::B, game::B, game::B, game::G]), 1 + 2 * 81);
    assert_eq!(game::response_to_index(&[game::G, game::G, game::G, game::G, game::G]), 242);
}
