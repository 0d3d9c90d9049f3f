use wordle_solver::bits::BitSet;
use wordle_solver::policy::{MaxFreqPolicy, MinRemainingPolicy};
use wordle_solver::resp::compute_response_cache;
use wordle_solver::solve::strategy_builder::StrategyBuilder;

fn w(s: &str) -> [u8; 5] {
    let b = s.as_bytes();
    [b[0], b[1], b[2], b[3], b[4]]
}

#[test]
fn builder_follows_the_policy_and_shares_nodes() {
    let guesses = vec![w("AAAAA"), w("BBBBB"), w("CCCCC"), w("ABCDE")];
    let candidates = vec![w("AAAAA"), w("BBBBB"), w("CCCCC")];
    let cache = compute_response_cache(&guesses, &candidates);
    let policy = MaxFreqPolicy { all_candidates: &candidates, all_guesses: &guesses };
    let builder = StrategyBuilder::new(&cache, 3, 4, policy);
    let strategy = builder.build(&BitSet::ones(3), 42).unwrap();
    assert_eq!(strategy.context_hash, 42);
    let root = &strategy.nodes[strategy.root];
    // ABCDE splits the three candidates into singletons.
    assert_eq!(root.guess, 3);
    let keys: Vec<&str> = root.children.iter().map(|(k, _)| k.as_str()).collect();
    assert_eq!(keys, vec!["GBBBB", "BGBBB", "BBGBB"]);
    // Each singleton is then guessed directly (its own letters score highest): a leaf.
    for (_, child) in &root.children {
        assert!(*child < strategy.root);
        assert!(strategy.nodes[*child].children.is_empty());
    }
    assert_eq!(strategy.nodes[root.children[0].1].guess, 0);
    assert_eq!(strategy.nodes.len(), 4);
}

#[test]
fn builder_fails_on_a_policy_that_does_not_split() {
    let guesses = vec![w("BBBBB")];
    let candidates = vec![w("AAAAA"), w("CCCCC"), w("DDDDD")];
    let cache = compute_response_cache(&guesses, &candidates);
    let policy = MaxFreqPolicy { all_candidates: &candidates, all_guesses: &guesses };
    assert!(StrategyBuilder::new(&cache, 3, 1, policy).build(&BitSet::ones(3), 0).is_none());
}

#[test]
fn builder_fails_when_a_single_candidate_is_not_guessed() {
    // For one candidate every guess leaves one class, so min-remaining takes the lowest
    // index, AAAAA, which does not win on BBBBB.
    let guesses = vec![w("AAAAA"), w("BBBBB"), w("CCCCC"), w("ABCDE")];
    let candidates = vec![w("AAAAA"), w("BBBBB"), w("CCCCC")];
    let cache = compute_response_cache(&guesses, &candidates);
    let policy = MinRemainingPolicy { response_cache: &cache, n_total_candidates: 3, n_total_guesses: 4 };
    assert!(StrategyBuilder::new(&cache, 3, 4, policy).build(&BitSet::ones(3), 0).is_none());
    let mut single = BitSet::new(3);
    single.set(0, true);
    let policy = MinRemainingPolicy { response_cache: &cache, n_total_candidates: 3, n_total_guesses: 4 };
    let strategy = StrategyBuilder::new(&cache, 3, 4, policy).build(&single, 0).unwrap();
    assert_eq!(strategy.nodes.len(), 1);
    assert_eq!(strategy.nodes[0].guess, 0);
}
