use wordle_solver::bits::BitSet;
use wordle_solver::cache::new_cache;
use wordle_solver::policy::{MaxFreqPolicy, MinRemainingPolicy, OptimalPolicy, Policy};
use wordle_solver::resp::{compute_response_cache, ResponseCache};
use wordle_solver::sim::{simulate, SimStats};
use wordle_solver::solver::{compute_optimal_move, filter_and_sort_guesses, lower_bound};
use wordle_solver::strat::{
    compute_letter_frequencies, get_max_freq_score, get_min_remaining_score, pick_max_freq, pick_min_remaining,
    pick_optimal, sum_of_squares, OptimalGuessError,
};

fn w(s: &str) -> [u8; 5] {
    let b = s.as_bytes();
    [b[0], b[1], b[2], b[3], b[4]]
}

fn setup() -> (Vec<[u8; 5]>, Vec<[u8; 5]>, ResponseCache) {
    let guesses = vec![w("AAAAA"), w("BBBBB"), w("CCCCC"), w("ABCDE")];
    let candidates = vec![w("AAAAA"), w("BBBBB"), w("CCCCC")];
    let cache = compute_response_cache(&guesses, &candidates);
    (guesses, candidates, cache)
}

#[test]
fn solver_lower_bound() {
    assert_eq!(lower_bound(1), 1);
    assert_eq!(lower_bound(3), 5);
}

#[test]
fn sum_of_squares_adds_squares() {
    assert_eq!(sum_of_squares(&[1, 2, 3]), 14);
    assert_eq!(sum_of_squares(&[]), 0);
}

#[test]
fn letter_frequencies_count_words_not_letters() {
    let words = vec![w("AAAAA"), w("ABCDE"), w("ZZZZA")];
    let f = compute_letter_frequencies(&[0, 1, 2], &words);
    assert_eq!(f[0], 3);
    assert_eq!(f[1], 1);
    assert_eq!(f[25], 1);
    assert_eq!(f[5], 0);
    let f2 = compute_letter_frequencies(&[0, 0], &words);
    assert_eq!(f2[0], 2);
}

#[test]
fn max_freq_score_counts_each_letter_once() {
    let mut f = [0usize; 26];
    f[0] = 5;
    f[1] = 2;
    assert_eq!(get_max_freq_score(&w("AAAAB"), &f), 7);
    assert_eq!(get_max_freq_score(&w("CCCCC"), &f), 0);
}

#[test]
fn pick_max_freq_prefers_high_score_then_low_index() {
    let candidates = vec![w("AAAAA"), w("BBBBB"), w("CCCCC")];
    let guesses = vec![w("AAAAA"), w("ABCDE"), w("CBAXY")];
    // ABCDE and CBAXY both score 3; the lower index wins.
    assert_eq!(pick_max_freq(&[0, 1, 2], &[0, 1, 2], &candidates, &guesses), 1);
    assert_eq!(pick_max_freq(&[0, 1, 2], &[2, 1], &candidates, &guesses), 1);
    assert_eq!(pick_max_freq(&[0], &[0], &candidates, &guesses), 0);
}

#[test]
fn min_remaining_scores_and_pick() {
    let (_g, _c, cache) = setup();
    let all = BitSet::ones(3);
    // AAAAA: classes of sizes 1 and 2.
    assert_eq!(get_min_remaining_score(&all, &cache, 0), 5);
    // ABCDE: three singletons.
    assert_eq!(get_min_remaining_score(&all, &cache, 3), 3);
    assert_eq!(pick_min_remaining(&all, &[0, 1, 2, 3], &cache), 3);
    assert_eq!(pick_min_remaining(&all, &[2, 1], &cache), 1);
}

#[test]
fn filter_and_sort_keeps_informative_guesses_by_score() {
    let (_g, _c, cache) = setup();
    let all = BitSet::ones(3);
    assert_eq!(filter_and_sort_guesses(&[0, 1, 2, 3], &cache, &all, 3, 7), vec![3, 0, 1, 2]);
    // Nothing beats a bound of 6.
    assert!(filter_and_sort_guesses(&[0, 1, 2, 3], &cache, &all, 3, 6).is_empty());
}

#[test]
fn stats_count_words_and_guesses() {
    let mut s = SimStats::new();
    assert_eq!(s.total_guesses(), 0);
    assert_eq!(s.min_max(), (0, 0));
    s.inc(2);
    s.inc(3);
    s.inc(3);
    assert_eq!(s.total_words, 3);
    assert_eq!(s.total_guesses(), 8);
    assert_eq!(s.min_max(), (2, 3));
    assert_eq!(s.distribution.get(&3), Some(&2));
}

#[test]
fn simulate_min_remaining_total() {
    let (_g, _c, cache) = setup();
    let all = BitSet::ones(3);
    let policy = MinRemainingPolicy { response_cache: &cache, n_total_candidates: 3, n_total_guesses: 4 };
    assert_eq!(policy.pick(&all), Some(3));
    let stats = simulate(&cache, &all, &policy).unwrap();
    assert_eq!(stats.total_words, 3);
    assert_eq!(stats.total_guesses(), 6);
    assert_eq!(stats.min_max(), (2, 2));
}

#[test]
fn simulate_max_freq_total() {
    let (guesses, candidates, cache) = setup();
    let all = BitSet::ones(3);
    let policy = MaxFreqPolicy { all_candidates: &candidates, all_guesses: &guesses };
    assert_eq!(policy.pick(&all), Some(3));
    let stats = simulate(&cache, &all, &policy).unwrap();
    assert_eq!(stats.total_guesses(), 6);
}

#[test]
fn simulate_with_a_non_splitting_policy_fails() {
    // Only BBBBB may be guessed: it answers all black for each of the candidates.
    let guesses = vec![w("BBBBB")];
    let candidates = vec![w("AAAAA"), w("CCCCC"), w("DDDDD")];
    let cache = compute_response_cache(&guesses, &candidates);
    let policy = MinRemainingPolicy { response_cache: &cache, n_total_candidates: 3, n_total_guesses: 1 };
    assert!(simulate(&cache, &BitSet::ones(3), &policy).is_none());
}

#[test]
fn small_sets_need_no_guess_choice() {
    let (_g, _c, cache) = setup();
    let policy = MinRemainingPolicy { response_cache: &cache, n_total_candidates: 3, n_total_guesses: 0 };
    let mut two = BitSet::new(3);
    two.set(0, true);
    two.set(2, true);
    let stats = simulate(&cache, &two, &policy).unwrap();
    assert_eq!(stats.total_guesses(), 3);
    assert_eq!(stats.min_max(), (1, 2));
}

#[test]
fn optimal_move_matching_the_heuristic_total() {
    // The min-remaining strategy takes 6 guesses, which is the fewest; ABCDE splits the
    // three candidates into singletons (lowest score) and reaches 6 first.
    let (guesses, candidates, cache) = setup();
    let mut memo = new_cache();
    assert_eq!(compute_optimal_move(&candidates, &guesses, &cache, &mut memo), (3, 6));
}

#[test]
fn optimal_move_for_one_or_two_candidates() {
    let guesses = vec![w("CCCCC"), w("BBBBB"), w("AAAAA")];
    let one = vec![w("AAAAA")];
    let cache = compute_response_cache(&guesses, &one);
    let mut memo = new_cache();
    assert_eq!(compute_optimal_move(&one, &guesses, &cache, &mut memo), (2, 1));
    let two = vec![w("AAAAA"), w("BBBBB")];
    let cache = compute_response_cache(&guesses, &two);
    let mut memo = new_cache();
    assert_eq!(compute_optimal_move(&two, &guesses, &cache, &mut memo), (2, 3));
}

#[test]
fn optimal_move_on_small_game() {
    // BBBBC splits the candidates into singletons (8 guesses in all) and is what the
    // min-remaining strategy picks first; guessing a candidate instead wins on it (7).
    let guesses = vec![w("BBBBC"), w("BAAAA"), w("ABAAA"), w("AABAA"), w("AAABA")];
    let candidates = vec![w("BAAAA"), w("ABAAA"), w("AABAA"), w("AAABA")];
    let cache = compute_response_cache(&guesses, &candidates);
    let all = BitSet::ones(4);
    let policy = MinRemainingPolicy { response_cache: &cache, n_total_candidates: 4, n_total_guesses: 5 };
    assert_eq!(simulate(&cache, &all, &policy).unwrap().total_guesses(), 8);
    let mut memo = new_cache();
    let (g, cost) = compute_optimal_move(&candidates, &guesses, &cache, &mut memo);
    assert_eq!((g, cost), (1, 7));
    assert_eq!(cost, lower_bound(4));
}

#[test]
fn pick_optimal_reads_the_memo() {
    let (guesses, _c, cache) = setup();
    let all = BitSet::ones(3);
    let memo = new_cache();
    assert_eq!(pick_optimal(&all, 4, &cache, &memo), Err(OptimalGuessError::CacheMiss));
    memo.insert(all.clone(), 6);
    // AAAAA leaves a pair (3 more guesses) and wins on one: 3 + 3 = 6, the first match.
    assert_eq!(pick_optimal(&all, 4, &cache, &memo), Ok(0));
    let policy = OptimalPolicy { all_guesses: &guesses, response_cache: &cache, memo: &memo, n_total_candidates: 3 };
    assert_eq!(policy.pick(&all), Some(0));
    memo.insert(all.clone(), 5);
    assert_eq!(pick_optimal(&all, 4, &cache, &memo), Err(OptimalGuessError::Inconsistency(5)));
}
