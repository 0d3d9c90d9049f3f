use wordle_solver::bits::BitSet;
use wordle_solver::part::{generate_partitions, get_partition_counts, get_partitions};
use wordle_solver::resp::{compute_response_cache, get_lazy_partitions, build_partition_map, CORRECT_IDX};

fn w(s: &str) -> [u8; 5] {
    let b = s.as_bytes();
    [b[0], b[1], b[2], b[3], b[4]]
}

#[test]
fn partitions_leave_out_the_win() {
    let guesses = vec![w("AAAAA"), w("ABCDE")];
    let candidates = vec![w("AAAAA"), w("BBBBB"), w("CCCCC")];
    let cache = compute_response_cache(&guesses, &candidates);
    let all = BitSet::ones(3);
    let counts = get_partition_counts(&all, &cache, 0);
    assert_eq!(counts.len(), 243);
    assert_eq!(counts[0], 2);
    assert_eq!(counts[CORRECT_IDX], 1);
    assert_eq!(counts.iter().sum::<usize>(), 3);
    let parts = generate_partitions(&all, &cache, 0);
    assert_eq!(parts.len(), 1);
    assert_eq!(parts[0].1, 2);
    assert!(!parts[0].0.get(0) && parts[0].0.get(1) && parts[0].0.get(2));
    let with_resp = get_partitions(&all, &cache, 1);
    let resps: Vec<usize> = with_resp.iter().map(|(r, _)| *r).collect();
    assert_eq!(resps, vec![2, 6, 18]);
}

#[test]
fn lazy_partitions_build_sets_only_when_large() {
    let guesses = vec![w("ZZZZZ"), w("AAAAA")];
    let candidates = vec![w("AAAAA"), w("BBBBB"), w("CCCCC"), w("DDDDD")];
    let cache = compute_response_cache(&guesses, &candidates);
    let map = build_partition_map(&cache);
    let all = BitSet::ones(4);
    // ZZZZZ answers all black for every candidate: one class of four.
    let lazy = get_lazy_partitions(0, &all, &map);
    assert_eq!(lazy.len(), 1);
    assert_eq!(lazy[0].0, 0);
    assert_eq!(lazy[0].2, 4);
    assert_eq!(lazy[0].1.as_ref().map(|b| b.count_ones()), Some(4));
    // AAAAA: a class of three and the win.
    let lazy = get_lazy_partitions(1, &all, &map);
    assert_eq!(lazy.len(), 2);
    assert_eq!(lazy[0].2, 3);
    assert!(lazy[0].1.is_some());
    assert_eq!(lazy[1].0, CORRECT_IDX);
    assert!(lazy[1].1.is_none());
}
