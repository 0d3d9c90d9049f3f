use std::collections::HashSet;
use wordle_solver::resp::{
    build_partition_map, compute_response_cache, get_partition_counts, get_partitions, get_resp, index_to_response,
    is_resp_char, response_to_index, ResponseCache, B, B_IDX, CHAR_TO_RESP_IDX, CORRECT, CORRECT_IDX, G, G_IDX,
    N_RESPONSES, Y, Y_IDX,
};
use wordle_solver::bits::BitSet;

fn w(s: &str) -> [u8; 5] {
    let b = s.as_bytes();
    [b[0], b[1], b[2], b[3], b[4]]
}

#[test]
fn test_bitwise_hashing_logic() {
    // B is ASCII 66 (01000010), ends in 10 (2). Map[2] should be 0.
    assert_eq!(CHAR_TO_RESP_IDX[(B & 3) as usize], B_IDX);
    // Y is ASCII 89 (01011001), ends in 01 (1). Map[1] should be 1.
    assert_eq!(CHAR_TO_RESP_IDX[(Y & 3) as usize], Y_IDX);
    // G is ASCII 71 (01000111), ends in 11 (3). Map[3] should be 2.
    assert_eq!(CHAR_TO_RESP_IDX[(G & 3) as usize], G_IDX);
}

#[test]
fn test_min_max_values() {
    let all_black = [B, B, B, B, B];
    assert_eq!(response_to_index(&all_black), 0);
    assert_eq!(index_to_response(0), all_black);
    let all_green = CORRECT;
    assert_eq!(response_to_index(&all_green), CORRECT_IDX);
    assert_eq!(index_to_response(CORRECT_IDX), all_green);
}

#[test]
fn test_mixed_values() {
    // 0*1 + 1*3 + 2*9 + 0*27 + 1*81 = 3 + 18 + 81 = 102
    let pattern = [B, Y, G, B, Y];
    let idx = response_to_index(&pattern);
    assert_eq!(idx, 102);
    assert_eq!(index_to_response(102), pattern);
}

#[test]
fn test_round_trip_all() {
    for i in 0..N_RESPONSES {
        let resp = index_to_response(i);
        let idx = response_to_index(&resp);
        assert_eq!(i, idx, "Failed round trip at index {}", i);
    }
}

#[test]
fn test_all_indices_produce_unique_patterns() {
    let mut seen_patterns = HashSet::new();
    for i in 0..N_RESPONSES {
        let resp = index_to_response(i);
        let is_unique = seen_patterns.insert(resp);
        assert!(is_unique, "Duplicate pattern {:?} for index {}!", resp, i);
    }
}

#[test]
fn test_all_responses_contain_valid_chars() {
    for i in 0..N_RESPONSES {
        let resp = index_to_response(i);
        for (char_idx, &c) in resp.iter().enumerate() {
            assert!(is_resp_char(c), "Pattern {:?} contains invalid character {} at pos {}", resp, c, char_idx);
        }
    }
}

#[test]
fn response_chars_are_recognised() {
    assert!(is_resp_char(b'B'));
    assert!(is_resp_char(b'Y'));
    assert!(is_resp_char(b'G'));
    assert!(!is_resp_char(b'A'));
    assert!(!is_resp_char(b'g'));
}

#[test]
fn response_round_trip_from_pattern() {
    let pattern = [G, G, Y, B, Y];
    assert_eq!(index_to_response(response_to_index(&pattern)), pattern);
}

#[test]
fn get_resp_marks_greens_and_yellows() {
    // CRANE against REACT: C yellow, R yellow, A green, N black, E yellow.
    assert_eq!(get_resp(&w("CRANE"), &w("REACT")), [Y, Y, G, B, Y]);
}

#[test]
fn get_resp_counts_repeated_letters_once() {
    // SPEED against ABIDE: only one E is in ABIDE, at the last place; the D is yellow.
    assert_eq!(get_resp(&w("SPEED"), &w("ABIDE")), [B, B, Y, B, Y]);
    // ALLEY against LLAMA: L green in second place, first L yellow, A yellow.
    assert_eq!(get_resp(&w("ALLEY"), &w("LLAMA")), [Y, G, Y, B, B]);
}

#[test]
fn get_resp_is_all_green_exactly_on_equal_words() {
    assert_eq!(get_resp(&w("WORDS"), &w("WORDS")), CORRECT);
    assert_ne!(get_resp(&w("WORDS"), &w("SWORD")), CORRECT);
}

fn small_cache() -> (Vec<[u8; 5]>, Vec<[u8; 5]>, ResponseCache) {
    let guesses = vec![w("AAAAA"), w("BBBBB"), w("CCCCC"), w("ABCDE")];
    let candidates = vec![w("AAAAA"), w("BBBBB"), w("CCCCC")];
    let cache = compute_response_cache(&guesses, &candidates);
    (guesses, candidates, cache)
}

#[test]
fn response_cache_holds_response_indices() {
    let (guesses, candidates, cache) = small_cache();
    assert_eq!(cache.stride(), 3);
    for g in 0..guesses.len() {
        for c in 0..candidates.len() {
            let expected = response_to_index(&get_resp(&guesses[g], &candidates[c])) as u8;
            assert_eq!(cache.get(g, c), expected);
        }
        assert_eq!(cache.get_row(g).len(), 3);
    }
    assert_eq!(cache.get(0, 0) as usize, CORRECT_IDX);
    assert_eq!(cache.get(3, 1), 6);
}

#[test]
fn response_cache_new_keeps_data() {
    let cache = ResponseCache::new(vec![1, 2, 3, 4, 5, 6], 3);
    assert_eq!(cache.stride(), 3);
    assert_eq!(cache.get(1, 2), 6);
    assert_eq!(cache.get_row(0), &[1, 2, 3]);
}

#[test]
fn partition_map_lists_nonempty_classes() {
    let (_g, _c, cache) = small_cache();
    let map = build_partition_map(&cache);
    assert_eq!(map.len(), 4);
    // Guess AAAAA: BBBBB and CCCCC answer all black, AAAAA wins.
    assert_eq!(map[0].len(), 2);
    assert_eq!(map[0][0].0, 0);
    assert_eq!(map[0][1].0, CORRECT_IDX);
    let all = BitSet::ones(3);
    let counts = get_partition_counts(0, &all, &map);
    assert_eq!(counts, vec![(0, 2), (CORRECT_IDX, 1)]);
    let parts = get_partitions(3, &all, &map);
    assert_eq!(parts.len(), 3);
    assert_eq!(parts[0].0, 2);
    assert_eq!(parts[1].0, 6);
    assert_eq!(parts[2].0, 18);
    for (_, p, n) in &parts {
        assert_eq!(*n, 1);
        assert_eq!(p.count_ones(), 1);
    }
}
