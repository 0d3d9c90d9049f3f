use wordle_solver::bits::BitSet;
use wordle_solver::play::{filter_candidates, parse_response, response_is_possible, ResponseInputError};
use wordle_solver::resp::{compute_response_cache, response_to_index, B, G, Y};
use wordle_solver::words::add_missing_words;

fn w(s: &str) -> [u8; 5] {
    let b = s.as_bytes();
    [b[0], b[1], b[2], b[3], b[4]]
}

#[test]
fn parse_response_reads_letters() {
    assert_eq!(parse_response("BGYBB"), Ok([B, G, Y, B, B]));
    assert_eq!(parse_response("GGGGG"), Ok([G, G, G, G, G]));
}

#[test]
fn parse_response_rejects_bad_length() {
    assert_eq!(parse_response("BGY"), Err(ResponseInputError::BadLength));
    assert_eq!(parse_response("BGYBBB"), Err(ResponseInputError::BadLength));
    // Five characters, but six bytes.
    assert_eq!(parse_response("BGYBÉ"), Err(ResponseInputError::BadLength));
}

#[test]
fn parse_response_lists_invalid_characters_once() {
    assert_eq!(parse_response("BXZXB"), Err(ResponseInputError::InvalidChars(vec!['X', 'Z'])));
}

#[test]
fn responses_are_possible_only_for_remaining_candidates() {
    let candidates = vec![w("AAAAA"), w("BBBBB"), w("CCCCC")];
    let mut remaining = BitSet::new(3);
    remaining.set(1, true);
    let all_black = response_to_index(&[B, B, B, B, B]);
    let all_green = response_to_index(&[G, G, G, G, G]);
    assert!(response_is_possible(&w("AAAAA"), &remaining, &candidates, all_black));
    assert!(!response_is_possible(&w("AAAAA"), &remaining, &candidates, all_green));
    remaining.set(0, true);
    assert!(response_is_possible(&w("AAAAA"), &remaining, &candidates, all_green));
}

#[test]
fn filter_keeps_the_candidates_giving_the_response() {
    let guesses = vec![w("AAAAA"), w("ABCDE")];
    let candidates = vec![w("AAAAA"), w("BBBBB"), w("CCCCC")];
    let cache = compute_response_cache(&guesses, &candidates);
    let all = BitSet::ones(3);
    let black = filter_candidates(&all, &cache, 0, 0);
    assert!(!black.get(0) && black.get(1) && black.get(2));
    let only_b = filter_candidates(&all, &cache, 1, 6);
    assert_eq!(only_b.count_ones(), 1);
    assert!(only_b.get(1));
    assert!(filter_candidates(&black, &cache, 0, 242).is_empty());
}

#[test]
fn missing_candidates_join_the_guesses() {
    let mut guesses = vec!["CRANE".to_string(), "SLATE".to_string()];
    let candidates = vec!["SLATE".to_string(), "ABACK".to_string(), "ABACK".to_string(), "ZEBRA".to_string()];
    assert_eq!(add_missing_words(&mut guesses, &candidates), 2);
    assert_eq!(guesses, vec!["CRANE", "SLATE", "ABACK", "ZEBRA"]);
    assert_eq!(add_missing_words(&mut guesses, &candidates), 0);
}
