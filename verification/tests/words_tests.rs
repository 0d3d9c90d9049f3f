use wordle_solver::words::{arr_to_word, is_letter_char, letter_to_index, parse_words, words_to_arr, N_CHARS};

#[test]
fn letter_chars_and_indices() {
    assert!(is_letter_char(b'A'));
    assert!(is_letter_char(b'Z'));
    assert!(!is_letter_char(b'a'));
    assert!(!is_letter_char(b'@'));
    assert!(!is_letter_char(b'['));
    assert_eq!(letter_to_index(b'A'), 0);
    assert_eq!(letter_to_index(b'Z'), 25);
}

#[test]
fn parse_keeps_unique_upper_cased_words_of_the_length() {
    let words = parse_words("crane Slate\n\tcrane  ab12c toolong bird CRANE\u{3000}fishy", N_CHARS);
    assert_eq!(words, vec!["CRANE".to_string(), "SLATE".to_string(), "FISHY".to_string()]);
}

#[test]
fn parse_of_blank_text_is_empty() {
    assert!(parse_words("   \n\t ", N_CHARS).is_empty());
    assert!(parse_words("", 5).is_empty());
}

#[test]
fn parse_counts_bytes_not_characters() {
    // Four characters but five bytes: the length is measured in bytes.
    let words = parse_words("abcé", 5);
    assert!(words.is_empty());
    let words = parse_words("abcd", 4);
    assert_eq!(words, vec!["ABCD".to_string()]);
}

#[test]
fn words_to_arr_sorts_in_dictionary_order() {
    let words = vec!["SLATE".to_string(), "ABACK".to_string(), "CRANE".to_string()];
    let arr = words_to_arr(&words);
    assert_eq!(arr, vec![*b"ABACK", *b"CRANE", *b"SLATE"]);
}

#[test]
fn arr_to_word_spells_the_bytes() {
    assert_eq!(arr_to_word(b"CRANE"), "CRANE");
    let arr = words_to_arr(&vec!["ZEBRA".to_string()]);
    assert_eq!(arr_to_word(&arr[0]), "ZEBRA");
}

#[test]
fn parse_measures_the_upper_cased_word() {
    // U+FB00 is three bytes and upper-cases to "FF": "\u{FB00}AB" is five bytes but the word is "FFAB".
    assert!(parse_words("\u{FB00}AB", 5).is_empty());
    assert_eq!(parse_words("\u{FB00}AB", 4), vec!["FFAB".to_string()]);
}

#[test]
fn parse_tests_the_characters_themselves() {
    // U+0141 has the low byte of 'A', but it is no letter A-Z.
    assert!(parse_words("\u{141}ABC", 5).is_empty());
    assert!(parse_words("\u{141}ABC", 4).is_empty());
}
