use phonewords::coverage::{is_covered, Match};
use phonewords::dictionary::Dictionary;
use phonewords::keypad::PhoneError;
use phonewords::order::sort_by_start;

fn dictionary(entries: &[&str]) -> Dictionary {
    Dictionary::new(entries.iter().map(|w| w.to_string()).collect())
}

fn ms(ranges: &[(usize, usize)]) -> Vec<Match> {
    ranges.iter().map(|&(start, end)| Match { start, end }).collect()
}

#[test]
fn sorting_orders_by_start_and_keeps_ties_in_place() {
    assert_eq!(sort_by_start(&ms(&[])), ms(&[]));
    assert_eq!(sort_by_start(&ms(&[(3, 4)])), ms(&[(3, 4)]));
    assert_eq!(
        sort_by_start(&ms(&[(1, 3), (0, 4), (4, 7)])),
        ms(&[(0, 4), (1, 3), (4, 7)])
    );
    assert_eq!(
        sort_by_start(&ms(&[(2, 3), (0, 5), (2, 9), (0, 1), (2, 4)])),
        ms(&[(0, 5), (0, 1), (2, 3), (2, 9), (2, 4)])
    );
    assert_eq!(
        sort_by_start(&ms(&[(6, 7), (5, 7), (4, 7), (3, 7)])),
        ms(&[(3, 7), (4, 7), (5, 7), (6, 7)])
    );
}

#[test]
fn occurrences_come_in_the_order_of_their_starts() {
    let d = dictionary(&["abcd", "efg", "bc"]);
    let found = d.find_overlapping(&"abcdefg".to_string());
    assert_eq!(found, ms(&[(0, 4), (1, 3), (4, 7)]));
}

#[test]
fn overlapping_occurrences_are_all_found() {
    let d = dictionary(&["aa"]);
    let found = d.find_overlapping(&"aaaa".to_string());
    assert_eq!(found, ms(&[(0, 2), (1, 3), (2, 4)]));
}

#[test]
fn a_text_without_dictionary_words_has_no_occurrence() {
    let d = dictionary(&["cat", "dog"]);
    assert_eq!(d.find_overlapping(&"abcdefg".to_string()), ms(&[]));
    assert_eq!(dictionary(&[]).find_overlapping(&"abcdefg".to_string()), ms(&[]));
}

#[test]
fn two_words_in_a_row_cover() {
    let d = dictionary(&["abcd", "efg"]);
    assert!(d.covers(&"abcdefg".to_string(), 7));
    assert!(!d.covers(&"abcdefh".to_string(), 7));
}

#[test]
fn overlapping_words_cover() {
    let d = dictionary(&["abcde", "cdefg"]);
    assert!(d.covers(&"abcdefg".to_string(), 7));
}

#[test]
fn one_word_covers() {
    let d = dictionary(&["abcdefg"]);
    assert!(d.covers(&"abcdefg".to_string(), 7));
    assert!(!d.covers(&"abcdefg".to_string(), 6));
}

#[test]
fn a_gap_is_seen_whatever_the_order_of_the_ends() {
    let d = dictionary(&["ab", "cd", "bcde", "g"]);
    let text = "abcdefg".to_string();
    assert_eq!(d.find_overlapping(&text), ms(&[(0, 2), (1, 5), (2, 4), (6, 7)]));
    assert!(!d.covers(&text, 7));
    assert!(is_covered(&ms(&[(0, 2), (2, 4), (1, 5), (6, 7)]), 7));
}

#[test]
fn a_short_word_inside_a_long_one_covers() {
    let d = dictionary(&["bc", "abcd", "efg"]);
    assert!(d.covers(&"abcdefg".to_string(), 7));
}

#[test]
fn mnemonics_are_the_covered_spellings() {
    let d = dictionary(&["cat", "bat", "feed", "dog"]);
    assert_eq!(
        d.mnemonics(b"2283333".to_vec()),
        Ok(vec!["batfeed".to_string(), "catfeed".to_string()])
    );
}

#[test]
fn mnemonics_of_single_letters_are_all_spellings() {
    let d = dictionary(&["a", "b", "c", "d", "e", "f"]);
    let found = d.mnemonics(b"2223333".to_vec()).unwrap();
    assert_eq!(found.len(), 2187);
    assert_eq!(found[0], "aaadddd");
    assert_eq!(found[2186], "cccffff");
}

#[test]
fn an_empty_dictionary_gives_no_mnemonic() {
    assert_eq!(dictionary(&[]).mnemonics(b"2283333".to_vec()), Ok(Vec::new()));
}

#[test]
fn mnemonics_of_a_number_without_letters_are_none() {
    let d = dictionary(&["cat", "feed", "----", "-"]);
    assert_eq!(d.mnemonics(b"2280333".to_vec()), Ok(Vec::new()));
    assert_eq!(d.mnemonics(b"1111111".to_vec()), Ok(Vec::new()));
}

#[test]
fn mnemonics_turn_down_bad_numbers() {
    let d = dictionary(&["cat", "feed"]);
    assert_eq!(d.mnemonics(b"228333".to_vec()), Err(PhoneError::InvalidInput));
    assert_eq!(d.mnemonics(b"22833333".to_vec()), Err(PhoneError::InvalidInput));
    assert_eq!(d.mnemonics(b"228e333".to_vec()), Err(PhoneError::InvalidInput));
}
