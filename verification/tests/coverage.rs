use phonewords::coverage::{is_covered, Match};

fn ms(ranges: &[(usize, usize)]) -> Vec<Match> {
    ranges.iter().map(|&(start, end)| Match { start, end }).collect()
}

#[test]
fn adjacent_words_tile() {
    assert!(is_covered(&ms(&[(0, 4), (4, 7)]), 7));
}

#[test]
fn a_gap_does_not_tile() {
    assert!(!is_covered(&ms(&[(0, 3), (5, 7)]), 7));
}

#[test]
fn overlapping_words_merge() {
    assert!(is_covered(&ms(&[(0, 5), (2, 7)]), 7));
}

#[test]
fn one_word_over_the_whole_length_tiles() {
    assert!(is_covered(&ms(&[(0, 7)]), 7));
}

#[test]
fn no_match_covers_only_the_empty_text() {
    assert!(is_covered(&ms(&[]), 0));
    assert!(!is_covered(&ms(&[]), 7));
}

#[test]
fn a_short_cover_does_not_tile() {
    assert!(!is_covered(&ms(&[(0, 6)]), 7));
    assert!(!is_covered(&ms(&[(1, 7)]), 7));
    assert!(is_covered(&ms(&[(1, 7)]), 6));
}

#[test]
fn a_contained_word_adds_nothing() {
    assert!(is_covered(&ms(&[(0, 7), (2, 4)]), 7));
    assert!(!is_covered(&ms(&[(0, 5), (2, 4)]), 7));
    assert!(is_covered(&ms(&[(0, 5), (2, 4)]), 5));
}

#[test]
fn three_words_in_a_row_tile() {
    assert!(is_covered(&ms(&[(0, 2), (2, 5), (5, 7)]), 7));
    assert!(is_covered(&ms(&[(0, 2), (1, 3), (2, 5), (4, 7)]), 7));
}

#[test]
fn closed_intervals_are_counted_on_both_sides_of_a_gap() {
    assert!(is_covered(&ms(&[(0, 3), (5, 7)]), 5));
    assert!(!is_covered(&ms(&[(0, 3), (5, 7)]), 2));
    assert!(is_covered(&ms(&[(0, 1), (2, 3), (4, 5)]), 3));
}

#[test]
fn a_late_word_that_reaches_back_widens_the_open_interval() {
    assert!(is_covered(&ms(&[(3, 5), (1, 6)]), 5));
    assert!(is_covered(&ms(&[(1, 3), (0, 7)]), 7));
}

#[test]
fn empty_matches_cover_nothing() {
    assert!(is_covered(&ms(&[(0, 0), (3, 3)]), 0));
    assert!(is_covered(&ms(&[(0, 0), (0, 7), (7, 7)]), 7));
}

#[test]
fn large_offsets_do_not_overflow() {
    let far = usize::MAX;
    assert!(is_covered(&ms(&[(0, far)]), far));
    assert!(!is_covered(&ms(&[(0, far), (far, far), (0, far)]), far));
}
