use itertools::Itertools;
use phonewords::keypad::{key_letters, phone_to_chars, PhoneError};
use phonewords::product::phone_to_words;
use std::collections::HashSet;

fn spell(phone: &str) -> Vec<String> {
    phone_to_words(phone.as_bytes().to_vec()).unwrap()
}

#[test]
fn keys_carry_the_keypad_letters() {
    assert_eq!(key_letters(b'0'), b"".to_vec());
    assert_eq!(key_letters(b'1'), b"".to_vec());
    assert_eq!(key_letters(b'2'), b"abc".to_vec());
    assert_eq!(key_letters(b'3'), b"def".to_vec());
    assert_eq!(key_letters(b'4'), b"ghi".to_vec());
    assert_eq!(key_letters(b'5'), b"jkl".to_vec());
    assert_eq!(key_letters(b'6'), b"mno".to_vec());
    assert_eq!(key_letters(b'7'), b"pqrs".to_vec());
    assert_eq!(key_letters(b'8'), b"tuv".to_vec());
    assert_eq!(key_letters(b'9'), b"wxyz".to_vec());
    assert_eq!(key_letters(b'a'), b"".to_vec());
}

#[test]
fn letter_sets_follow_the_digits() {
    let sets = phone_to_chars(b"2345678".to_vec()).unwrap();
    let expected: Vec<Vec<u8>> = vec![
        b"abc".to_vec(),
        b"def".to_vec(),
        b"ghi".to_vec(),
        b"jkl".to_vec(),
        b"mno".to_vec(),
        b"pqrs".to_vec(),
        b"tuv".to_vec(),
    ];
    assert_eq!(sets, expected);
}

#[test]
fn letter_sets_of_keys_without_letters_are_empty() {
    let sets = phone_to_chars(b"0192837".to_vec()).unwrap();
    assert_eq!(sets.len(), 7);
    assert!(sets[0].is_empty());
    assert!(sets[1].is_empty());
    assert_eq!(sets[2], b"wxyz".to_vec());
}

#[test]
fn letter_sets_turn_down_bad_numbers() {
    assert_eq!(phone_to_chars(b"234567".to_vec()), Err(PhoneError::InvalidInput));
    assert_eq!(phone_to_chars(b"23456789".to_vec()), Err(PhoneError::InvalidInput));
    assert_eq!(phone_to_chars(b"23x5678".to_vec()), Err(PhoneError::InvalidInput));
    assert_eq!(phone_to_chars(Vec::new()), Err(PhoneError::InvalidInput));
}

#[test]
fn three_letter_keys_give_three_to_the_seventh() {
    assert_eq!(spell("2223333").len(), 2187);
}

#[test]
fn four_letter_keys_give_four_to_the_seventh() {
    assert_eq!(spell("7979797").len(), 16384);
}

#[test]
fn count_is_the_product_of_the_set_sizes() {
    assert_eq!(spell("2345678").len(), 3 * 3 * 3 * 3 * 3 * 4 * 3);
    assert_eq!(spell("7262679").len(), 4 * 3 * 3 * 3 * 3 * 4 * 4);
}

#[test]
fn spellings_come_in_product_order() {
    let words = spell("2345678");
    assert_eq!(words[0], "adgjmpt");
    assert_eq!(words[1], "adgjmpu");
    assert_eq!(words[2], "adgjmpv");
    assert_eq!(words[3], "adgjmqt");
    assert_eq!(words[12], "adgjnpt");
    assert_eq!(words[972], "bdgjmpt");
    assert_eq!(words[2915], "cfilosv");
    let mut sorted = words.clone();
    sorted.sort();
    assert_eq!(words, sorted);
}

#[test]
fn spellings_have_seven_letters_and_none_comes_twice() {
    let words = spell("2797439");
    assert_eq!(words.len(), 3 * 4 * 4 * 4 * 3 * 3 * 4);
    let mut seen = HashSet::new();
    for w in &words {
        assert_eq!(w.len(), 7);
        assert!(w.bytes().all(|b| b.is_ascii_lowercase()));
        assert!(seen.insert(w.clone()));
    }
}

#[test]
fn each_letter_stands_on_the_key_of_its_digit() {
    let phone = b"4663968";
    for w in spell("4663968") {
        for (i, b) in w.bytes().enumerate() {
            assert!(key_letters(phone[i]).contains(&b));
        }
    }
}

#[test]
fn spellings_agree_with_the_cartesian_product() {
    let sets = phone_to_chars(b"2738459".to_vec()).unwrap();
    let expected: Vec<String> = sets
        .iter()
        .map(|s| s.iter().cloned())
        .multi_cartesian_product()
        .map(|w| String::from_utf8(w).unwrap())
        .collect();
    assert_eq!(spell("2738459"), expected);
}

#[test]
fn spelling_twice_gives_the_same() {
    assert_eq!(spell("5552368"), spell("5552368"));
    assert_eq!(
        phone_to_words(b"55x2368".to_vec()),
        phone_to_words(b"55x2368".to_vec())
    );
}

#[test]
fn keys_without_letters_give_no_spelling() {
    assert_eq!(phone_to_words(b"2340567".to_vec()), Ok(Vec::new()));
    assert_eq!(phone_to_words(b"1234567".to_vec()), Ok(Vec::new()));
    assert_eq!(phone_to_words(b"0000000".to_vec()), Ok(Vec::new()));
    for phone in ["2340567", "1234567", "9999991"] {
        for w in spell(phone) {
            assert!(!w.contains('-'));
        }
    }
}

#[test]
fn bad_numbers_are_turned_down() {
    assert_eq!(phone_to_words(b"234567".to_vec()), Err(PhoneError::InvalidInput));
    assert_eq!(phone_to_words(b"23456789".to_vec()), Err(PhoneError::InvalidInput));
    assert_eq!(phone_to_words(b"234-678".to_vec()), Err(PhoneError::InvalidInput));
    assert_eq!(phone_to_words(b"abcdefg".to_vec()), Err(PhoneError::InvalidInput));
    assert_eq!(phone_to_words(b"".to_vec()), Err(PhoneError::InvalidInput));
    assert_eq!(
        phone_to_words(vec![0x32, 0x33, 0x34, 0xff, 0x36, 0x37, 0x38]),
        Err(PhoneError::InvalidInput)
    );
}
