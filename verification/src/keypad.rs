//! The telephone keypad: which letters stand on which digit.
//!
//! Digits and letters are ASCII bytes: the digits `0` to `9` are 48 to 57, the
//! letters `a` to `z` are 97 to 122.

use vstd::prelude::*;

verus! {

/// Why a phone number was turned down.
#[derive(Clone, Copy, Debug, PartialEq, Eq, Structural)]
pub enum PhoneError {
    /// The number does not have seven characters, or one of them is no
    /// decimal digit.
    InvalidInput,
}

/// The length of a phone number, and so of each of its spellings.
pub const PHONE_LEN: usize = 7;

/// Whether the byte is one of the characters `0` to `9`.
pub open spec fn is_digit(b: u8) -> bool {
    48u8 <= b <= 57u8
}

/// A phone number is seven decimal digits.
pub open spec fn valid_phone(phone: Seq<u8>) -> bool {
    &&& phone.len() == PHONE_LEN
    &&& forall|i: int| 0 <= i < phone.len() ==> is_digit(#[trigger] phone[i])
}

/// The letters on the key of the digit character `d`, in keypad order. The
/// keys `0` and `1` carry no letters, and neither does a byte that is no digit.
pub open spec fn letters(d: u8) -> Seq<u8> {
    if d == 50u8 {
        seq![97u8, 98u8, 99u8]
    } else if d == 51u8 {
        seq![100u8, 101u8, 102u8]
    } else if d == 52u8 {
        seq![103u8, 104u8, 105u8]
    } else if d == 53u8 {
        seq![106u8, 107u8, 108u8]
    } else if d == 54u8 {
        seq![109u8, 110u8, 111u8]
    } else if d == 55u8 {
        seq![112u8, 113u8, 114u8, 115u8]
    } else if d == 56u8 {
        seq![116u8, 117u8, 118u8]
    } else if d == 57u8 {
        seq![119u8, 120u8, 121u8, 122u8]
    } else {
        Seq::empty()
    }
}

/// The letter sets of a phone number, position by position.
pub open spec fn letter_sets(phone: Seq<u8>) -> Seq<Seq<u8>> {
    Seq::new(phone.len(), |i: int| letters(phone[i]))
}

/// What a vector of byte vectors holds, as sequences.
pub open spec fn rows(v: Seq<Vec<u8>>) -> Seq<Seq<u8>> {
    Seq::new(v.len(), |i: int| v[i]@)
}

/// The letters on the key of the digit character `d`.
pub fn key_letters(d: u8) -> (set: Vec<u8>)
    ensures
        set@ == letters(d),
{
    let set = if d == 50u8 {
        vec![97u8, 98u8, 99u8]
    } else if d == 51u8 {
        vec![100u8, 101u8, 102u8]
    } else if d == 52u8 {
        vec![103u8, 104u8, 105u8]
    } else if d == 53u8 {
        vec![106u8, 107u8, 108u8]
    } else if d == 54u8 {
        vec![109u8, 110u8, 111u8]
    } else if d == 55u8 {
        vec![112u8, 113u8, 114u8, 115u8]
    } else if d == 56u8 {
        vec![116u8, 117u8, 118u8]
    } else if d == 57u8 {
        vec![119u8, 120u8, 121u8, 122u8]
    } else {
        Vec::new()
    };
    assert(set@ =~= letters(d));
    set
}

/// The letter set of each position of a phone number. A number that is not
/// seven decimal digits is turned down.
pub fn phone_to_chars(phone: Vec<u8>) -> (r: Result<Vec<Vec<u8>>, PhoneError>)
    ensures
        valid_phone(phone@) ==> r.is_ok() && rows(r.unwrap()@) == letter_sets(phone@),
        !valid_phone(phone@) ==> r == Err::<Vec<Vec<u8>>, PhoneError>(PhoneError::InvalidInput),
{
    if phone.len() != PHONE_LEN {
        return Err(PhoneError::InvalidInput);
    }
    let mut sets: Vec<Vec<u8>> = Vec::new();
    let mut i: usize = 0;
    while i < PHONE_LEN
        invariant
            phone.len() == PHONE_LEN,
            0 <= i <= PHONE_LEN,
            sets.len() == i,
            forall|j: int| 0 <= j < i ==> is_digit(#[trigger] phone[j]),
            forall|j: int| 0 <= j < i ==> (#[trigger] sets[j])@ == letters(phone[j]),
        decreases PHONE_LEN - i,
    {
        let d = phone[i];
        if d < 48u8 || d > 57u8 {
            return Err(PhoneError::InvalidInput);
        }
        sets.push(key_letters(d));
        i = i + 1;
    }
    assert(rows(sets@) =~= letter_sets(phone@));
    Ok(sets)
}

} // verus!
