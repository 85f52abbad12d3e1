//! All spellings of a phone number: the product of its letter sets.

use crate::keypad::{
    letter_sets, letters, phone_to_chars, rows, valid_phone, PhoneError, PHONE_LEN,
};
use vstd::prelude::*;

verus! {

/// Every word of `prefixes` followed by every letter of `set`: the words in
/// the order given, and for each word the letters in the order given.
pub open spec fn extend(prefixes: Seq<Seq<u8>>, set: Seq<u8>) -> Seq<Seq<u8>> {
    Seq::new(
        prefixes.len() * set.len(),
        |k: int| prefixes[k / (set.len() as int)].push(set[k % (set.len() as int)]),
    )
}

/// The product of the letter sets: every word that takes its letter at each
/// position from that position's set. The first position varies slowest and the
/// last one fastest.
pub open spec fn candidates(sets: Seq<Seq<u8>>) -> Seq<Seq<u8>>
    decreases sets.len(),
{
    if sets.len() == 0 {
        seq![Seq::<u8>::empty()]
    } else {
        extend(candidates(sets.drop_last()), sets.last())
    }
}

/// A word of ASCII bytes as characters.
pub open spec fn as_chars(word: Seq<u8>) -> Seq<char> {
    Seq::new(word.len(), |i: int| word[i] as char)
}

/// The spellings of a phone number, in the order of the product.
pub open spec fn words(phone: Seq<u8>) -> Seq<Seq<char>> {
    let c = candidates(letter_sets(phone));
    Seq::new(c.len(), |k: int| as_chars(c[k]))
}

/// What a vector of strings holds, as sequences of characters.
pub open spec fn texts(v: Seq<String>) -> Seq<Seq<char>> {
    Seq::new(v.len(), |k: int| v[k]@)
}

/// What spelling a phone number gives: for seven decimal digits all its
/// spellings in the order of the product, for anything else the error.
pub open spec fn spelled(phone: Seq<u8>, r: Result<Vec<String>, PhoneError>) -> bool {
    if valid_phone(phone) {
        r.is_ok() && texts(r.unwrap()@) == words(phone)
    } else {
        r == Err::<Vec<String>, PhoneError>(PhoneError::InvalidInput)
    }
}

/// The product of the sizes of the sets.
pub open spec fn size_product(sets: Seq<Seq<u8>>) -> int
    decreases sets.len(),
{
    if sets.len() == 0 {
        1
    } else {
        size_product(sets.drop_last()) * sets.last().len()
    }
}

/// Whether every byte is ASCII.
pub open spec fn all_ascii(word: Seq<u8>) -> bool {
    forall|i: int| 0 <= i < word.len() ==> (#[trigger] word[i]) < 128
}

/// `String::from_utf8` on ASCII bytes. Bytes below 128 are valid UTF-8, each
/// one the encoding of the character with that code, so the call succeeds and
/// the string holds those characters in order.
#[verifier::external_body]
fn ascii_string(word: Vec<u8>) -> (s: String)
    requires
        all_ascii(word@),
    ensures
        s@ == as_chars(word@),
{
    String::from_utf8(word).unwrap()
}

fn copy_word(word: &Vec<u8>) -> (copy: Vec<u8>)
    ensures
        copy@ == word@,
{
    let mut copy: Vec<u8> = Vec::new();
    let mut i: usize = 0;
    while i < word.len()
        invariant
            0 <= i <= word.len(),
            copy@ == word@.take(i as int),
        decreases word.len() - i,
    {
        copy.push(word[i]);
        proof {
            assert(copy@ =~= word@.take(i + 1));
        }
        i = i + 1;
    }
    proof {
        assert(word@.take(word.len() as int) =~= word@);
    }
    copy
}

/// The index `p * len + l` splits back into `p` and `l`.
proof fn lemma_div_mod_of(p: int, l: int, len: int)
    requires
        0 <= p,
        0 <= l < len,
    ensures
        (p * len + l) / len == p,
        (p * len + l) % len == l,
{
    vstd::arithmetic::div_mod::lemma_fundamental_div_mod_converse(p * len + l, len, p, l);
}

/// Every word of `prefixes` followed by every letter of `set`.
fn extend_words(prefixes: &Vec<Vec<u8>>, set: &Vec<u8>) -> (out: Vec<Vec<u8>>)
    ensures
        rows(out@) == extend(rows(prefixes@), set@),
{
    let mut out: Vec<Vec<u8>> = Vec::new();
    let ghost len = set.len() as int;
    let mut p: usize = 0;
    while p < prefixes.len()
        invariant
            0 <= p <= prefixes.len(),
            len == set.len(),
            out.len() == p * len,
            forall|k: int|
                0 <= k < out.len() ==> (#[trigger] out[k])@ == prefixes[k / len]@.push(
                    set[k % len],
                ),
        decreases prefixes.len() - p,
    {
        let mut l: usize = 0;
        while l < set.len()
            invariant
                0 <= p < prefixes.len(),
                0 <= l <= set.len(),
                len == set.len(),
                out.len() == p * len + l,
                forall|k: int|
                    0 <= k < out.len() ==> (#[trigger] out[k])@ == prefixes[k / len]@.push(
                        set[k % len],
                    ),
            decreases set.len() - l,
        {
            let mut word = copy_word(&prefixes[p]);
            word.push(set[l]);
            proof {
                lemma_div_mod_of(p as int, l as int, len);
            }
            out.push(word);
            l = l + 1;
        }
        proof {
            assert((p + 1) * len == p * len + len) by (nonlinear_arith);
        }
        p = p + 1;
    }
    proof {
        let target = extend(rows(prefixes@), set@);
        assert forall|k: int| 0 <= k < out.len() implies rows(out@)[k] == target[k] by {
            lemma_index_split(k, prefixes.len() as int, len);
            assert(rows(prefixes@)[k / len] == prefixes[k / len]@);
        }
        assert(rows(out@) =~= target);
    }
    out
}

/// All spellings of a phone number: the product of the letter sets of its
/// seven digits, the first digit varying slowest. A digit without letters
/// leaves no spelling at all. A number that is not seven decimal digits is
/// turned down.
pub fn phone_to_words(input: Vec<u8>) -> (r: Result<Vec<String>, PhoneError>)
    ensures
        spelled(input@, r),
{
    let ghost phone = input@;
    let sets = match phone_to_chars(input) {
        Ok(sets) => sets,
        Err(e) => {
            return Err(e);
        },
    };
    let mut acc: Vec<Vec<u8>> = Vec::new();
    acc.push(Vec::new());
    let mut i: usize = 0;
    proof {
        assert(rows(sets@).take(0) =~= Seq::<Seq<u8>>::empty());
        assert(rows(acc@) =~= candidates(rows(sets@).take(0)));
    }
    while i < sets.len()
        invariant
            0 <= i <= sets.len(),
            rows(acc@) == candidates(rows(sets@).take(i as int)),
        decreases sets.len() - i,
    {
        proof {
            let next = rows(sets@).take(i + 1);
            assert(next.drop_last() =~= rows(sets@).take(i as int));
            assert(next.last() == sets[i as int]@);
        }
        acc = extend_words(&acc, &sets[i]);
        i = i + 1;
    }
    proof {
        assert(rows(sets@).take(sets.len() as int) =~= rows(sets@));
        lemma_candidates_ascii(letter_sets(phone));
    }
    let mut out: Vec<String> = Vec::new();
    let mut k: usize = 0;
    while k < acc.len()
        invariant
            0 <= k <= acc.len(),
            out.len() == k,
            rows(acc@) == candidates(letter_sets(phone)),
            forall|j: int|
                0 <= j < acc.len() ==> all_ascii(#[trigger] candidates(letter_sets(phone))[j]),
            forall|j: int| 0 <= j < k ==> (#[trigger] out[j])@ == as_chars(acc[j]@),
        decreases acc.len() - k,
    {
        proof {
            assert(rows(acc@)[k as int] == acc[k as int]@);
        }
        let word = copy_word(&acc[k]);
        out.push(ascii_string(word));
        k = k + 1;
    }
    proof {
        assert(rows(acc@).len() == acc.len());
        assert forall|j: int| 0 <= j < out.len() implies texts(out@)[j] == words(phone)[j] by {
            assert(rows(acc@)[j] == acc[j]@);
        }
        assert(texts(out@) =~= words(phone));
    }
    Ok(out)
}

/// Whether every letter of every set is ASCII.
pub open spec fn sets_ascii(sets: Seq<Seq<u8>>) -> bool {
    forall|i: int| 0 <= i < sets.len() ==> all_ascii(#[trigger] sets[i])
}

proof fn lemma_candidates_ascii(sets: Seq<Seq<u8>>)
    requires
        sets_ascii(sets),
    ensures
        forall|j: int| 0 <= j < candidates(sets).len() ==> all_ascii(#[trigger] candidates(sets)[j]),
    decreases sets.len(),
{
    if sets.len() > 0 {
        let init = sets.drop_last();
        let last = sets.last();
        assert(sets_ascii(init)) by {
            assert forall|i: int| 0 <= i < init.len() implies all_ascii(#[trigger] init[i]) by {
                assert(init[i] == sets[i]);
            }
        }
        lemma_candidates_ascii(init);
        let prev = candidates(init);
        let len = last.len() as int;
        assert forall|j: int| 0 <= j < candidates(sets).len() implies all_ascii(
            #[trigger] candidates(sets)[j],
        ) by {
            lemma_index_split(j, prev.len() as int, len);
            assert(all_ascii(prev[j / len]));
            assert(all_ascii(last));
        }
    }
}

/// An index below `n * len` splits into a quotient below `n` and a remainder
/// below `len`.
proof fn lemma_index_split(j: int, n: int, len: int)
    requires
        0 <= j < n * len,
        0 <= n,
        0 <= len,
    ensures
        0 < len,
        0 <= j / len < n,
        0 <= j % len < len,
        j == (j / len) * len + j % len,
{
    assert(0 < len) by (nonlinear_arith)
        requires
            0 <= j < n * len,
            0 <= len,
    ;
    vstd::arithmetic::div_mod::lemma_fundamental_div_mod(j, len);
    vstd::arithmetic::div_mod::lemma_mod_bound(j, len);
    let q = j / len;
    let r = j % len;
    assert(j == len * q + r);
    assert(q < n) by (nonlinear_arith)
        requires
            j == len * q + r,
            0 <= r,
            j < n * len,
            0 < len,
    ;
    assert(0 <= q) by (nonlinear_arith)
        requires
            j == len * q + r,
            r < len,
            0 <= j,
            0 < len,
    ;
    assert(len * q == q * len) by (nonlinear_arith);
}

proof fn lemma_candidates_shape(sets: Seq<Seq<u8>>)
    ensures
        candidates(sets).len() == size_product(sets),
        forall|j: int|
            0 <= j < candidates(sets).len() ==> (#[trigger] candidates(sets)[j]).len()
                == sets.len(),
        forall|j: int, i: int|
            0 <= j < candidates(sets).len() && 0 <= i < sets.len() ==> (#[trigger] sets[i]).contains(
                (#[trigger] candidates(sets)[j])[i],
            ),
    decreases sets.len(),
{
    if sets.len() > 0 {
        let init = sets.drop_last();
        let last = sets.last();
        let prev = candidates(init);
        let len = last.len() as int;
        lemma_candidates_shape(init);
        assert forall|j: int| 0 <= j < candidates(sets).len() implies (#[trigger] candidates(
            sets,
        )[j]).len() == sets.len() && (forall|i: int|
            0 <= i < sets.len() ==> (#[trigger] sets[i]).contains(candidates(sets)[j][i])) by {
            lemma_index_split(j, prev.len() as int, len);
            let word = prev[j / len];
            assert(candidates(sets)[j] == word.push(last[j % len]));
            assert forall|i: int| 0 <= i < sets.len() implies (#[trigger] sets[i]).contains(
                candidates(sets)[j][i],
            ) by {
                if i < init.len() {
                    assert(init[i] == sets[i]);
                    assert(init[i].contains(word[i]));
                } else {
                    assert(last[j % len] == candidates(sets)[j][i]);
                }
            }
        }
    }
}

/// Whether no set holds a letter twice.
pub open spec fn sets_distinct(sets: Seq<Seq<u8>>) -> bool {
    forall|i: int| 0 <= i < sets.len() ==> (#[trigger] sets[i]).no_duplicates()
}

proof fn lemma_candidates_distinct(sets: Seq<Seq<u8>>)
    requires
        sets_distinct(sets),
    ensures
        forall|j: int, k: int|
            0 <= j < candidates(sets).len() && 0 <= k < candidates(sets).len() && j != k
                ==> #[trigger] candidates(sets)[j] != #[trigger] candidates(sets)[k],
    decreases sets.len(),
{
    if sets.len() > 0 {
        let init = sets.drop_last();
        let last = sets.last();
        let prev = candidates(init);
        let len = last.len() as int;
        assert(sets_distinct(init)) by {
            assert forall|i: int| 0 <= i < init.len() implies (#[trigger] init[i]).no_duplicates() by {
                assert(init[i] == sets[i]);
            }
        }
        lemma_candidates_distinct(init);
        assert(last.no_duplicates());
        assert forall|j: int, k: int|
            0 <= j < candidates(sets).len() && 0 <= k < candidates(sets).len() && j != k implies
            #[trigger] candidates(sets)[j] != #[trigger] candidates(sets)[k] by {
            lemma_index_split(j, prev.len() as int, len);
            lemma_index_split(k, prev.len() as int, len);
            let a = prev[j / len].push(last[j % len]);
            let b = prev[k / len].push(last[k % len]);
            assert(a.drop_last() =~= prev[j / len]);
            assert(b.drop_last() =~= prev[k / len]);
            assert(a.last() == last[j % len]);
            assert(b.last() == last[k % len]);
            if j / len == k / len {
                assert(j % len != k % len);
            }
        }
    }
}

proof fn lemma_size_product_zero(sets: Seq<Seq<u8>>, i: int)
    requires
        0 <= i < sets.len(),
        sets[i].len() == 0,
    ensures
        size_product(sets) == 0,
    decreases sets.len(),
{
    if i < sets.len() - 1 {
        let init = sets.drop_last();
        assert(init[i] == sets[i]);
        lemma_size_product_zero(init, i);
    }
    assert(size_product(sets) == 0) by (nonlinear_arith)
        requires
            size_product(sets) == size_product(sets.drop_last()) * sets.last().len(),
            size_product(sets.drop_last()) == 0 || sets.last().len() == 0,
    ;
}

proof fn lemma_letters_distinct(d: u8)
    ensures
        letters(d).no_duplicates(),
{
}

/// The spellings of a phone number are as many as the product of the sizes of
/// its letter sets. Each has seven letters, each letter is one of those on the
/// key of the digit at its position, all are ASCII, and no spelling comes
/// twice.
pub proof fn lemma_spellings(phone: Seq<u8>)
    requires
        valid_phone(phone),
    ensures
        words(phone).len() == size_product(letter_sets(phone)),
        forall|k: int|
            0 <= k < words(phone).len() ==> (#[trigger] words(phone)[k]).len() == PHONE_LEN,
        forall|k: int, i: int|
            0 <= k < words(phone).len() && 0 <= i < PHONE_LEN ==> as_chars(
                letters(#[trigger] phone[i]),
            ).contains((#[trigger] words(phone)[k])[i]),
        forall|k: int|
            0 <= k < words(phone).len() ==> vstd::utf8::is_ascii_chars(#[trigger] words(phone)[k]),
        forall|j: int, k: int|
            0 <= j < k < words(phone).len() ==> #[trigger] words(phone)[j] != #[trigger] words(
                phone,
            )[k],
{
    let sets = letter_sets(phone);
    lemma_candidates_ascii(sets);
    assert forall|k: int| 0 <= k < words(phone).len() implies vstd::utf8::is_ascii_chars(
        #[trigger] words(phone)[k],
    ) by {
        assert(all_ascii(candidates(sets)[k]));
    }
    let c = candidates(sets);
    lemma_candidates_shape(sets);
    assert(sets_distinct(sets)) by {
        assert forall|i: int| 0 <= i < sets.len() implies (#[trigger] sets[i]).no_duplicates() by {
            lemma_letters_distinct(phone[i]);
        }
    }
    lemma_candidates_distinct(sets);
    assert forall|k: int, i: int| 0 <= k < words(phone).len() && 0 <= i < PHONE_LEN implies as_chars(
        letters(#[trigger] phone[i]),
    ).contains((#[trigger] words(phone)[k])[i]) by {
        let set = letters(phone[i]);
        assert(sets[i].contains(c[k][i]));
        let at = choose|at: int| 0 <= at < set.len() && set[at] == c[k][i];
        assert(as_chars(set)[at] == words(phone)[k][i]);
    }
    assert forall|j: int, k: int| 0 <= j < k < words(phone).len() implies #[trigger] words(phone)[j]
        != #[trigger] words(phone)[k] by {
        assert(c[j] != c[k]);
        if as_chars(c[j]) == as_chars(c[k]) {
            assert forall|i: int| 0 <= i < c[j].len() implies c[j][i] == c[k][i] by {
                assert(as_chars(c[j])[i] == as_chars(c[k])[i]);
            }
            assert(c[j] =~= c[k]);
        }
    }
}

/// A phone number that holds the digit `0` or `1`, whose keys carry no letters,
/// has no spelling.
pub proof fn lemma_unlettered_digit(phone: Seq<u8>, i: int)
    requires
        valid_phone(phone),
        0 <= i < PHONE_LEN,
        phone[i] == 48 || phone[i] == 49,
    ensures
        words(phone).len() == 0,
{
    lemma_candidates_shape(letter_sets(phone));
    lemma_size_product_zero(letter_sets(phone), i);
}

/// Two results of spelling one phone number say the same: both are the error,
/// or both hold the same spellings in the same order.
pub proof fn lemma_spelled_once(
    phone: Seq<u8>,
    first: Result<Vec<String>, PhoneError>,
    second: Result<Vec<String>, PhoneError>,
)
    requires
        spelled(phone, first),
        spelled(phone, second),
    ensures
        first.is_ok() == second.is_ok(),
        first.is_ok() ==> texts(first.unwrap()@) == texts(second.unwrap()@),
        first.is_err() ==> first == second,
{
}

} // verus!
