//! The dictionary: a multi-pattern automaton over the word list, and the
//! spellings of a phone number that its words tile.

use crate::coverage::{
    all_wf, all_within, covered_at, covered_below, is_covered, lemma_merged_length_is_cover,
    merged_length, starts_ascending, Match,
};
use crate::keypad::{valid_phone, PhoneError, PHONE_LEN};
use crate::order::{
    by_start, lemma_by_start, lemma_by_start_keeps, lemma_by_start_members, sort_by_start,
};
use crate::product::{lemma_spellings, phone_to_words, texts, words};
use aho_corasick::{AcAutomaton, Automaton, Dense};
use vstd::prelude::*;
use vstd::utf8::is_ascii_chars;

verus! {

/// `aho_corasick::AcAutomaton`, taken as it is: nothing is known of what is
/// inside.
#[verifier::external_type_specification]
#[verifier::external_body]
#[verifier::reject_recursive_types(P)]
#[verifier::reject_recursive_types(T)]
pub struct ExAcAutomaton<P, T>(AcAutomaton<P, T>);

/// `aho_corasick::Dense`, the automaton's table of transitions, taken as it is.
#[verifier::external_type_specification]
#[verifier::external_body]
pub struct ExDense(Dense);

/// The patterns that an automaton was built from, in the order given.
pub uninterp spec fn patterns_of(automaton: AcAutomaton<String, Dense>) -> Seq<Seq<char>>;

/// The occurrences of the patterns in a text, overlapping ones included, in the
/// order in which the automaton reports them.
pub uninterp spec fn overlapping_matches(patterns: Seq<Seq<char>>, text: Seq<char>) -> Seq<Match>;

/// `AcAutomaton::new`: the automaton keeps the patterns it is given, in their
/// order.
#[verifier::external_body]
fn build_automaton(entries: Vec<String>) -> (automaton: AcAutomaton<String, Dense>)
    ensures
        patterns_of(automaton) == texts(entries@),
{
    AcAutomaton::new(entries)
}

/// Whether `m` is an occurrence of a pattern in `text`: a range of the text
/// that is not empty and reads as one of the patterns.
pub open spec fn occurs(patterns: Seq<Seq<char>>, text: Seq<char>, m: Match) -> bool {
    &&& m.start < m.end <= text.len()
    &&& patterns.contains(text.subrange(m.start as int, m.end as int))
}

/// Whether `ms` holds the occurrences of the patterns in `text`: each match is
/// one, and each occurrence is among the matches.
pub open spec fn reports_occurrences(
    ms: Seq<Match>,
    patterns: Seq<Seq<char>>,
    text: Seq<char>,
) -> bool {
    &&& forall|k: int| 0 <= k < ms.len() ==> occurs(patterns, text, #[trigger] ms[k])
    &&& forall|m: Match| #[trigger] occurs(patterns, text, m) ==> ms.contains(m)
}

/// `Automaton::find_overlapping`, run to its end. What it reports depends on
/// the patterns and the text alone. Each match is a range, since its end is its
/// start plus the pattern's length. For an ASCII text, where offsets in bytes
/// are offsets in characters, the matches are the occurrences of the patterns:
/// the automaton reports every place where a pattern that is not empty stands
/// in the text, overlapping ones included, and nothing else.
#[verifier::external_body]
fn scan(automaton: &AcAutomaton<String, Dense>, text: &String) -> (ms: Vec<Match>)
    ensures
        ms@ == overlapping_matches(patterns_of(*automaton), text@),
        all_wf(ms@),
        is_ascii_chars(text@) ==> reports_occurrences(ms@, patterns_of(*automaton), text@),
{
    automaton
        .find_overlapping(text.as_str())
        .map(|m| Match { start: m.start, end: m.end })
        .collect()
}

/// The occurrences of the patterns in a text, in the order of their starts.
pub open spec fn occurrences(patterns: Seq<Seq<char>>, text: Seq<char>) -> Seq<Match> {
    by_start(overlapping_matches(patterns, text))
}

/// Whether the occurrences of the patterns in `text` merge to a total length
/// of `spanning`.
pub open spec fn tiles(patterns: Seq<Seq<char>>, text: Seq<char>, spanning: int) -> bool {
    merged_length(occurrences(patterns, text)) == spanning
}

/// Whether offset `i` of `text` lies in an occurrence of a pattern.
pub open spec fn in_a_word(patterns: Seq<Seq<char>>, text: Seq<char>, i: int) -> bool {
    exists|m: Match| #[trigger] occurs(patterns, text, m) && m.holds(i)
}

/// Whether every offset below `spanning` lies in an occurrence of a pattern in
/// `text`: the patterns cover the text from its start up to `spanning` and
/// leave no gap.
pub open spec fn fully_covered(patterns: Seq<Seq<char>>, text: Seq<char>, spanning: int) -> bool {
    forall|i: int| 0 <= i < spanning ==> in_a_word(patterns, text, i)
}

/// Matches that are the occurrences of the patterns cover what the patterns
/// cover.
proof fn lemma_reported_cover(ms: Seq<Match>, patterns: Seq<Seq<char>>, text: Seq<char>, n: int)
    requires
        reports_occurrences(ms, patterns, text),
    ensures
        covered_below(ms, n) == fully_covered(patterns, text, n),
        all_within(ms, text.len() as int),
{
    assert forall|i: int| covered_at(ms, i) == in_a_word(patterns, text, i) by {
        if covered_at(ms, i) {
            let k = choose|k: int| 0 <= k < ms.len() && (#[trigger] ms[k]).holds(i);
            assert(occurs(patterns, text, ms[k]));
        }
        if in_a_word(patterns, text, i) {
            let m = choose|m: Match| #[trigger] occurs(patterns, text, m) && m.holds(i);
            assert(ms.contains(m));
            let k = choose|k: int| 0 <= k < ms.len() && ms[k] == m;
            assert(ms[k].holds(i));
        }
    }
    if covered_below(ms, n) {
        assert forall|i: int| 0 <= i < n implies in_a_word(patterns, text, i) by {
            assert(covered_at(ms, i));
        }
    }
    if fully_covered(patterns, text, n) {
        assert forall|i: int| 0 <= i < n implies covered_at(ms, i) by {
            assert(in_a_word(patterns, text, i));
        }
    }
}

/// A word list, compiled for searching.
pub struct Dictionary {
    automaton: AcAutomaton<String, Dense>,
}

impl Dictionary {
    /// The words of the dictionary.
    pub closed spec fn entries(&self) -> Seq<Seq<char>> {
        patterns_of(self.automaton)
    }

    /// Compiles a word list.
    pub fn new(entries: Vec<String>) -> (dictionary: Dictionary)
        ensures
            dictionary.entries() == texts(entries@),
    {
        Dictionary { automaton: build_automaton(entries) }
    }

    /// All occurrences of dictionary words in `text`, overlapping ones
    /// included, in the order of their starts.
    pub fn find_overlapping(&self, text: &String) -> (ms: Vec<Match>)
        ensures
            ms@ == occurrences(self.entries(), text@),
            all_wf(ms@),
            starts_ascending(ms@),
            is_ascii_chars(text@) ==> reports_occurrences(ms@, self.entries(), text@),
    {
        let found = scan(&self.automaton, text);
        let ms = sort_by_start(&found);
        proof {
            lemma_by_start(found@);
            lemma_by_start_keeps(found@, text@.len() as int);
            lemma_by_start_members(found@);
            if is_ascii_chars(text@) {
                assert forall|k: int| 0 <= k < ms.len() implies occurs(
                    self.entries(),
                    text@,
                    #[trigger] ms[k],
                ) by {
                    assert(ms@.contains(ms[k]));
                    let j = choose|j: int| 0 <= j < found.len() && found[j] == ms[k];
                    assert(occurs(self.entries(), text@, found[j]));
                }
            }
        }
        ms
    }

    /// Whether the occurrences of dictionary words in `text` merge to a total
    /// length of `spanning`. For an ASCII text no longer than `spanning` that
    /// is the case exactly when dictionary words cover every offset below
    /// `spanning`.
    pub fn covers(&self, text: &String, spanning: usize) -> (covered: bool)
        ensures
            covered == tiles(self.entries(), text@, spanning as int),
            is_ascii_chars(text@) && text@.len() <= spanning ==> covered == fully_covered(
                self.entries(),
                text@,
                spanning as int,
            ),
    {
        let ms = self.find_overlapping(text);
        proof {
            if is_ascii_chars(text@) && text@.len() <= spanning {
                lemma_reported_cover(ms@, self.entries(), text@, spanning as int);
                assert(all_within(ms@, spanning as int));
                lemma_merged_length_is_cover(ms@, spanning as int);
            }
        }
        is_covered(&ms, spanning)
    }

    /// The spellings of a phone number that dictionary words cover from end to
    /// end, in the order of the product. A number that is not seven decimal
    /// digits is turned down.
    pub fn mnemonics(&self, phone: Vec<u8>) -> (r: Result<Vec<String>, PhoneError>)
        ensures
            valid_phone(phone@) ==> r.is_ok() && texts(r.unwrap()@) == words(phone@).filter(
                |w: Seq<char>| fully_covered(self.entries(), w, PHONE_LEN as int),
            ),
            !valid_phone(phone@) ==> r == Err::<Vec<String>, PhoneError>(PhoneError::InvalidInput),
    {
        let ghost all = words(phone@);
        let ghost keep = |w: Seq<char>| fully_covered(self.entries(), w, PHONE_LEN as int);
        let ghost valid = valid_phone(phone@);
        proof {
            if valid {
                lemma_spellings(phone@);
            }
        }
        let spellings = match phone_to_words(phone) {
            Ok(spellings) => spellings,
            Err(e) => {
                return Err(e);
            },
        };
        let mut found: Vec<String> = Vec::new();
        let mut k: usize = 0;
        proof {
            assert(all.take(0) =~= Seq::<Seq<char>>::empty());
            assert(texts(found@) =~= all.take(0).filter(keep));
        }
        while k < spellings.len()
            invariant
                0 <= k <= spellings.len(),
                texts(spellings@) == all,
                forall|j: int|
                    0 <= j < all.len() ==> (#[trigger] all[j]).len() == PHONE_LEN && is_ascii_chars(
                        all[j],
                    ),
                keep == |w: Seq<char>| fully_covered(self.entries(), w, PHONE_LEN as int),
                texts(found@) == all.take(k as int).filter(keep),
            decreases spellings.len() - k,
        {
            proof {
                let next = all.take(k + 1);
                assert(next.drop_last() =~= all.take(k as int));
                assert(next.last() == spellings[k as int]@);
                assert(all[k as int] == spellings[k as int]@);
                reveal(Seq::filter);
            }
            let ghost before = texts(found@);
            if self.covers(&spellings[k], PHONE_LEN) {
                found.push(spellings[k].clone());
                proof {
                    assert(texts(found@) =~= before.push(spellings[k as int]@));
                }
            }
            k = k + 1;
        }
        proof {
            assert(all.take(spellings.len() as int) =~= all);
        }
        Ok(found)
    }
}

} // verus!
