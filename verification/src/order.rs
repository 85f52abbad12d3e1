//! Bringing matches into the order of their starts, which the sweep needs.

use crate::coverage::{all_wf, all_within, covered_at, covered_below, starts_ascending, Match};
use vstd::prelude::*;

verus! {

/// Where `m` goes among `ms`: behind the last match that starts no later.
pub open spec fn place(ms: Seq<Match>, m: Match) -> int
    decreases ms.len(),
{
    if ms.len() == 0 || ms.last().start <= m.start {
        ms.len() as int
    } else {
        place(ms.drop_last(), m)
    }
}

/// The matches in the order of their starts; matches with one start keep the
/// order they came in.
pub open spec fn by_start(ms: Seq<Match>) -> Seq<Match>
    decreases ms.len(),
{
    if ms.len() == 0 {
        ms
    } else {
        let sorted = by_start(ms.drop_last());
        sorted.insert(place(sorted, ms.last()), ms.last())
    }
}

proof fn lemma_place(ms: Seq<Match>, m: Match)
    ensures
        0 <= place(ms, m) <= ms.len(),
        place(ms, m) > 0 ==> ms[place(ms, m) - 1].start <= m.start,
        forall|k: int| place(ms, m) <= k < ms.len() ==> (#[trigger] ms[k]).start > m.start,
    decreases ms.len(),
{
    if !(ms.len() == 0 || ms.last().start <= m.start) {
        lemma_place(ms.drop_last(), m);
        let init = ms.drop_last();
        assert forall|k: int| place(ms, m) <= k < ms.len() implies (#[trigger] ms[k]).start
            > m.start by {
            if k < init.len() {
                assert(init[k] == ms[k]);
            }
        }
    }
}

/// Sorting by start keeps every match, as often as it came, and puts the
/// starts in ascending order.
pub proof fn lemma_by_start(ms: Seq<Match>)
    ensures
        by_start(ms).to_multiset() == ms.to_multiset(),
        by_start(ms).len() == ms.len(),
        starts_ascending(by_start(ms)),
    decreases ms.len(),
{
    broadcast use vstd::seq_lib::group_to_multiset_ensures;

    if ms.len() > 0 {
        let init = ms.drop_last();
        let m = ms.last();
        lemma_by_start(init);
        let sorted = by_start(init);
        let at = place(sorted, m);
        lemma_place(sorted, m);
        let out = sorted.insert(at, m);
        assert(out.remove(at) =~= sorted);
        assert(out[at] == m);
        assert(out.to_multiset().remove(m) =~= sorted.to_multiset());
        assert(out.contains(m));
        assert(out.to_multiset() =~= sorted.to_multiset().insert(m));
        assert(ms =~= init.push(m));
        assert(ms.to_multiset() =~= init.to_multiset().insert(m));
        assert forall|j: int, k: int| 0 <= j <= k < out.len() implies (#[trigger] out[j]).start <= (
        #[trigger] out[k]).start by {
            if j < at {
                assert(out[j] == sorted[j]);
                assert(sorted[j].start <= sorted[at - 1].start);
            }
            if k > at {
                assert(out[k] == sorted[k - 1]);
            }
            if j > at {
                assert(out[j] == sorted[j - 1]);
            }
            if k < at {
                assert(out[k] == sorted[k]);
            }
        }
    }
}

/// Sorting by start keeps the same matches.
pub proof fn lemma_by_start_members(ms: Seq<Match>)
    ensures
        forall|m: Match| ms.contains(m) == #[trigger] by_start(ms).contains(m),
{
    broadcast use vstd::seq_lib::group_to_multiset_ensures;

    lemma_by_start(ms);
    assert forall|m: Match| ms.contains(m) == #[trigger] by_start(ms).contains(m) by {
        assert(ms.to_multiset().count(m) == by_start(ms).to_multiset().count(m));
    }
}

/// Sorting by start changes nothing in what the matches are: they stay
/// ranges, they stay within the bound, and they hold the same offsets, so
/// they cover the same.
pub proof fn lemma_by_start_keeps(ms: Seq<Match>, n: int)
    ensures
        all_wf(ms) == all_wf(by_start(ms)),
        all_within(ms, n) == all_within(by_start(ms), n),
        forall|i: int| covered_at(ms, i) == #[trigger] covered_at(by_start(ms), i),
        covered_below(ms, n) == covered_below(by_start(ms), n),
{
    broadcast use vstd::seq_lib::group_to_multiset_ensures;

    lemma_by_start_members(ms);
    let out = by_start(ms);
    lemma_same_members(ms, out, n);
    lemma_same_members(out, ms, n);
    if covered_below(out, n) {
        assert forall|i: int| 0 <= i < n implies covered_at(ms, i) by {
            assert(covered_at(out, i));
        }
    }
}

proof fn lemma_same_members(a: Seq<Match>, b: Seq<Match>, n: int)
    requires
        forall|m: Match| a.contains(m) == b.contains(m),
    ensures
        all_wf(a) ==> all_wf(b),
        all_within(a, n) ==> all_within(b, n),
        forall|i: int| covered_at(a, i) ==> #[trigger] covered_at(b, i),
{
    assert forall|k: int| 0 <= k < b.len() implies a.contains(#[trigger] b[k]) by {
        assert(b.contains(b[k]));
    }
    if all_wf(a) {
        assert forall|k: int| 0 <= k < b.len() implies (#[trigger] b[k]).wf() by {
            let j = choose|j: int| 0 <= j < a.len() && a[j] == b[k];
            assert(a[j].wf());
        }
    }
    if all_within(a, n) {
        assert forall|k: int| 0 <= k < b.len() implies (#[trigger] b[k]).end <= n by {
            let j = choose|j: int| 0 <= j < a.len() && a[j] == b[k];
            assert(a[j].end <= n);
        }
    }
    assert forall|i: int| covered_at(a, i) implies #[trigger] covered_at(b, i) by {
        let j = choose|j: int| 0 <= j < a.len() && (#[trigger] a[j]).holds(i);
        assert(a.contains(a[j]));
        assert(b.contains(a[j]));
        let k = choose|k: int| 0 <= k < b.len() && b[k] == a[j];
        assert(b[k].holds(i));
    }
}

/// The matches in the order of their starts; matches with one start keep the
/// order they came in.
pub fn sort_by_start(ms: &Vec<Match>) -> (out: Vec<Match>)
    ensures
        out@ == by_start(ms@),
{
    let mut out: Vec<Match> = Vec::new();
    let mut k: usize = 0;
    proof {
        assert(ms@.take(0) =~= Seq::<Match>::empty());
    }
    while k < ms.len()
        invariant
            0 <= k <= ms.len(),
            out@ == by_start(ms@.take(k as int)),
        decreases ms.len() - k,
    {
        let m = ms[k];
        let mut at: usize = out.len();
        proof {
            assert(out@.take(at as int) =~= out@);
        }
        while at > 0 && out[at - 1].start > m.start
            invariant
                0 <= at <= out.len(),
                place(out@, m) == place(out@.take(at as int), m),
            decreases at,
        {
            proof {
                let head = out@.take(at as int);
                assert(head.last() == out[at - 1]);
                assert(head.drop_last() =~= out@.take(at - 1));
            }
            at = at - 1;
        }
        proof {
            let head = out@.take(at as int);
            if at > 0 {
                assert(head.last() == out[at - 1]);
            }
            assert(place(head, m) == at);
            let next = ms@.take(k + 1);
            assert(next.drop_last() =~= ms@.take(k as int));
            assert(next.last() == m);
        }
        out.insert(at, m);
        k = k + 1;
    }
    proof {
        assert(ms@.take(ms.len() as int) =~= ms@);
    }
    out
}

} // verus!
