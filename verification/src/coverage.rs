//! Deciding whether a run of dictionary matches tiles a text without gaps.

use vstd::prelude::*;

verus! {

/// One occurrence of a dictionary word in a text: the half-open range
/// `[start, end)` of offsets that it occupies.
#[derive(Clone, Copy, Debug, PartialEq, Eq)]
pub struct Match {
    pub start: usize,
    pub end: usize,
}

impl Match {
    /// A match is a range: it does not end before it starts.
    pub open spec fn wf(self) -> bool {
        self.start <= self.end
    }

    /// Whether offset `i` lies inside the match.
    pub open spec fn holds(self, i: int) -> bool {
        self.start <= i < self.end
    }
}

/// The state of the sweep over the matches: the interval `[low, high)` that
/// is being merged, and the total length `span` of the intervals that were
/// closed before it.
pub struct Sweep {
    pub low: int,
    pub high: int,
    pub span: int,
}

/// The sweep before any match was seen.
pub open spec fn sweep_start() -> Sweep {
    Sweep { low: 0, high: 0, span: 0 }
}

/// One step of the sweep. A match that starts at or beyond `high` closes the
/// current interval, whose length goes to `span`, and opens a new one: the
/// length is counted whether the match follows at once or after a gap. Any
/// other match is merged into the current interval, which grows on either
/// side to hold it.
pub open spec fn sweep_step(s: Sweep, m: Match) -> Sweep {
    if m.start >= s.high {
        Sweep { low: m.start as int, high: m.end as int, span: s.span + (s.high - s.low) }
    } else {
        Sweep {
            low: if m.start < s.low { m.start as int } else { s.low },
            high: if m.end > s.high { m.end as int } else { s.high },
            span: s.span,
        }
    }
}

/// The sweep after all of `ms`, taken in order.
pub open spec fn sweep(ms: Seq<Match>) -> Sweep
    decreases ms.len(),
{
    if ms.len() == 0 {
        sweep_start()
    } else {
        sweep_step(sweep(ms.drop_last()), ms.last())
    }
}

/// The total length of the merged intervals of `ms`: what was closed, and the
/// interval still open at the end.
pub open spec fn merged_length(ms: Seq<Match>) -> int {
    let s = sweep(ms);
    s.span + (s.high - s.low)
}

/// All matches are ranges.
pub open spec fn all_wf(ms: Seq<Match>) -> bool {
    forall|k: int| 0 <= k < ms.len() ==> (#[trigger] ms[k]).wf()
}

/// Whether the merged intervals of `matches`, swept in the order given, add
/// up to `spanning`.
pub fn is_covered(matches: &Vec<Match>, spanning: usize) -> (covered: bool)
    requires
        all_wf(matches@),
    ensures
        covered == (merged_length(matches@) == spanning),
{
    let mut low: usize = 0;
    let mut high: usize = 0;
    let mut span: u128 = 0;
    let n: usize = matches.len();
    let mut k: usize = 0;
    proof {
        assert(matches@.take(0) =~= Seq::<Match>::empty());
    }
    while k < n
        invariant
            n == matches.len(),
            0 <= k <= n,
            all_wf(matches@),
            low == sweep(matches@.take(k as int)).low,
            high == sweep(matches@.take(k as int)).high,
            span == sweep(matches@.take(k as int)).span,
            low <= high,
            span <= k * usize::MAX,
        decreases n - k,
    {
        let m = matches[k];
        proof {
            let next = matches@.take(k + 1);
            assert(next.drop_last() =~= matches@.take(k as int));
            assert(next.last() == m);
            assert(m.wf());
            assert(k * usize::MAX + usize::MAX == (k + 1) * usize::MAX) by (nonlinear_arith);
            assert((k + 1) * usize::MAX <= 0xffff_ffff_ffff_ffff * 0xffff_ffff_ffff_ffff)
                by (nonlinear_arith)
                requires
                    k + 1 <= 0xffff_ffff_ffff_ffff,
                    usize::MAX <= 0xffff_ffff_ffff_ffff,
            ;
        }
        if m.start >= high {
            span = span + ((high - low) as u128);
            low = m.start;
            high = m.end;
        } else {
            if m.start < low {
                low = m.start;
            }
            if m.end > high {
                high = m.end;
            }
        }
        k = k + 1;
    }
    proof {
        assert(matches@.take(n as int) =~= matches@);
        assert(n * usize::MAX <= 0xffff_ffff_ffff_ffff * 0xffff_ffff_ffff_ffff) by (nonlinear_arith)
            requires
                n <= 0xffff_ffff_ffff_ffff,
                usize::MAX <= 0xffff_ffff_ffff_ffff,
        ;
    }
    span + ((high - low) as u128) == spanning as u128
}

/// The matches come in the order of their starts.
pub open spec fn starts_ascending(ms: Seq<Match>) -> bool {
    forall|j: int, k: int|
        0 <= j <= k < ms.len() ==> (#[trigger] ms[j]).start <= (#[trigger] ms[k]).start
}

/// No match reaches beyond offset `n`.
pub open spec fn all_within(ms: Seq<Match>, n: int) -> bool {
    forall|k: int| 0 <= k < ms.len() ==> (#[trigger] ms[k]).end <= n
}

/// Whether some match holds offset `i`.
pub open spec fn covered_at(ms: Seq<Match>, i: int) -> bool {
    exists|k: int| 0 <= k < ms.len() && (#[trigger] ms[k]).holds(i)
}

/// Whether every offset below `n` lies in some match.
pub open spec fn covered_below(ms: Seq<Match>, n: int) -> bool {
    forall|i: int| 0 <= i < n ==> covered_at(ms, i)
}

proof fn lemma_covered_last(ms: Seq<Match>, i: int)
    requires
        ms.len() > 0,
    ensures
        covered_at(ms, i) == (covered_at(ms.drop_last(), i) || ms.last().holds(i)),
{
    let init = ms.drop_last();
    if covered_at(ms, i) {
        let k = choose|k: int| 0 <= k < ms.len() && (#[trigger] ms[k]).holds(i);
        if k < init.len() {
            assert(init[k].holds(i));
        }
    }
    if covered_at(init, i) {
        let k = choose|k: int| 0 <= k < init.len() && (#[trigger] init[k]).holds(i);
        assert(ms[k].holds(i));
    }
    if ms.last().holds(i) {
        assert(ms[ms.len() - 1].holds(i));
    }
}

/// What the sweep knows after `ms`, when the starts ascend and no match reaches
/// beyond `n`: the open interval is covered, nothing beyond it is, and what was
/// closed adds up to `low` exactly when everything below `low` is covered.
spec fn sweep_inv(ms: Seq<Match>, n: int) -> bool {
    let s = sweep(ms);
    &&& 0 <= s.span <= s.low <= s.high <= n
    &&& ms.len() > 0 ==> s.low <= ms.last().start
    &&& forall|i: int| s.low <= i < s.high ==> covered_at(ms, i)
    &&& forall|i: int| s.high <= i ==> !covered_at(ms, i)
    &&& (s.span == s.low) == covered_below(ms, s.low)
}

proof fn lemma_sweep_inv(ms: Seq<Match>, n: int)
    requires
        0 <= n,
        all_wf(ms),
        starts_ascending(ms),
        all_within(ms, n),
    ensures
        sweep_inv(ms, n),
    decreases ms.len(),
{
    if ms.len() == 0 {
        assert(covered_below(ms, 0));
    } else {
        let init = ms.drop_last();
        let m = ms.last();
        assert forall|k: int| 0 <= k < init.len() implies init[k] == ms[k] by {}
        assert(all_wf(init));
        assert(starts_ascending(init));
        assert(all_within(init, n));
        lemma_sweep_inv(init, n);
        let p = sweep(init);
        let s = sweep(ms);
        assert(m.wf() && m.end <= n);
        assert(p.low <= m.start) by {
            if init.len() > 0 {
                assert(init.last() == ms[ms.len() - 2]);
                assert(ms[ms.len() - 2].start <= ms[ms.len() - 1].start);
            }
        }
        assert forall|i: int|
            covered_at(ms, i) == (covered_at(init, i) || m.holds(i)) by {
            lemma_covered_last(ms, i);
        }
        if m.start >= p.high {
            if s.span == s.low {
                assert(p.span == p.low && p.high == m.start);
                assert(covered_below(init, p.low));
                assert(covered_below(ms, s.low));
            }
            if covered_below(ms, s.low) {
                assert forall|i: int| 0 <= i < p.low implies covered_at(init, i) by {
                    assert(covered_at(ms, i));
                }
                assert(covered_below(init, p.low));
                if p.high < m.start {
                    assert(covered_at(ms, p.high));
                    assert(!covered_at(init, p.high));
                }
            }
        } else {
            assert(s.low == p.low);
            if covered_below(init, p.low) {
                assert(covered_below(ms, s.low));
            }
            if covered_below(ms, s.low) {
                assert forall|i: int| 0 <= i < p.low implies covered_at(init, i) by {
                    assert(covered_at(ms, i));
                }
            }
        }
    }
}

/// When the matches come in the order of their starts and none reaches beyond
/// `n`, their merged length is `n` exactly when every offset below `n` lies in
/// some match: the sweep says yes if and only if the matches cover the whole
/// text and leave no gap.
pub proof fn lemma_merged_length_is_cover(ms: Seq<Match>, n: int)
    requires
        0 <= n,
        all_wf(ms),
        starts_ascending(ms),
        all_within(ms, n),
    ensures
        (merged_length(ms) == n) == covered_below(ms, n),
{
    lemma_sweep_inv(ms, n);
    let s = sweep(ms);
    if merged_length(ms) == n {
        assert(s.span == s.low && s.high == n);
        assert(covered_below(ms, s.low));
        assert(covered_below(ms, n));
    }
    if covered_below(ms, n) {
        assert forall|i: int| 0 <= i < s.low implies covered_at(ms, i) by {}
        assert(covered_below(ms, s.low));
        if s.high < n {
            assert(covered_at(ms, s.high));
        }
    }
}

} // verus!
