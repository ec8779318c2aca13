//! Per-scenario coverage and evidence for interaction-only execution.
use vstd::prelude::*;

use crate::analysis::{Counts, PackageRow, SourceRow, Tally, plus, tally_of, zero_tally};
use crate::attribution::{IndexedSegment, package, package_name};
use crate::coverage::{Interval, all_nonempty, covers, normalized, separated, union};
use crate::decoding::IndexedSource;
use crate::strings::{chars_of, str_eq};
use crate::summary::{
    aggregate_sources, by_package, fits, grand_total, merge_by_name, merged_rows, ordered, ordered_by, package_rows_view,
    pairs_view, sort_rows_by, source_rows_view,
};

verus! {

/// The bytes of `[s, e)` inside `iv`.
pub open spec fn clip(s: int, e: int, iv: Interval) -> int {
    let lo = if iv.start > s { iv.start as int } else { s };
    let hi = if iv.end < e { iv.end as int } else { e };
    if hi > lo { hi - lo } else { 0 }
}

/// The bytes of `[s, e)` inside the intervals of `u`, counted per interval.
pub open spec fn overlap_sum(s: int, e: int, u: Seq<Interval>) -> int
    decreases u.len(),
{
    if u.len() == 0 {
        0
    } else {
        overlap_sum(s, e, u.drop_last()) + clip(s, e, u.last())
    }
}

proof fn lemma_overlap_take(s: int, e: int, u: Seq<Interval>, m: int)
    requires
        0 <= m < u.len(),
    ensures
        overlap_sum(s, e, u.take(m + 1)) == overlap_sum(s, e, u.take(m)) + clip(s, e, u[m]),
{
    assert(u.take(m + 1).drop_last() =~= u.take(m));
}

/// Over separated intervals the overlap never exceeds the range, and stops
/// growing at the last interval's end.
proof fn lemma_overlap_bound(s: int, e: int, u: Seq<Interval>, m: int)
    requires
        separated(u),
        s <= e,
        1 <= m <= u.len(),
    ensures
        overlap_sum(s, e, u.take(m)) <= if u[m - 1].end < e {
            if u[m - 1].end > s { u[m - 1].end - s } else { 0 }
        } else {
            e - s
        },
    decreases m,
{
    lemma_overlap_take(s, e, u, m - 1);
    if m == 1 {
        assert(u.take(0) =~= Seq::<Interval>::empty());
    } else {
        lemma_overlap_bound(s, e, u, m - 1);
        assert(u[m - 2].end < u[m - 1].start);
    }
}

proof fn lemma_overlap_zero_prefix(s: int, e: int, u: Seq<Interval>, m: int)
    requires
        0 <= m <= u.len(),
        forall|i: int| 0 <= i < m ==> (#[trigger] u[i]).end <= s,
    ensures
        overlap_sum(s, e, u.take(m)) == 0,
    decreases m,
{
    if m == 0 {
        assert(u.take(0) =~= Seq::<Interval>::empty());
    } else {
        lemma_overlap_take(s, e, u, m - 1);
        lemma_overlap_zero_prefix(s, e, u, m - 1);
    }
}

proof fn lemma_overlap_zero_suffix(s: int, e: int, u: Seq<Interval>, k: int, m: int)
    requires
        0 <= k <= m <= u.len(),
        forall|i: int| k <= i < m ==> (#[trigger] u[i]).start >= e,
    ensures
        overlap_sum(s, e, u.take(m)) == overlap_sum(s, e, u.take(k)),
    decreases m - k,
{
    if m > k {
        lemma_overlap_take(s, e, u, m - 1);
        lemma_overlap_zero_suffix(s, e, u, k, m - 1);
    }
}

/// Bytes of `[start, end)` that `used` covers. `cursor` skips intervals that
/// end before `start`; it only moves forward, so consecutive segments share it.
pub fn overlap(start: usize, end: usize, used: &Vec<Interval>, cursor: &mut usize) -> (r: usize)
    requires
        separated(used@),
        start <= end,
        *old(cursor) <= used@.len(),
        forall|i: int| 0 <= i < *old(cursor) ==> (#[trigger] used@[i]).end <= start,
    ensures
        r == overlap_sum(start as int, end as int, used@),
        r <= end - start,
        *old(cursor) <= *final(cursor) <= used@.len(),
        forall|i: int| 0 <= i < *final(cursor) ==> (#[trigger] used@[i]).end <= start,
{
    let n = used.len();
    while *cursor < n && used[*cursor].end <= start
        invariant
            n == used@.len(),
            *old(cursor) <= *cursor <= n,
            forall|i: int| 0 <= i < *cursor ==> (#[trigger] used@[i]).end <= start,
        decreases n - *cursor,
    {
        *cursor = *cursor + 1;
    }
    let c = *cursor;
    proof {
        lemma_overlap_zero_prefix(start as int, end as int, used@, c as int);
    }
    let mut total: usize = 0;
    let mut k = c;
    while k < n && used[k].start < end
        invariant
            n == used@.len(),
            separated(used@),
            start <= end,
            c <= k <= n,
            total == overlap_sum(start as int, end as int, used@.take(k as int)),
            total <= end - start,
        decreases n - k,
    {
        let lo = if used[k].start > start { used[k].start } else { start };
        let hi = if used[k].end < end { used[k].end } else { end };
        proof {
            lemma_overlap_take(start as int, end as int, used@, k as int);
            lemma_overlap_bound(start as int, end as int, used@, k + 1);
        }
        if hi > lo {
            total = total + (hi - lo);
        }
        k = k + 1;
    }
    proof {
        if k < n {
            assert forall|i: int| k <= i < n implies (#[trigger] used@[i]).start >= end by {
                if i > k {
                    assert(used@[k as int].end < used@[i].start);
                }
            }
        }
        lemma_overlap_zero_suffix(start as int, end as int, used@, k as int, n as int);
        assert(used@.take(n as int) =~= used@);
    }
    total
}


pub proof fn lemma_covers_push(s: Seq<Interval>, x: Interval, p: int)
    ensures
        covers(s.push(x), p) <==> covers(s, p) || (x.start <= p < x.end),
{
    if covers(s, p) {
        let i = choose|i: int| 0 <= i < s.len() && (#[trigger] s[i]).start <= p < s[i].end;
        assert(s.push(x)[i] == s[i]);
    }
    if x.start <= p < x.end {
        assert(s.push(x)[s.len() as int] == x);
    }
    if covers(s.push(x), p) {
        let i = choose|i: int| 0 <= i < s.push(x).len() && (#[trigger] s.push(x)[i]).start <= p < s.push(x)[i].end;
        if i < s.len() {
            assert(s[i] == s.push(x)[i]);
        }
    }
}

proof fn lemma_covers_take(u: Seq<Interval>, i: int, p: int)
    requires
        0 <= i < u.len(),
    ensures
        covers(u.take(i + 1), p) <==> covers(u.take(i), p) || (u[i].start <= p < u[i].end),
{
    assert(u.take(i + 1) =~= u.take(i).push(u[i]));
    lemma_covers_push(u.take(i), u[i], p);
}

pub proof fn lemma_push_separated(s: Seq<Interval>, x: Interval)
    requires
        normalized(s),
        x.start < x.end,
        s.len() > 0 ==> s.last().end < x.start,
    ensures
        normalized(s.push(x)),
{
    let t = s.push(x);
    assert forall|i: int, j: int| 0 <= i < j < t.len() implies #[trigger] t[i].end < #[trigger] t[j].start by {
        if j == s.len() {
            if i < s.len() - 1 {
                assert(s[i].end < s[s.len() - 1].start);
            }
        } else {
            assert(t[i] == s[i] && t[j] == s[j]);
        }
    }
}

/// Set subtraction on sorted, disjoint byte ranges (not subtraction of totals).
pub fn difference(used: &Vec<Interval>, initial: &Vec<Interval>) -> (r: Vec<Interval>)
    requires
        normalized(used@),
        normalized(initial@),
    ensures
        normalized(r@),
        forall|p: int| covers(r@, p) <==> covers(used@, p) && !covers(initial@, p),
{
    let n = used.len();
    let m = initial.len();
    let mut result: Vec<Interval> = Vec::new();
    let mut index: usize = 0;
    proof {
        assert(used@.take(0) =~= Seq::<Interval>::empty());
    }
    for i in 0..n
        invariant
            n == used@.len(),
            m == initial@.len(),
            normalized(used@),
            normalized(initial@),
            normalized(result@),
            index <= m,
            forall|p: int| covers(result@, p) <==> covers(used@.take(i as int), p) && !covers(initial@, p),
            i > 0 && result@.len() > 0 ==> result@.last().end <= used@[i - 1].end,
            i == 0 ==> result@.len() == 0,
            i < n ==> forall|k: int| 0 <= k < index ==> (#[trigger] initial@[k]).end <= used@[i as int].start,
    {
        let r = used[i];
        let mut cursor = r.start;
        while index < m && initial[index].end <= cursor
            invariant
                m == initial@.len(),
                index <= m,
                cursor == r.start,
                r == used@[i as int],
                i < n,
                forall|k: int| 0 <= k < index ==> (#[trigger] initial@[k]).end <= cursor,
            decreases m - index,
        {
            index = index + 1;
        }
        let mut j = index;
        proof {
            if result@.len() > 0 {
                assert(used@[i - 1].end < used@[i as int].start);
            }
        }
        while j < m && initial[j].start < r.end
            invariant
                n == used@.len(),
                m == initial@.len(),
                normalized(used@),
                normalized(initial@),
                normalized(result@),
                i < n,
                r == used@[i as int],
                index <= j <= m,
                r.start <= cursor,
                forall|k: int| 0 <= k < j ==> (#[trigger] initial@[k]).end <= cursor,
                forall|p: int|
                    covers(result@, p) <==> (covers(used@.take(i as int), p) && !covers(initial@, p)) || (r.start
                        <= p < cursor && p < r.end && !covers(initial@, p)),
                result@.len() > 0 ==> result@.last().end < cursor,
                result@.len() > 0 ==> result@.last().end <= r.end,
            decreases m - j,
        {
            let earlier = initial[j];
            let ghost c0 = cursor;
            let ghost mid = if c0 < earlier.start { earlier.start as int } else { c0 as int };
            if cursor < earlier.start {
                let end = if earlier.start < r.end { earlier.start } else { r.end };
                let piece = Interval { start: cursor, end };
                proof {
                    assert forall|p: int| cursor <= p < end implies !covers(initial@, p) by {
                        if covers(initial@, p) {
                            let k = choose|k: int| 0 <= k < initial@.len() && (#[trigger] initial@[k]).start <= p < initial@[k].end;
                            if k > j {
                                assert(initial@[j as int].end < initial@[k].start);
                            }
                        }
                    }
                    assert forall|p: int| covers(result@.push(piece), p) <==> (covers(used@.take(i as int), p) && !covers(initial@, p)) || (r.start
                        <= p < end && p < r.end && !covers(initial@, p)) by {
                        lemma_covers_push(result@, piece, p);
                    }
                }
                proof {
                    lemma_push_separated(result@, piece);
                }
                let ghost before_push = result@;
                result.push(piece);
                proof {
                    assert forall|p: int|
                        covers(result@, p) <==> (covers(used@.take(i as int), p) && !covers(initial@, p)) || (r.start
                            <= p < mid && p < r.end && !covers(initial@, p)) by {
                        lemma_covers_push(before_push, piece, p);
                    }
                }
            }
            proof {
                assert forall|p: int| cursor <= p < earlier.end && earlier.start <= p implies covers(initial@, p) by {
                    assert(initial@[j as int].start <= p < initial@[j as int].end);
                }
            }
            proof {
                assert forall|p: int|
                    covers(result@, p) <==> (covers(used@.take(i as int), p) && !covers(initial@, p)) || (r.start <= p
                        < mid && p < r.end && !covers(initial@, p)) by {
                }
            }
            if earlier.end > cursor {
                cursor = earlier.end;
            }
            proof {
                assert forall|p: int|
                    covers(result@, p) <==> (covers(used@.take(i as int), p) && !covers(initial@, p)) || (r.start <= p
                        < cursor && p < r.end && !covers(initial@, p)) by {
                    if mid <= p < cursor {
                        assert(initial@[j as int].start <= p < initial@[j as int].end);
                    }
                }
            }
            j = j + 1;
        }
        proof {
            assert forall|p: int| cursor <= p < r.end implies !covers(initial@, p) by {
                if covers(initial@, p) {
                    let k = choose|k: int| 0 <= k < initial@.len() && (#[trigger] initial@[k]).start <= p < initial@[k].end;
                    if k >= j {
                        if k > j {
                            assert(initial@[j as int].end < initial@[k].start);
                        }
                    }
                }
            }
        }
        let ghost before = result@;
        if cursor < r.end {
            let piece = Interval { start: cursor, end: r.end };
            proof {
                lemma_push_separated(result@, piece);
            }
            result.push(piece);
            proof {
                assert forall|p: int|
                    covers(result@, p) <==> (covers(used@.take(i as int), p) && !covers(initial@, p)) || (r.start <= p
                        < r.end && !covers(initial@, p)) by {
                    lemma_covers_push(before, piece, p);
                }
            }
        } else {
            proof {
                assert forall|p: int|
                    covers(result@, p) <==> (covers(used@.take(i as int), p) && !covers(initial@, p)) || (r.start <= p
                        < r.end && !covers(initial@, p)) by {
                }
            }
        }
        proof {
            assert forall|p: int| covers(result@, p) <==> covers(used@.take(i + 1), p) && !covers(initial@, p) by {
                lemma_covers_take(used@, i as int, p);
            }
            if result@.len() > 0 {
                assert(result@.last().end <= used@[i as int].end);
            }
            if i + 1 < n {
                assert(used@[i as int].end < used@[i + 1].start);
            }
        }
    }
    proof {
        assert(used@.take(n as int) =~= used@);
    }
    result
}


/// The number of bytes of `[s, e)` that `u` covers.
pub open spec fn covered_in(s: int, e: int, u: Seq<Interval>) -> int
    decreases e - s,
{
    if e <= s {
        0
    } else {
        covered_in(s, e - 1, u) + if covers(u, e - 1) { 1int } else { 0int }
    }
}

proof fn lemma_covered_split(s: int, e: int, u: Seq<Interval>, x: Interval)
    requires
        s <= e,
        forall|p: int| covers(u, p) ==> p < x.start,
    ensures
        covered_in(s, e, u.push(x)) == covered_in(s, e, u) + clip(s, e, x),
    decreases e - s,
{
    if e > s {
        lemma_covered_split(s, e - 1, u, x);
        lemma_covers_push(u, x, e - 1);
    }
}

/// Over separated intervals, the per-interval overlap counts each covered byte once.
pub proof fn lemma_overlap_counts_bytes(s: int, e: int, u: Seq<Interval>)
    requires
        separated(u),
        s <= e,
    ensures
        overlap_sum(s, e, u) == covered_in(s, e, u),
    decreases u.len(),
{
    if u.len() == 0 {
        lemma_covered_none(s, e, u);
    } else {
        let v = u.drop_last();
        assert(separated(v)) by {
            assert forall|i: int, j: int| 0 <= i < j < v.len() implies #[trigger] v[i].end < #[trigger] v[j].start by {
                assert(v[i] == u[i] && v[j] == u[j]);
            }
        }
        lemma_overlap_counts_bytes(s, e, v);
        assert forall|p: int| covers(v, p) implies p < u.last().start by {
            let i = choose|i: int| 0 <= i < v.len() && (#[trigger] v[i]).start <= p < v[i].end;
            assert(u[i].end < u[u.len() - 1].start);
        }
        lemma_covered_split(s, e, v, u.last());
        assert(v.push(u.last()) =~= u);
    }
}

proof fn lemma_covered_bounds(s: int, e: int, u: Seq<Interval>)
    requires
        s <= e,
    ensures
        0 <= covered_in(s, e, u) <= e - s,
    decreases e - s,
{
    if e > s {
        lemma_covered_bounds(s, e - 1, u);
    }
}

/// No count of any entry is negative.
pub open spec fn nonnegative_entries(v: Seq<(Seq<char>, Tally)>) -> bool {
    forall|j: int|
        0 <= j < v.len() ==> {
            let t = (#[trigger] v[j]).1;
            t.bytes >= 0 && t.observed >= 0 && t.unobserved >= 0 && t.unmeasured >= 0
        }
}

proof fn lemma_segment_entries_nonnegative(
    segs: Seq<IndexedSegment>,
    sources: Seq<IndexedSource>,
    used: Option<Seq<Interval>>,
)
    requires
        indexed_contiguous(segs),
    ensures
        nonnegative_entries(segment_entries(segs, sources, used)),
{
    let v = segment_entries(segs, sources, used);
    assert forall|j: int| 0 <= j < v.len() implies {
        let t = (#[trigger] v[j]).1;
        t.bytes >= 0 && t.observed >= 0 && t.unobserved >= 0 && t.unmeasured >= 0
    } by {
        let g = segs[j];
        if let Some(u) = used {
            lemma_covered_bounds(g.start as int, g.end as int, u);
        }
    }
}

pub proof fn lemma_grand_total_nonnegative(v: Seq<(Seq<char>, Tally)>)
    requires
        nonnegative_entries(v),
    ensures
        grand_total(v).bytes >= 0,
        grand_total(v).observed >= 0,
        grand_total(v).unobserved >= 0,
        grand_total(v).unmeasured >= 0,
    decreases v.len(),
{
    if v.len() > 0 {
        let w = v.drop_last();
        assert(nonnegative_entries(w)) by {
            assert forall|j: int| 0 <= j < w.len() implies {
                let t = (#[trigger] w[j]).1;
                t.bytes >= 0 && t.observed >= 0 && t.unobserved >= 0 && t.unmeasured >= 0
            } by {
                assert(w[j] == v[j]);
            }
        }
        lemma_grand_total_nonnegative(w);
        assert(v[v.len() - 1] == v.last());
    }
}

proof fn lemma_covered_none(s: int, e: int, u: Seq<Interval>)
    requires
        u.len() == 0,
    ensures
        covered_in(s, e, u) == 0,
    decreases e - s,
{
    if e > s {
        lemma_covered_none(s, e - 1, u);
    }
}


/// The number of points of `[s, e)` that satisfy `pred`.
pub open spec fn count_points(s: int, e: int, pred: spec_fn(int) -> bool) -> int
    decreases e - s,
{
    if e <= s {
        0
    } else {
        count_points(s, e - 1, pred) + if pred(e - 1) { 1int } else { 0int }
    }
}

/// Counting covered bytes depends only on which bytes are covered.
pub proof fn lemma_covered_count(s: int, e: int, u: Seq<Interval>, pred: spec_fn(int) -> bool)
    requires
        forall|p: int| s <= p < e ==> (covers(u, p) <==> #[trigger] pred(p)),
    ensures
        covered_in(s, e, u) == count_points(s, e, pred),
    decreases e - s,
{
    if e > s {
        lemma_covered_count(s, e - 1, u, pred);
    }
}

/// The recording of `name`: the first entry that names it.
pub open spec fn recording(used: Seq<(String, Vec<Interval>)>, name: Seq<char>) -> Option<Seq<Interval>>
    decreases used.len(),
{
    if used.len() == 0 {
        None
    } else if used[0].0@ == name {
        Some(used[0].1@)
    } else {
        recording(used.drop_first(), name)
    }
}

/// Every recording is in canonical form.
pub open spec fn recordings_normalized(used: Seq<(String, Vec<Interval>)>) -> bool {
    forall|i: int| 0 <= i < used.len() ==> normalized(#[trigger] used[i].1@)
}

proof fn lemma_recording_normalized(used: Seq<(String, Vec<Interval>)>, name: Seq<char>)
    requires
        recordings_normalized(used),
    ensures
        recording(used, name) matches Some(u) ==> normalized(u),
    decreases used.len(),
{
    if used.len() > 0 && used[0].0@ != name {
        assert forall|i: int| 0 <= i < used.drop_first().len() implies normalized(#[trigger] used.drop_first()[i].1@) by {
            assert(used.drop_first()[i] == used[i + 1]);
        }
        lemma_recording_normalized(used.drop_first(), name);
    }
}

fn find_recording<'a>(used: &'a Vec<(String, Vec<Interval>)>, name: &str) -> (r: Option<&'a Vec<Interval>>)
    ensures
        match r {
            Some(u) => recording(used@, name@) == Some(u@),
            None => recording(used@, name@) is None,
        },
{
    let mut i: usize = 0;
    proof {
        assert(used@.subrange(0, used@.len() as int) =~= used@);
    }
    while i < used.len()
        invariant
            i <= used@.len(),
            recording(used@, name@) == recording(used@.subrange(i as int, used@.len() as int), name@),
        decreases used@.len() - i,
    {
        let ghost rest = used@.subrange(i as int, used@.len() as int);
        proof {
            assert(rest.drop_first() =~= used@.subrange(i + 1, used@.len() as int));
            assert(rest[0] == used@[i as int]);
        }
        if str_eq(used[i].0.as_str(), name) {
            return Some(&used[i].1);
        }
        i = i + 1;
    }
    None
}

/// One scenario's counts of one bundle.
#[derive(Debug, Clone)]
pub struct ScenarioBundle {
    pub path: String,
    pub sources: Vec<SourceRow>,
    pub counts: Counts,
}

/// A source executed in a later scenario but not observed in the initial one.
#[derive(Debug, Clone)]
pub struct InteractionCandidate {
    pub source: String,
    pub package: String,
    /// Bytes executed here that the initial recording did not observe.
    pub interaction_only_bytes: usize,
    /// Bytes executed here in bundles that have no initial recording.
    pub initial_unmeasured_observed_bytes: usize,
}

/// Per-scenario coverage and evidence for interaction-only execution.
#[derive(Debug)]
pub struct ScenarioReport {
    pub scenario: String,
    pub totals: Counts,
    pub bundles: Vec<ScenarioBundle>,
    pub sources: Vec<SourceRow>,
    pub packages: Vec<PackageRow>,
    /// Sources with bytes executed here but not observed in the initial scenario.
    /// Missing initial recordings are reported separately, never treated as zero use.
    pub interaction_candidates: Vec<InteractionCandidate>,
}

/// Why a scenario could not be accumulated.
#[derive(Debug, Clone, Copy, PartialEq, Eq)]
pub enum ScenarioError {
    /// The counters would overflow.
    TooLarge,
}

/// Gathers one scenario's counts bundle by bundle.
#[derive(Debug)]
pub struct Accumulator {
    pub report: ScenarioReport,
    /// Per-segment counts by source name, merged when the scenario is finished.
    pub sources: Vec<(String, Counts)>,
    /// Per-segment (source, interaction-only bytes, initially unmeasured bytes).
    pub candidates: Vec<(String, usize, usize)>,
}

impl Accumulator {
    pub open spec fn source_entries(&self) -> Seq<(Seq<char>, Tally)> {
        pairs_view(self.sources@)
    }

    pub open spec fn candidate_entries(&self) -> Seq<(Seq<char>, int, int)> {
        self.candidates@.map_values(|c: (String, usize, usize)| (c.0@, c.1 as int, c.2 as int))
    }

    /// An empty accumulator for `scenario`.
    pub fn new(scenario: String) -> (r: Accumulator)
        ensures
            r.report.scenario == scenario,
            tally_of(r.report.totals) == zero_tally(),
            r.report.bundles@.len() == 0,
            r.report.sources@.len() == 0,
            r.report.packages@.len() == 0,
            r.report.interaction_candidates@.len() == 0,
            r.source_entries().len() == 0,
            r.candidate_entries().len() == 0,
            r.wf(),
    {
        let r = Accumulator {
            report: ScenarioReport {
                scenario,
                totals: Counts::zero(),
                bundles: Vec::new(),
                sources: Vec::new(),
                packages: Vec::new(),
                interaction_candidates: Vec::new(),
            },
            sources: Vec::new(),
            candidates: Vec::new(),
        };
        proof {
            assert(r.source_entries() =~= Seq::<(Seq<char>, Tally)>::empty());
            assert(r.candidate_entries() =~= Seq::<(Seq<char>, int, int)>::empty());
        }
        r
    }
}


/// Segments cut a text into consecutive, possibly empty, pieces.
pub open spec fn indexed_contiguous(segs: Seq<IndexedSegment>) -> bool {
    &&& forall|k: int| 0 <= k < segs.len() ==> #[trigger] segs[k].start <= segs[k].end
    &&& forall|k: int| 0 <= k < segs.len() - 1 ==> #[trigger] segs[k].end == segs[k + 1].start
}

/// The counts of bytes `[s, e)` under a recording (unmeasured without one).
pub open spec fn range_tally(s: int, e: int, used: Option<Seq<Interval>>) -> Tally {
    match used {
        None => Tally { bytes: e - s, observed: 0, unobserved: 0, unmeasured: e - s },
        Some(u) => Tally {
            bytes: e - s,
            observed: covered_in(s, e, u),
            unobserved: e - s - covered_in(s, e, u),
            unmeasured: 0,
        },
    }
}

/// Each segment's source name and counts.
pub open spec fn segment_entries(
    segs: Seq<IndexedSegment>,
    sources: Seq<IndexedSource>,
    used: Option<Seq<Interval>>,
) -> Seq<(Seq<char>, Tally)> {
    segs.map_values(|g: IndexedSegment| (sources[g.source as int].name@, range_tally(g.start as int, g.end as int, used)))
}

/// A byte executed in this scenario that the initial scenario did not observe.
pub open spec fn extra_point(
    observed: Option<Seq<Interval>>,
    initial: Option<Seq<Interval>>,
    compare: bool,
    p: int,
) -> bool {
    &&& compare
    &&& observed matches Some(o) && covers(o, p)
    &&& !(initial matches Some(i) && covers(i, p))
}

/// Candidate entries of the first `n` segments: each with interaction-only
/// bytes, as (source, bytes where the initial scenario was recorded, bytes
/// where it was not).
pub open spec fn candidate_rows(
    segs: Seq<IndexedSegment>,
    sources: Seq<IndexedSource>,
    extra: spec_fn(int) -> bool,
    initial_recorded: bool,
    n: int,
) -> Seq<(Seq<char>, int, int)>
    decreases n,
{
    if n <= 0 {
        Seq::empty()
    } else {
        let rest = candidate_rows(segs, sources, extra, initial_recorded, n - 1);
        let g = segs[n - 1];
        let b = count_points(g.start as int, g.end as int, extra);
        if b > 0 {
            rest.push(
                (sources[g.source as int].name@, if initial_recorded { b } else { 0 }, if initial_recorded { 0 } else { b }),
            )
        } else {
            rest
        }
    }
}

impl Accumulator {
    /// Adds one bundle's segments: its counts under this scenario's
    /// recording, and the bytes executed here that the initial scenario did
    /// not observe (or could not, having no recording of the bundle).
    #[verifier::spinoff_prover]
    #[verifier::rlimit(60)]
    pub fn bundle(
        &mut self,
        path: &str,
        segments: &Vec<IndexedSegment>,
        sources: &Vec<IndexedSource>,
        used: &Vec<(String, Vec<Interval>)>,
        initial: Option<&str>,
    ) -> (r: Result<(), ScenarioError>)
        requires
            old(self).wf(),
            indexed_contiguous(segments@),
            forall|k: int| 0 <= k < segments@.len() ==> (#[trigger] segments@[k]).source < sources@.len(),
            recordings_normalized(used@),
        ensures
            r is Err ==> !fits(
                plus(
                    tally_of(old(self).report.totals),
                    grand_total(segment_entries(segments@, sources@, recording(used@, old(self).report.scenario@))),
                ),
            ),
            r matches Ok(()) ==> final(self).wf(),
            r matches Ok(()) ==> {
                let observed = recording(used@, old(self).report.scenario@);
                let entries = segment_entries(segments@, sources@, observed);
                let initial_used = match initial {
                    Some(n) => recording(used@, n@),
                    None => None,
                };
                let compare = initial matches Some(n) && n@ != old(self).report.scenario@;
                &&& final(self).report.scenario == old(self).report.scenario
                &&& tally_of(final(self).report.totals) == plus(tally_of(old(self).report.totals), grand_total(entries))
                &&& final(self).report.bundles@.len() == old(self).report.bundles@.len() + 1
                &&& final(self).report.bundles@.drop_last() == old(self).report.bundles@
                &&& final(self).report.bundles@.last().path@ == path@
                &&& tally_of(final(self).report.bundles@.last().counts) == grand_total(entries)
                &&& source_rows_view(final(self).report.bundles@.last().sources@).to_multiset() == merged_rows(
                    entries,
                ).to_multiset()
                &&& ordered(source_rows_view(final(self).report.bundles@.last().sources@))
                &&& final(self).source_entries() == old(self).source_entries() + entries
                &&& final(self).candidate_entries() == old(self).candidate_entries() + candidate_rows(
                    segments@,
                    sources@,
                    |p: int| extra_point(observed, initial_used, compare, p),
                    initial_used is Some,
                    segments@.len() as int,
                )
                &&& final(self).report.sources == old(self).report.sources
                &&& final(self).report.packages == old(self).report.packages
                &&& final(self).report.interaction_candidates == old(self).report.interaction_candidates
            },
    {
        let ghost old_sources = self.source_entries();
        let ghost old_candidates = self.candidate_entries();
        let observed = find_recording(used, self.report.scenario.as_str());
        let initial_used = match initial {
            Some(n) => find_recording(used, n),
            None => None,
        };
        let compare = match initial {
            Some(n) => !str_eq(n, self.report.scenario.as_str()),
            None => false,
        };
        let ghost ov = recording(used@, self.report.scenario@);
        let ghost iv = match initial {
            Some(n) => recording(used@, n@),
            None => None,
        };
        let ghost extra_pred = |p: int| extra_point(ov, iv, compare, p);
        proof {
            lemma_recording_normalized(used@, self.report.scenario@);
            if let Some(n) = initial {
                lemma_recording_normalized(used@, n@);
            }
        }
        let empty: Vec<Interval> = Vec::new();
        let empty2: Vec<Interval> = Vec::new();
        let observed_ranges: &Vec<Interval> = match observed {
            Some(u) => u,
            None => &empty,
        };
        let initial_ranges: &Vec<Interval> = match initial_used {
            Some(u) => u,
            None => &empty2,
        };
        let extra = if compare { difference(observed_ranges, initial_ranges) } else { Vec::new() };
        proof {
            assert forall|p: int| covers(extra@, p) <==> #[trigger] extra_pred(p) by {
                if !compare {
                    assert(!covers(extra@, p));
                }
                if observed is None {
                    assert(!covers(observed_ranges@, p));
                }
                if initial_used is None {
                    assert(!covers(initial_ranges@, p));
                }
            }
        }
        let n = segments.len();
        let mut cursor: usize = 0;
        let mut extra_cursor: usize = 0;
        let mut total = Counts::zero();
        let mut bundle_entries: Vec<(String, Counts)> = Vec::new();
        let ghost segs = segments@;
        let ghost entries = segment_entries(segs, sources@, ov);
        proof {
            assert(pairs_view(bundle_entries@) =~= entries.take(0));
            assert(old_candidates + candidate_rows(segs, sources@, extra_pred, iv is Some, 0) =~= old_candidates);
            assert(old_sources + entries.take(0) =~= old_sources);
        }
        for k in 0..n
            invariant
                n == segs.len(),
                segs == segments@,
                indexed_contiguous(segs),
                forall|j: int| 0 <= j < segs.len() ==> (#[trigger] segs[j]).source < sources@.len(),
                entries == segment_entries(segs, sources@, ov),
                ov == recording(used@, self.report.scenario@),
                observed_ranges@ == match ov { Some(u) => u, None => Seq::<Interval>::empty() },
                observed is Some <==> ov is Some,
                initial_used is Some <==> iv is Some,
                ov matches Some(u) ==> normalized(u),
                normalized(extra@),
                forall|p: int| covers(extra@, p) <==> #[trigger] extra_pred(p),
                cursor <= observed_ranges@.len(),
                extra_cursor <= extra@.len(),
                k < n ==> forall|i: int| 0 <= i < cursor ==> (#[trigger] observed_ranges@[i]).end <= segs[k as int].start,
                k < n ==> forall|i: int| 0 <= i < extra_cursor ==> (#[trigger] extra@[i]).end <= segs[k as int].start,
                pairs_view(bundle_entries@) == entries.take(k as int),
                tally_of(total) == grand_total(entries.take(k as int)),
                self.source_entries() == old_sources + entries.take(k as int),
                self.candidate_entries() == old_candidates + candidate_rows(segs, sources@, extra_pred, iv is Some, k as int),
                self.report == old(self).report,
                old(self).wf(),
                old_sources == old(self).source_entries(),
                old_candidates == old(self).candidate_entries(),
                candidate_weight(candidate_rows(segs, sources@, extra_pred, iv is Some, k as int)) <= grand_total(
                    entries.take(k as int),
                ).bytes,
        {
            let seg = segments[k];
            proof {
                if ov is None {
                    assert(observed_ranges@ =~= Seq::<Interval>::empty());
                }
                if let Some(u) = ov {
                    lemma_overlap_counts_bytes(seg.start as int, seg.end as int, u);
                } else {
                    lemma_overlap_counts_bytes(seg.start as int, seg.end as int, observed_ranges@);
                }
                lemma_overlap_counts_bytes(seg.start as int, seg.end as int, extra@);
                lemma_covered_count(seg.start as int, seg.end as int, extra@, extra_pred);
            }
            let bytes = seg.end - seg.start;
            let observed_bytes = overlap(seg.start, seg.end, observed_ranges, &mut cursor);
            let counts = if observed.is_some() {
                Counts { bytes, observed_bytes, unobserved_bytes: bytes - observed_bytes, unmeasured_bytes: 0 }
            } else {
                Counts { bytes, observed_bytes: 0, unobserved_bytes: 0, unmeasured_bytes: bytes }
            };
            let name = sources[seg.source].name.clone();
            proof {
                assert(entries[k as int] == (name@, tally_of(counts)));
                assert(entries.take(k + 1) =~= entries.take(k as int).push(entries[k as int]));
                assert(entries.take(k + 1).drop_last() =~= entries.take(k as int));
            }
            total = match crate::analyze::checked_add_counts(total, counts) {
                Some(t) => t,
                None => {
                    proof {
                        let head = entries.take(k + 1);
                        let tail = entries.skip(k + 1);
                        assert(grand_total(head) == plus(tally_of(total), tally_of(counts)));
                        lemma_grand_total_append(head, tail);
                        assert(head + tail =~= entries);
                        lemma_segment_entries_nonnegative(segs, sources@, ov);
                        assert(nonnegative_entries(tail)) by {
                            assert forall|j: int| 0 <= j < tail.len() implies {
                                let t = (#[trigger] tail[j]).1;
                                t.bytes >= 0 && t.observed >= 0 && t.unobserved >= 0 && t.unmeasured >= 0
                            } by {
                                assert(tail[j] == entries[j + k + 1]);
                            }
                        }
                        lemma_grand_total_nonnegative(tail);
                    }
                    return Err(ScenarioError::TooLarge);
                },
            };
            let ghost sv = self.source_entries();
            self.sources.push((name.clone(), counts));
            bundle_entries.push((name.clone(), counts));
            proof {
                assert(self.source_entries() =~= sv.push((name@, tally_of(counts))));
                assert(pairs_view(bundle_entries@) =~= entries.take(k + 1));
            }
            let extra_bytes = overlap(seg.start, seg.end, &extra, &mut extra_cursor);
            let ghost cv = self.candidate_entries();
            if extra_bytes > 0 {
                let recorded = initial_used.is_some();
                self.candidates.push(
                    (name, if recorded { extra_bytes } else { 0 }, if recorded { 0 } else { extra_bytes }),
                );
                proof {
                    assert(self.candidate_entries() =~= cv.push(
                        (sources@[seg.source as int].name@, if recorded { extra_bytes as int } else { 0 }, if recorded { 0 } else { extra_bytes as int }),
                    ));
                }
            }
            proof {
                assert(segs[k as int] == seg);
                assert(extra_bytes == count_points(seg.start as int, seg.end as int, extra_pred));
                lemma_count_points_bound(seg.start as int, seg.end as int, extra_pred);
                lemma_weight_push(candidate_rows(segs, sources@, extra_pred, iv is Some, k as int), (sources@[seg.source as int].name@, if iv is Some { extra_bytes as int } else { 0 }, if iv is Some { 0 } else { extra_bytes as int }));
                let rows_k = candidate_rows(segs, sources@, extra_pred, iv is Some, k as int);
                if extra_bytes > 0 {
                    assert(old_candidates + rows_k.push(
                        (sources@[seg.source as int].name@, if iv is Some { extra_bytes as int } else { 0 }, if iv is Some { 0 } else { extra_bytes as int }),
                    ) =~= (old_candidates + rows_k).push(
                        (sources@[seg.source as int].name@, if iv is Some { extra_bytes as int } else { 0 }, if iv is Some { 0 } else { extra_bytes as int }),
                    ));
                }
                if k + 1 < n {
                    assert(segs[k as int].end == segs[k + 1].start);
                }
            }
        }
        proof {
            assert(entries.take(n as int) =~= entries);
        }
        let totals = match crate::analyze::checked_add_counts(self.report.totals, total) {
            Some(t) => t,
            None => return Err(ScenarioError::TooLarge),
        };
        let (rows, _) = aggregate_sources(&bundle_entries);
        self.report.totals = totals;
        let ghost before = self.report.bundles@;
        self.report.bundles.push(ScenarioBundle { path: path.to_string(), sources: rows, counts: total });
        proof {
            assert(self.report.bundles@.drop_last() =~= before);
            lemma_grand_total_append(old_sources, entries);
            lemma_candidate_weight_append(old_candidates, candidate_rows(segs, sources@, extra_pred, iv is Some, n as int));
        }
        Ok(())
    }
}


/// Candidate entries as tallies: interaction-only bytes as `bytes`,
/// initially unmeasured bytes as `observed`.
pub open spec fn candidate_tallies(v: Seq<(Seq<char>, int, int)>) -> Seq<(Seq<char>, Tally)> {
    v.map_values(|c: (Seq<char>, int, int)| (c.0, Tally { bytes: c.1, observed: c.2, unobserved: 0, unmeasured: 0 }))
}

/// All candidate bytes of both kinds.
pub open spec fn candidate_weight(v: Seq<(Seq<char>, int, int)>) -> int
    decreases v.len(),
{
    if v.len() == 0 {
        0
    } else {
        candidate_weight(v.drop_last()) + v.last().1 + v.last().2
    }
}

proof fn lemma_weight_push(v: Seq<(Seq<char>, int, int)>, x: (Seq<char>, int, int))
    ensures
        candidate_weight(v.push(x)) == candidate_weight(v) + x.1 + x.2,
{
    assert(v.push(x).drop_last() =~= v);
}

proof fn lemma_candidate_weight_append(a: Seq<(Seq<char>, int, int)>, b: Seq<(Seq<char>, int, int)>)
    ensures
        candidate_weight(a + b) == candidate_weight(a) + candidate_weight(b),
    decreases b.len(),
{
    if b.len() > 0 {
        lemma_candidate_weight_append(a, b.drop_last());
        assert((a + b).drop_last() =~= a + b.drop_last());
    } else {
        assert(a + b =~= a);
    }
}

pub proof fn lemma_grand_total_append(a: Seq<(Seq<char>, Tally)>, b: Seq<(Seq<char>, Tally)>)
    ensures
        grand_total(a + b) == plus(grand_total(a), grand_total(b)),
    decreases b.len(),
{
    if b.len() > 0 {
        lemma_grand_total_append(a, b.drop_last());
        assert((a + b).drop_last() =~= a + b.drop_last());
    } else {
        assert(a + b =~= a);
    }
}

proof fn lemma_count_points_bound(s: int, e: int, pred: spec_fn(int) -> bool)
    requires
        s <= e,
    ensures
        0 <= count_points(s, e, pred) <= e - s,
    decreases e - s,
{
    if e > s {
        lemma_count_points_bound(s, e - 1, pred);
    }
}

proof fn lemma_candidate_tallies_total(v: Seq<(Seq<char>, int, int)>)
    requires
        forall|i: int| 0 <= i < v.len() ==> (#[trigger] v[i]).1 >= 0 && v[i].2 >= 0,
    ensures
        grand_total(candidate_tallies(v)).bytes + grand_total(candidate_tallies(v)).observed == candidate_weight(v),
        grand_total(candidate_tallies(v)).bytes >= 0,
        grand_total(candidate_tallies(v)).observed >= 0,
        grand_total(candidate_tallies(v)).unobserved == 0,
        grand_total(candidate_tallies(v)).unmeasured == 0,
    decreases v.len(),
{
    if v.len() > 0 {
        assert forall|i: int| 0 <= i < v.drop_last().len() implies (#[trigger] v.drop_last()[i]).1 >= 0 && v.drop_last()[i].2 >= 0 by {
            assert(v.drop_last()[i] == v[i]);
        }
        lemma_candidate_tallies_total(v.drop_last());
        assert(candidate_tallies(v).drop_last() =~= candidate_tallies(v.drop_last()));
        assert(v[v.len() - 1].1 >= 0);
    }
}

proof fn lemma_name_total_zero(v: Seq<(Seq<char>, int, int)>, name: Seq<char>)
    ensures
        crate::summary::name_total(candidate_tallies(v), name).unobserved == 0,
        crate::summary::name_total(candidate_tallies(v), name).unmeasured == 0,
    decreases v.len(),
{
    if v.len() > 0 {
        lemma_name_total_zero(v.drop_last(), name);
        assert(candidate_tallies(v).drop_last() =~= candidate_tallies(v.drop_last()));
    }
}

impl Accumulator {
    /// The totals are the sum of the per-segment counts, and candidate bytes
    /// never exceed the bytes counted.
    pub open spec fn wf(&self) -> bool {
        &&& tally_of(self.report.totals) == grand_total(self.source_entries())
        &&& candidate_weight(self.candidate_entries()) <= grand_total(self.source_entries()).bytes
        &&& forall|i: int|
            0 <= i < self.candidate_entries().len() ==> (#[trigger] self.candidate_entries()[i]).1 >= 0
                && self.candidate_entries()[i].2 >= 0
    }
}


/// Candidates as tallies: interaction-only bytes as `bytes`, initially
/// unmeasured bytes as `observed`.
pub open spec fn candidates_view(v: Seq<InteractionCandidate>) -> Seq<(Seq<char>, Tally)> {
    v.map_values(
        |c: InteractionCandidate|
            (
                c.source@,
                Tally {
                    bytes: c.interaction_only_bytes as int,
                    observed: c.initial_unmeasured_observed_bytes as int,
                    unobserved: 0,
                    unmeasured: 0,
                },
            ),
    )
}

impl Accumulator {
    /// The scenario's report: rows over all its bundles, and the candidates
    /// merged per source, most interaction-only bytes first.
    pub fn finish(self) -> (r: ScenarioReport)
        requires
            self.wf(),
        ensures
            r.scenario == self.report.scenario,
            r.totals == self.report.totals,
            r.bundles == self.report.bundles,
            source_rows_view(r.sources@).to_multiset() == merged_rows(self.source_entries()).to_multiset(),
            ordered(source_rows_view(r.sources@)),
            package_rows_view(r.packages@).to_multiset() == merged_rows(by_package(self.source_entries())).to_multiset(),
            ordered(package_rows_view(r.packages@)),
            candidates_view(r.interaction_candidates@).to_multiset() == merged_rows(
                candidate_tallies(self.candidate_entries()),
            ).to_multiset(),
            ordered_by(true, candidates_view(r.interaction_candidates@)),
            forall|i: int|
                0 <= i < r.interaction_candidates@.len() ==> (#[trigger] r.interaction_candidates@[i]).package@
                    == package_name(r.interaction_candidates@[i].source@),
    {
        let (sources, packages) = aggregate_sources(&self.sources);
        let mut tallied: Vec<(String, Counts)> = Vec::new();
        for i in 0..self.candidates.len()
            invariant
                tallied@.len() == i,
                forall|j: int|
                    0 <= j < i ==> #[trigger] crate::summary::pair_view(tallied@[j]) == candidate_tallies(
                        self.candidate_entries(),
                    )[j],
        {
            let c = &self.candidates[i];
            tallied.push(
                (c.0.clone(), Counts { bytes: c.1, observed_bytes: c.2, unobserved_bytes: 0, unmeasured_bytes: 0 }),
            );
        }
        proof {
            assert(pairs_view(tallied@) =~= candidate_tallies(self.candidate_entries()));
            lemma_candidate_tallies_total(self.candidate_entries());
        }
        let merged = merge_by_name(&tallied);
        let sorted = sort_rows_by(merged, true);
        proof {
            broadcast use vstd::seq_lib::group_to_multiset_ensures;

            let ct = candidate_tallies(self.candidate_entries());
            let m = merged_rows(ct);
            assert forall|j: int| 0 <= j < sorted@.len() implies (#[trigger] sorted@[j]).1.unobserved_bytes == 0
                && sorted@[j].1.unmeasured_bytes == 0 by {
                let x = pairs_view(sorted@)[j];
                assert(pairs_view(sorted@).to_multiset().count(x) > 0);
                assert(m.to_multiset().count(x) > 0);
                assert(m.contains(x));
                let i = choose|i: int| 0 <= i < m.len() && m[i] == x;
                lemma_name_total_zero(self.candidate_entries(), m[i].0);
            }
        }
        let mut candidates: Vec<InteractionCandidate> = Vec::new();
        for i in 0..sorted.len()
            invariant
                candidates@.len() == i,
                forall|j: int|
                    0 <= j < i ==> (#[trigger] candidates@[j]).source@ == sorted@[j].0@
                        && candidates@[j].package@ == package_name(sorted@[j].0@)
                        && candidates@[j].interaction_only_bytes == sorted@[j].1.bytes
                        && candidates@[j].initial_unmeasured_observed_bytes == sorted@[j].1.observed_bytes,
                forall|j: int| 0 <= j < sorted@.len() ==> (#[trigger] sorted@[j]).1.unobserved_bytes == 0 && sorted@[j].1.unmeasured_bytes == 0,
        {
            candidates.push(
                InteractionCandidate {
                    source: sorted[i].0.clone(),
                    package: package(sorted[i].0.as_str()),
                    interaction_only_bytes: sorted[i].1.bytes,
                    initial_unmeasured_observed_bytes: sorted[i].1.observed_bytes,
                },
            );
        }
        proof {
            assert(candidates_view(candidates@) =~= pairs_view(sorted@));
        }
        ScenarioReport {
            scenario: self.report.scenario,
            totals: self.report.totals,
            bundles: self.report.bundles,
            sources,
            packages,
            interaction_candidates: candidates,
        }
    }
}


/// The first scenario in which some bytes of a source were observed.
#[derive(Debug, Clone, PartialEq, Eq)]
pub struct FirstObserved {
    pub scenario: String,
    pub bytes: usize,
    /// An earlier scenario lacked a recording for this bundle.
    pub earlier_unmeasured: bool,
}

/// Some scenario before the `i`-th observed byte `p`.
pub open spec fn seen_before(order: Seq<String>, used: Seq<(String, Vec<Interval>)>, i: int, p: int) -> bool {
    exists|j: int| 0 <= j < i && #[trigger] observed_in(order, used, j, p)
}

pub open spec fn observed_in(order: Seq<String>, used: Seq<(String, Vec<Interval>)>, j: int, p: int) -> bool {
    recording(used, order[j]@) matches Some(u) && covers(u, p)
}

/// Some scenario before the `i`-th has no recording.
pub open spec fn missing_before(order: Seq<String>, used: Seq<(String, Vec<Interval>)>, i: int) -> bool {
    exists|j: int| 0 <= j < i && #[trigger] recording(used, order[j]@) is None
}

/// Bytes that scenario `i` observed and no earlier scenario did.
pub open spec fn first_at(order: Seq<String>, used: Seq<(String, Vec<Interval>)>, i: int) -> spec_fn(int) -> bool {
    |p: int| observed_in(order, used, i, p) && !seen_before(order, used, i, p)
}

/// Bytes of source `id` that satisfy `pred`, over the first `k` segments.
pub open spec fn source_points(segs: Seq<IndexedSegment>, id: int, pred: spec_fn(int) -> bool, k: int) -> int
    decreases k,
{
    if k <= 0 {
        0
    } else {
        source_points(segs, id, pred, k - 1) + if segs[k - 1].source == id {
            count_points(segs[k - 1].start as int, segs[k - 1].end as int, pred)
        } else {
            0
        }
    }
}

/// The first-observation rows of source `id` over the first `n` scenarios:
/// (scenario, bytes first observed there, an earlier scenario had no recording).
pub open spec fn first_rows(
    order: Seq<String>,
    segs: Seq<IndexedSegment>,
    used: Seq<(String, Vec<Interval>)>,
    id: int,
    n: int,
) -> Seq<(Seq<char>, int, bool)>
    decreases n,
{
    if n <= 0 {
        Seq::empty()
    } else {
        let rest = first_rows(order, segs, used, id, n - 1);
        let b = source_points(segs, id, first_at(order, used, n - 1), segs.len() as int);
        if recording(used, order[n - 1]@) is Some && b > 0 {
            rest.push((order[n - 1]@, b, missing_before(order, used, n - 1)))
        } else {
            rest
        }
    }
}

pub open spec fn first_view(v: Seq<FirstObserved>) -> Seq<(Seq<char>, int, bool)> {
    v.map_values(|f: FirstObserved| (f.scenario@, f.bytes as int, f.earlier_unmeasured))
}

proof fn lemma_source_points_bound(segs: Seq<IndexedSegment>, id: int, pred: spec_fn(int) -> bool, k: int)
    requires
        indexed_contiguous(segs),
        0 <= k <= segs.len(),
    ensures
        0 <= source_points(segs, id, pred, k),
        k > 0 ==> source_points(segs, id, pred, k) <= segs[k - 1].end - segs[0].start,
    decreases k,
{
    if k > 0 {
        lemma_source_points_bound(segs, id, pred, k - 1);
        lemma_count_points_bound(segs[k - 1].start as int, segs[k - 1].end as int, pred);
        if k > 1 {
            assert(segs[k - 2].end == segs[k - 1].start);
        }
    }
}

/// For each source, the scenarios (in `order`) in which some of its bytes
/// were observed for the first time, with how many.
#[verifier::spinoff_prover]
#[verifier::rlimit(80)]
pub fn first_observed(
    order: &Vec<String>,
    segments: &Vec<IndexedSegment>,
    source_count: usize,
    used: &Vec<(String, Vec<Interval>)>,
) -> (r: Vec<Vec<FirstObserved>>)
    requires
        indexed_contiguous(segments@),
        forall|k: int| 0 <= k < segments@.len() ==> (#[trigger] segments@[k]).source < source_count,
        recordings_normalized(used@),
    ensures
        r@.len() == source_count,
        forall|id: int|
            0 <= id < source_count ==> first_view(#[trigger] r@[id]@) == first_rows(
                order@,
                segments@,
                used@,
                id,
                order@.len() as int,
            ),
{
    let mut result: Vec<Vec<FirstObserved>> = Vec::new();
    for id in 0..source_count
        invariant
            result@.len() == id,
            forall|j: int| 0 <= j < id ==> (#[trigger] result@[j])@.len() == 0,
    {
        result.push(Vec::new());
    }
    proof {
        assert forall|id: int| 0 <= id < source_count implies first_view(#[trigger] result@[id]@) == first_rows(
            order@,
            segments@,
            used@,
            id,
            0,
        ) by {
            assert(first_view(result@[id]@) =~= Seq::<(Seq<char>, int, bool)>::empty());
        }
    }
    let mut earlier: Vec<Interval> = Vec::new();
    let mut missing = false;
    let ghost segs = segments@;
    for i in 0..order.len()
        invariant
            segs == segments@,
            indexed_contiguous(segs),
            forall|k: int| 0 <= k < segs.len() ==> (#[trigger] segs[k]).source < source_count,
            recordings_normalized(used@),
            result@.len() == source_count,
            forall|id: int|
                0 <= id < source_count ==> first_view(#[trigger] result@[id]@) == first_rows(
                    order@,
                    segs,
                    used@,
                    id,
                    i as int,
                ),
            normalized(earlier@),
            forall|p: int| covers(earlier@, p) <==> seen_before(order@, used@, i as int, p),
            missing == missing_before(order@, used@, i as int),
    {
        let found = find_recording(used, order[i].as_str());
        if found.is_none() {
                proof {
                    assert forall|id: int| 0 <= id < source_count implies first_view(#[trigger] result@[id]@)
                        == first_rows(order@, segs, used@, id, i + 1) by {
                    }
                    assert forall|p: int| covers(earlier@, p) <==> seen_before(order@, used@, i + 1, p) by {
                        if seen_before(order@, used@, i + 1, p) {
                            let j = choose|j: int| 0 <= j < i + 1 && #[trigger] observed_in(order@, used@, j, p);
                            assert(j != i);
                        }
                        if seen_before(order@, used@, i as int, p) {
                            let j = choose|j: int| 0 <= j < i && #[trigger] observed_in(order@, used@, j, p);
                            assert(observed_in(order@, used@, j, p));
                        }
                    }
                    assert(recording(used@, order@[i as int]@) is None);
                }
            missing = true;
        } else {
            let current = found.unwrap();
            proof {
                lemma_recording_normalized(used@, order@[i as int]@);
            }
            let first = difference(current, &earlier);
            let ghost pred = first_at(order@, used@, i as int);
            proof {
                assert forall|p: int| covers(first@, p) <==> #[trigger] pred(p) by {
                }
            }
            let mut counts: Vec<usize> = Vec::new();
            for id in 0..source_count
                invariant
                    counts@.len() == id,
                    forall|j: int| 0 <= j < id ==> #[trigger] counts@[j] == 0,
            {
                counts.push(0);
            }
            let mut cursor: usize = 0;
            let n = segments.len();
            for k in 0..n
                invariant
                    n == segs.len(),
                    segs == segments@,
                    indexed_contiguous(segs),
                    forall|j: int| 0 <= j < segs.len() ==> (#[trigger] segs[j]).source < source_count,
                    normalized(first@),
                    forall|p: int| covers(first@, p) <==> #[trigger] pred(p),
                    counts@.len() == source_count,
                    forall|id: int| 0 <= id < source_count ==> #[trigger] counts@[id] == source_points(segs, id, pred, k as int),
                    cursor <= first@.len(),
                    k < n ==> forall|j: int| 0 <= j < cursor ==> (#[trigger] first@[j]).end <= segs[k as int].start,
            {
                let seg = segments[k];
                proof {
                    lemma_overlap_counts_bytes(seg.start as int, seg.end as int, first@);
                    lemma_covered_count(seg.start as int, seg.end as int, first@, pred);
                    lemma_source_points_bound(segs, seg.source as int, pred, k + 1);
                    assert(segs[k as int] == seg);
                }
                let bytes = overlap(seg.start, seg.end, &first, &mut cursor);
                let id = seg.source;
                let updated = counts[id] + bytes;
                counts.set(id, updated);
                proof {
                    if k + 1 < n {
                        assert(segs[k as int].end == segs[k + 1].start);
                    }
                }
            }
            for id in 0..source_count
                invariant
                    result@.len() == source_count,
                    counts@.len() == source_count,
                    forall|j: int| 0 <= j < source_count ==> #[trigger] counts@[j] == source_points(segs, j, pred, segs.len() as int),
                    recording(used@, order@[i as int]@) is Some,
                    missing == missing_before(order@, used@, i as int),
                    i < order@.len(),
                    pred == first_at(order@, used@, i as int),
                    forall|j: int|
                        0 <= j < id ==> first_view(#[trigger] result@[j]@) == first_rows(order@, segs, used@, j, i + 1),
                    forall|j: int|
                        id <= j < source_count ==> first_view(#[trigger] result@[j]@) == first_rows(order@, segs, used@, j, i as int),
            {
                let ghost old_result = result@;
                if counts[id] > 0 {
                    let mut row = result.remove(id);
                    let ghost before = first_view(row@);
                    row.push(FirstObserved { scenario: order[i].clone(), bytes: counts[id], earlier_unmeasured: missing });
                    proof {
                        assert(first_view(row@) =~= before.push((order@[i as int]@, counts@[id as int] as int, missing)));
                    }
                    let ghost new_row = row;
                    result.insert(id, row);
                    proof {
                        assert(result@ =~= old_result.update(id as int, new_row));
                    }
                }
            }
            let mut all = earlier;
            let mut more = current.clone();
            proof {
                assert(more@ == current@);
            }
            let ghost a = all@;
            all.append(&mut more);
            proof {
                assert(all@ =~= a + current@);
                assert forall|j: int| 0 <= j < all@.len() implies #[trigger] all@[j].start <= all@[j].end by {
                    if j < a.len() {
                        assert(all@[j] == a[j]);
                    } else {
                        assert(all@[j] == current@[j - a.len()]);
                    }
                }
                assert forall|j: int| 0 <= j < all@.len() implies #[trigger] all@[j].start < all@[j].end by {
                    if j < a.len() {
                        assert(all@[j] == a[j]);
                    } else {
                        assert(all@[j] == current@[j - a.len()]);
                    }
                }
            }
            earlier = union(all);
            proof {
                assert forall|p: int| covers(earlier@, p) <==> seen_before(order@, used@, i + 1, p) by {
                    if covers(all@, p) {
                        let j = choose|j: int| 0 <= j < all@.len() && (#[trigger] all@[j]).start <= p < all@[j].end;
                        if j < a.len() {
                            assert(all@[j] == a[j]);
                            assert(covers(a, p));
                        } else {
                            assert(all@[j] == current@[j - a.len()]);
                            assert(observed_in(order@, used@, i as int, p));
                        }
                    }
                    if seen_before(order@, used@, i + 1, p) {
                        let j = choose|j: int| 0 <= j < i + 1 && #[trigger] observed_in(order@, used@, j, p);
                        if j == i {
                            let q = choose|q: int| 0 <= q < current@.len() && (#[trigger] current@[q]).start <= p < current@[q].end;
                            assert(all@[a.len() + q] == current@[q]);
                        } else {
                            assert(seen_before(order@, used@, i as int, p));
                            let q = choose|q: int| 0 <= q < a.len() && (#[trigger] a[q]).start <= p < a[q].end;
                            assert(all@[q] == a[q]);
                        }
                    }
                }
                assert forall|j: int| 0 <= j < i + 1 implies !(#[trigger] recording(used@, order@[j]@) is None) || missing_before(order@, used@, i as int) by {
                }
            }
        }
    }
    result
}

} // verus!
