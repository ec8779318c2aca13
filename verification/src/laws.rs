//! Properties that hold across the library's functions.
use vstd::prelude::*;

use crate::accounting::{
    contiguous, first_names, segment_names, source_tally, span_fits, span_placed, spans_upto, tally_sum,
};
use crate::analysis::{Span, Tally};
use crate::analysis::{balanced, plus, tally_of, zero_tally};
use crate::analyze::{AnalyzeOptions, BundleInput, report_result, rows_total};
use crate::analysis::{BundleRow, Report, SourceRow};
use crate::attribution::Point;
use crate::coverage::{Interval, covers, normalized};
use crate::decoding::{Segment, attributed_names};
use crate::input::{Observation, source_binding};
use crate::scenario::{
    count_points, first_at, first_rows, indexed_contiguous, observed_in, recording, seen_before, source_points,
};
use crate::attribution::IndexedSegment;
use crate::text::TextIndex;

verus! {

/// The canonical form of a point set is unique: two normalized interval
/// lists that cover the same points are equal. As `union` gives a normalized
/// list with the points of its input, a second `union` changes nothing.
pub proof fn law_union_idempotent(s: Seq<Interval>, t: Seq<Interval>)
    requires
        normalized(s),
        normalized(t),
        forall|p: int| covers(s, p) <==> covers(t, p),
    ensures
        s == t,
    decreases s.len() + t.len(),
{
    if s.len() == 0 || t.len() == 0 {
        if s.len() > 0 {
            assert(covers(s, s[0].start as int));
        }
        if t.len() > 0 {
            assert(covers(t, t[0].start as int));
        }
        assert(s =~= t);
    } else {
        assert forall|i: int| 0 <= i < s.len() implies s[0].start <= #[trigger] s[i].start by {
            if i > 0 {
                assert(s[0].end < s[i].start);
            }
        }
        assert forall|i: int| 0 <= i < t.len() implies t[0].start <= #[trigger] t[i].start by {
            if i > 0 {
                assert(t[0].end < t[i].start);
            }
        }
        assert(covers(s, s[0].start as int));
        assert(covers(t, t[0].start as int));
        assert(s[0].start == t[0].start);
        if s[0].end < t[0].end {
            assert(covers(t, s[0].end as int));
            let i = choose|i: int| 0 <= i < s.len() && (#[trigger] s[i]).start <= s[0].end < s[i].end;
            if i > 0 {
                assert(s[0].end < s[i].start);
            }
        }
        if t[0].end < s[0].end {
            assert(covers(s, t[0].end as int));
            let i = choose|i: int| 0 <= i < t.len() && (#[trigger] t[i]).start <= t[0].end < t[i].end;
            if i > 0 {
                assert(t[0].end < t[i].start);
            }
        }
        assert(s[0] == t[0]);
        let s1 = s.skip(1);
        let t1 = t.skip(1);
        assert forall|p: int| covers(s1, p) implies covers(t1, p) by {
            let i = choose|i: int| 0 <= i < s1.len() && (#[trigger] s1[i]).start <= p < s1[i].end;
            assert(s1[i] == s[i + 1]);
            assert(s[0].end < s[i + 1].start);
            assert(covers(s, p));
            let j = choose|j: int| 0 <= j < t.len() && (#[trigger] t[j]).start <= p < t[j].end;
            assert(j > 0);
            assert(t1[j - 1] == t[j]);
        }
        assert forall|p: int| covers(t1, p) implies covers(s1, p) by {
            let i = choose|i: int| 0 <= i < t1.len() && (#[trigger] t1[i]).start <= p < t1[i].end;
            assert(t1[i] == t[i + 1]);
            assert(t[0].end < t[i + 1].start);
            assert(covers(t, p));
            let j = choose|j: int| 0 <= j < s.len() && (#[trigger] s[j]).start <= p < s[j].end;
            assert(j > 0);
            assert(s1[j - 1] == s[j]);
        }
        assert(normalized(s1)) by {
            assert forall|i: int, j: int| 0 <= i < j < s1.len() implies #[trigger] s1[i].end < #[trigger] s1[j].start by {
                assert(s1[i] == s[i + 1] && s1[j] == s[j + 1]);
            }
            assert forall|i: int| 0 <= i < s1.len() implies #[trigger] s1[i].start < s1[i].end by {
                assert(s1[i] == s[i + 1]);
            }
        }
        assert(normalized(t1)) by {
            assert forall|i: int, j: int| 0 <= i < j < t1.len() implies #[trigger] t1[i].end < #[trigger] t1[j].start by {
                assert(t1[i] == t[i + 1] && t1[j] == t[j + 1]);
            }
            assert forall|i: int| 0 <= i < t1.len() implies #[trigger] t1[i].start < t1[i].end by {
                assert(t1[i] == t[i + 1]);
            }
        }
        law_union_idempotent(s1, t1);
        assert(s =~= seq![s[0]] + s1);
        assert(t =~= seq![t[0]] + t1);
    }
}

/// Stripping details a second time changes nothing: every field of the
/// twice-stripped bundle row equals that of the once-stripped one.
pub proof fn law_strip_details_idempotent(before: BundleRow, once: BundleRow, twice: BundleRow)
    requires
        crate::analysis::stripped_bundle(before, once),
        crate::analysis::stripped_bundle(once, twice),
    ensures
        twice.path == once.path,
        twice.sha256 == once.sha256,
        twice.source_map_sha256 == once.source_map_sha256,
        twice.utf16_units == once.utf16_units,
        twice.observed_utf16_units == once.observed_utf16_units,
        twice.mapped_bytes == once.mapped_bytes,
        twice.verification == once.verification,
        twice.counts == once.counts,
        twice.loading == once.loading,
        twice.generated_source@ == once.generated_source@,
        twice.spans@ == once.spans@,
        twice.sources@.len() == once.sources@.len(),
        forall|k: int|
            0 <= k < twice.sources@.len() ==> (#[trigger] twice.sources@[k]).source == once.sources@[k].source
                && twice.sources@[k].package == once.sources@[k].package && twice.sources@[k].counts == once.sources@[k].counts
                && twice.sources@[k].label == once.sources@[k].label && twice.sources@[k].content == once.sources@[k].content,
{
    assert(twice.generated_source@ =~= once.generated_source@);
    assert(twice.spans@ =~= once.spans@);
}

/// Counts that each split into observed, unobserved and unmeasured bytes
/// still do when added up.
pub proof fn law_balanced_rows_add_up(rows: Seq<BundleRow>)
    requires
        forall|i: int| 0 <= i < rows.len() ==> balanced(tally_of(#[trigger] rows[i].counts)),
    ensures
        balanced(rows_total(rows)),
    decreases rows.len(),
{
    if rows.len() > 0 {
        assert forall|i: int| 0 <= i < rows.drop_last().len() implies balanced(tally_of(#[trigger] rows.drop_last()[i].counts)) by {
            assert(rows.drop_last()[i] == rows[i]);
        }
        law_balanced_rows_add_up(rows.drop_last());
        assert(balanced(tally_of(rows[rows.len() - 1].counts)));
    }
}

/// The three states of a report's totals sum to its bytes.
pub proof fn law_report_totals_balanced(bundles: Seq<BundleInput>, scenarios: Seq<String>, options: AnalyzeOptions, r: Report)
    requires
        report_result(bundles, scenarios, options, r),
    ensures
        balanced(tally_of(r.totals)),
{
    law_balanced_rows_add_up(r.bundles@);
}

/// Attributed segments cover the generated text: consecutive, from the first
/// byte to the last, so every byte belongs to exactly one segment, and
/// their bytes add up to the text's length.
pub proof fn law_segments_partition_text(
    text: TextIndex,
    points: Seq<Point>,
    len: int,
    sources: Seq<(Seq<char>, Option<Seq<char>>)>,
    segs: Seq<Segment>,
)
    requires
        attributed_names(text, points, len, sources, segs),
    ensures
        contiguous(segs, len),
        tally_sum(segs, None).bytes == len,
{
    crate::bundle::lemma_named_contiguous(text, points, len, sources, segs);
    crate::accounting::lemma_tally_bounds(segs, None, seq![], segs.len() as int, len);
    assert(segs.take(segs.len() as int) =~= segs);
}

/// `--allow-unverified` never overrides a recorded hash that differs from the bundle's.
pub proof fn law_hash_mismatch_never_allowed(
    o: Observation,
    content: Seq<char>,
    hash: Seq<char>,
    allow_unverified: bool,
)
    requires
        o.hash matches Some(h) && h@ != hash,
    ensures
        source_binding(o, content, hash, allow_unverified) is None,
{
}

/// Bytes that one of the first `n` scenarios observed.
pub open spec fn seen_pred(order: Seq<String>, used: Seq<(String, Vec<Interval>)>, n: int) -> spec_fn(int) -> bool {
    |p: int| seen_before(order, used, n, p)
}

/// The bytes of the first-observation rows of one source.
pub open spec fn first_bytes(rows: Seq<(Seq<char>, int, bool)>) -> int
    decreases rows.len(),
{
    if rows.len() == 0 {
        0
    } else {
        first_bytes(rows.drop_last()) + rows.last().1
    }
}

proof fn lemma_count_union(s: int, e: int, a: spec_fn(int) -> bool, b: spec_fn(int) -> bool, c: spec_fn(int) -> bool)
    requires
        forall|p: int| s <= p < e ==> (#[trigger] c(p) <==> (a(p) || b(p))) && !(a(p) && b(p)),
    ensures
        count_points(s, e, c) == count_points(s, e, a) + count_points(s, e, b),
    decreases e - s,
{
    if e > s {
        lemma_count_union(s, e - 1, a, b, c);
    }
}

proof fn lemma_source_points_union(
    segs: Seq<IndexedSegment>,
    id: int,
    a: spec_fn(int) -> bool,
    b: spec_fn(int) -> bool,
    c: spec_fn(int) -> bool,
    k: int,
)
    requires
        forall|p: int| (#[trigger] c(p) <==> (a(p) || b(p))) && !(a(p) && b(p)),
    ensures
        source_points(segs, id, c, k) == source_points(segs, id, a, k) + source_points(segs, id, b, k),
    decreases k,
{
    if k > 0 {
        lemma_source_points_union(segs, id, a, b, c, k - 1);
        lemma_count_union(segs[k - 1].start as int, segs[k - 1].end as int, a, b, c);
    }
}

proof fn lemma_source_points_none(segs: Seq<IndexedSegment>, id: int, a: spec_fn(int) -> bool, k: int)
    requires
        forall|p: int| !#[trigger] a(p),
    ensures
        source_points(segs, id, a, k) == 0,
    decreases k,
{
    if k > 0 {
        lemma_source_points_none(segs, id, a, k - 1);
        lemma_count_none(segs[k - 1].start as int, segs[k - 1].end as int, a);
    }
}

proof fn lemma_source_points_nonneg(segs: Seq<IndexedSegment>, id: int, a: spec_fn(int) -> bool, k: int)
    ensures
        source_points(segs, id, a, k) >= 0,
    decreases k,
{
    if k > 0 {
        lemma_source_points_nonneg(segs, id, a, k - 1);
        lemma_count_nonneg(segs[k - 1].start as int, segs[k - 1].end as int, a);
    }
}

proof fn lemma_count_nonneg(s: int, e: int, a: spec_fn(int) -> bool)
    ensures
        count_points(s, e, a) >= 0,
    decreases e - s,
{
    if e > s {
        lemma_count_nonneg(s, e - 1, a);
    }
}

proof fn lemma_count_none(s: int, e: int, a: spec_fn(int) -> bool)
    requires
        forall|p: int| !#[trigger] a(p),
    ensures
        count_points(s, e, a) == 0,
    decreases e - s,
{
    if e > s {
        lemma_count_none(s, e - 1, a);
    }
}

/// First observations partition a source's observed bytes: over the first
/// `n` scenarios in order, the bytes first observed in each add up to the
/// bytes that some of them observed.
pub proof fn law_first_observed_partition(
    order: Seq<String>,
    segs: Seq<IndexedSegment>,
    used: Seq<(String, Vec<Interval>)>,
    id: int,
    n: int,
)
    requires
        0 <= n <= order.len(),
    ensures
        first_bytes(first_rows(order, segs, used, id, n)) == source_points(
            segs,
            id,
            seen_pred(order, used, n),
            segs.len() as int,
        ),
    decreases n,
{
    let len = segs.len() as int;
    if n == 0 {
        lemma_source_points_none(segs, id, seen_pred(order, used, 0), len);
    } else {
        law_first_observed_partition(order, segs, used, id, n - 1);
        let before = seen_pred(order, used, n - 1);
        let now = seen_pred(order, used, n);
        let first = first_at(order, used, n - 1);
        assert forall|p: int| (#[trigger] now(p) <==> (before(p) || first(p))) && !(before(p) && first(p)) by {
            if seen_before(order, used, n, p) && !seen_before(order, used, n - 1, p) {
                let j = choose|j: int| 0 <= j < n && #[trigger] observed_in(order, used, j, p);
                if j < n - 1 {
                    assert(seen_before(order, used, n - 1, p));
                }
            }
            if seen_before(order, used, n - 1, p) {
                let j = choose|j: int| 0 <= j < n - 1 && #[trigger] observed_in(order, used, j, p);
                assert(observed_in(order, used, j, p));
            }
            if first(p) {
                assert(observed_in(order, used, n - 1, p));
            }
        }
        lemma_source_points_union(segs, id, before, first, now, len);
        if recording(used, order[n - 1]@) is None {
            assert forall|p: int| !#[trigger] first(p) by {
            }
            lemma_source_points_none(segs, id, first, len);
        }
        lemma_source_points_nonneg(segs, id, first, len);
        let rows = first_rows(order, segs, used, id, n);
        let prev = first_rows(order, segs, used, id, n - 1);
        let b = source_points(segs, id, first, len);
        if recording(used, order[n - 1]@) is Some && b > 0 {
            assert(rows == prev.push((order[n - 1]@, b, crate::scenario::missing_before(order, used, n - 1))));
            assert(rows.drop_last() =~= prev);
            assert(first_bytes(rows) == first_bytes(prev) + b);
        } else {
            assert(rows == prev);
            assert(b == 0);
        }
    }
}


/// The bytes of a run of spans.
pub open spec fn span_bytes(spans: Seq<Span>) -> int
    decreases spans.len(),
{
    if spans.len() == 0 {
        0
    } else {
        span_bytes(spans.drop_last()) + (spans.last().end - spans.last().start)
    }
}

proof fn lemma_consecutive_bytes(spans: Seq<Span>)
    requires
        spans.len() > 0,
        forall|j: int| 0 <= j < spans.len() - 1 ==> #[trigger] spans[j].end == spans[j + 1].start,
    ensures
        span_bytes(spans) == spans.last().end - spans[0].start,
    decreases spans.len(),
{
    if spans.len() > 1 {
        let p = spans.drop_last();
        assert forall|j: int| 0 <= j < p.len() - 1 implies #[trigger] p[j].end == p[j + 1].start by {
            assert(p[j] == spans[j] && p[j + 1] == spans[j + 1]);
        }
        lemma_consecutive_bytes(p);
        assert(spans[spans.len() - 2].end == spans[spans.len() - 1].start);
        assert(p.last() == spans[spans.len() - 2]);
        assert(p[0] == spans[0]);
    } else {
        assert(spans.drop_last() =~= Seq::<Span>::empty());
        assert(span_bytes(spans.drop_last()) == 0);
        assert(spans.last() == spans[0]);
    }
    assert(span_bytes(spans) == span_bytes(spans.drop_last()) + (spans.last().end - spans.last().start));
}

/// Detail spans account for every byte of a bundle: their lengths add up
/// to the bundle's length.
pub proof fn law_spans_cover_bundle(
    text: Seq<char>,
    segs: Seq<Segment>,
    ids: Seq<usize>,
    used: Option<Seq<Interval>>,
    spans: Seq<Span>,
    len: int,
)
    requires
        spans_upto(text, segs, ids, used, spans, len),
    ensures
        span_bytes(spans) == len,
{
    if spans.len() > 0 {
        lemma_consecutive_bytes(spans);
    }
}

/// The sum of the counts of the named sources.
pub open spec fn names_total(segs: Seq<Segment>, used: Option<Seq<Interval>>, names: Seq<Seq<char>>) -> Tally
    decreases names.len(),
{
    if names.len() == 0 {
        zero_tally()
    } else {
        plus(names_total(segs, used, names.drop_last()), source_tally(segs, used, names.last()))
    }
}

proof fn lemma_names_total_step(segs: Seq<Segment>, used: Option<Seq<Interval>>, names: Seq<Seq<char>>, x: Segment)
    requires
        names.no_duplicates(),
    ensures
        names.contains(x.source@) ==> names_total(segs.push(x), used, names) == plus(
            names_total(segs, used, names),
            crate::accounting::segment_tally(x, used),
        ),
        !names.contains(x.source@) ==> names_total(segs.push(x), used, names) == names_total(segs, used, names),
    decreases names.len(),
{
    let t = segs.push(x);
    assert(t.drop_last() =~= segs);
    if names.len() > 0 {
        let rest = names.drop_last();
        assert(rest.no_duplicates()) by {
            assert forall|i: int, j: int| 0 <= i < rest.len() && 0 <= j < rest.len() && i != j implies rest[i] != rest[j] by {
                assert(rest[i] == names[i] && rest[j] == names[j]);
            }
        }
        lemma_names_total_step(segs, used, rest, x);
        if names.last() == x.source@ {
            assert(!rest.contains(x.source@)) by {
                if rest.contains(x.source@) {
                    let i = choose|i: int| 0 <= i < rest.len() && rest[i] == x.source@;
                    assert(names[i] == names[names.len() - 1]);
                }
            }
        } else {
            if names.contains(x.source@) {
                let i = choose|i: int| 0 <= i < names.len() && names[i] == x.source@;
                assert(rest[i] == x.source@);
            }
            if rest.contains(x.source@) {
                let i = choose|i: int| 0 <= i < rest.len() && rest[i] == x.source@;
                assert(names[i] == x.source@);
            }
        }
    }
}

proof fn lemma_absent_total(segs: Seq<Segment>, used: Option<Seq<Interval>>, names: Seq<Seq<char>>, y: Seq<char>)
    requires
        !segment_names(segs).contains(y),
    ensures
        names_total(segs, used, names.push(y)) == names_total(segs, used, names),
{
    assert(names.push(y).drop_last() =~= names);
    crate::accounting::lemma_source_tally_absent(segs, used, y);
}

/// Sources partition a bundle: the counts of its sources, each once, add
/// up to the bundle's counts.
pub proof fn law_sources_partition_bundle(segs: Seq<Segment>, used: Option<Seq<Interval>>)
    ensures
        names_total(segs, used, first_names(segment_names(segs))) == tally_sum(segs, used),
    decreases segs.len(),
{
    if segs.len() > 0 {
        let p = segs.drop_last();
        let x = segs.last();
        law_sources_partition_bundle(p, used);
        assert(p.push(x) =~= segs);
        let np = segment_names(p);
        assert(segment_names(segs) =~= np.push(x.source@));
        assert(segment_names(segs).drop_last() =~= np);
        crate::accounting::lemma_first_names_distinct(np);
        crate::accounting::lemma_first_names_contains(np, x.source@);
        let fp = first_names(np);
        lemma_names_total_step(p, used, fp, x);
        if !fp.contains(x.source@) {
            crate::accounting::lemma_first_names_distinct(segment_names(segs));
            let fs = first_names(segment_names(segs));
            assert(fs == fp.push(x.source@));
            assert(fs.drop_last() =~= fp);
            lemma_names_total_step(p, used, fs, x);
            lemma_absent_total(p, used, fp, x.source@);
            assert(fs.contains(x.source@)) by {
                assert(fs[fs.len() - 1] == x.source@);
            }
        }
    }
}


/// The recommendation for an interaction candidate. The initial scenario must
/// have measured the source fully: with bytes of the candidate executed in
/// bundles that have no initial recording, with no initial row for the
/// source, or with unmeasured initial bytes, it asks to measure the initial
/// scenario first. Otherwise, where a nonempty chain of static imports
/// reaches the source, it asks to split the source when part of it executed
/// initially and to defer the import when none of it did; where the chain
/// crosses an `import()`, to review that boundary; else to inspect the
/// imports.
pub proof fn law_candidate_recommendation(
    report: Report,
    c: crate::scenario::InteractionCandidate,
)
    ensures
        ({
            let initial = crate::recommendations::find_scenario(report.scenario_reports@, report.initial_scenario, 0);
            let row = match initial {
                Some(s) => crate::recommendations::find_row(s.sources@, c.source@, 0),
                None => None,
            };
            let measured = c.initial_unmeasured_observed_bytes == 0 && (row matches Some(r)
                && r.counts.unmeasured_bytes == 0);
            let all_static = crate::recommendations::path_for(report, c.source@) matches Some(p) && p.edges@.len() > 0
                && forall|e: int| 0 <= e < p.edges@.len() ==> (#[trigger] p.edges@[e]).kind == crate::graph::ImportKind::Static;
            let crossing = crate::recommendations::path_for(report, c.source@) matches Some(p) && exists|e: int|
                0 <= e < p.edges@.len() && (#[trigger] p.edges@[e]).kind == crate::graph::ImportKind::Dynamic;
            &&& (crate::recommendations::candidate_kind(report, c) == crate::recommendations::RecommendationKind::MeasureInitial
                <==> !measured)
            &&& measured && all_static && (row matches Some(r) && r.counts.observed_bytes > 0) ==> crate::recommendations::candidate_kind(report, c)
                == crate::recommendations::RecommendationKind::SplitReview
            &&& measured && all_static && (row matches Some(r) && r.counts.observed_bytes == 0) ==> crate::recommendations::candidate_kind(report, c)
                == crate::recommendations::RecommendationKind::DeferReview
            &&& measured && !all_static && crossing ==> crate::recommendations::candidate_kind(report, c)
                == crate::recommendations::RecommendationKind::DynamicBoundaryReview
            &&& measured && !all_static && !crossing ==> crate::recommendations::candidate_kind(report, c)
                == crate::recommendations::RecommendationKind::InspectImports
        }),
{
}

/// A row present both in the baseline and now is unchanged exactly when all
/// four counts are equal, and changed otherwise; a row only now is added and
/// a row only in the baseline removed. Each count of the delta, added to the
/// baseline's, gives the current one.
pub proof fn law_change_kind(before: crate::analysis::Counts, after: crate::analysis::Counts)
    ensures
        crate::baseline::change_of(Some(before), Some(after)).0 == (if before.bytes == after.bytes
            && before.observed_bytes == after.observed_bytes && before.unobserved_bytes == after.unobserved_bytes
            && before.unmeasured_bytes == after.unmeasured_bytes {
            crate::baseline::ChangeKind::Unchanged
        } else {
            crate::baseline::ChangeKind::Changed
        }),
        crate::baseline::change_of(None, Some(after)).0 == crate::baseline::ChangeKind::Added,
        crate::baseline::change_of(Some(before), None).0 == crate::baseline::ChangeKind::Removed,
        crate::baseline::change_of(Some(before), Some(after)).1 == before,
        crate::baseline::change_of(Some(before), Some(after)).2 == after,
        ({
            let d = crate::baseline::delta_of(before, after);
            &&& before.bytes + d.bytes == after.bytes
            &&& before.observed_bytes + d.observed_bytes == after.observed_bytes
            &&& before.unobserved_bytes + d.unobserved_bytes == after.unobserved_bytes
            &&& before.unmeasured_bytes + d.unmeasured_bytes == after.unmeasured_bytes
        }),
{
}

/// The URL prefix chosen for a coverage URL is one that the URL starts with,
/// one is chosen whenever some prefix matches, and none that matches is
/// longer than the chosen one.
pub proof fn law_longest_prefix_wins(prefixes: Seq<String>, s: Seq<char>, n: int)
    requires
        0 <= n <= prefixes.len(),
    ensures
        (exists|j: int| 0 <= j < n && crate::input::starts_with(s, (#[trigger] prefixes[j])@)) <==> crate::input::longest_prefix(
            prefixes,
            s,
            n,
        ) is Some,
        crate::input::longest_prefix(prefixes, s, n) matches Some(i) ==> {
            &&& 0 <= i < n
            &&& crate::input::starts_with(s, prefixes[i]@)
            &&& forall|j: int| 0 <= j < n && crate::input::starts_with(s, (#[trigger] prefixes[j])@) ==> prefixes[j]@.len() <= prefixes[i]@.len()
        },
    decreases n,
{
    if n > 0 {
        law_longest_prefix_wins(prefixes, s, n - 1);
        if crate::input::starts_with(s, prefixes[n - 1]@) {
            assert(exists|j: int| 0 <= j < n && crate::input::starts_with(s, (#[trigger] prefixes[j])@));
        }
        if exists|j: int| 0 <= j < n - 1 && crate::input::starts_with(s, (#[trigger] prefixes[j])@) {
            let j = choose|j: int| 0 <= j < n - 1 && crate::input::starts_with(s, (#[trigger] prefixes[j])@);
            assert(0 <= j < n && crate::input::starts_with(s, prefixes[j]@));
        }
    }
}

/// The path ends in `suffix`.
pub open spec fn ends_in(path: Seq<char>, suffix: Seq<char>) -> bool {
    suffix.len() <= path.len() && path.subrange(path.len() - suffix.len(), path.len() as int) == suffix
}

/// Only outputs ending in `.js`, `.mjs` or `.cjs` count as JavaScript: another
/// output (a `.css` file, say) adds no input bytes and no entry point, and a
/// JavaScript output adds each of its inputs' bytes, in order.
pub proof fn law_only_javascript_outputs_count(
    meta: crate::metadata::Metafile,
    out: (String, Option<String>, Vec<(String, usize)>),
    more: crate::metadata::Metafile,
    name: Seq<char>,
)
    requires
        more.inputs@ == meta.inputs@,
        more.outputs@ == meta.outputs@.push(out),
    ensures
        !(ends_in(out.0@, ".js"@) || ends_in(out.0@, ".mjs"@) || ends_in(out.0@, ".cjs"@)) ==> {
            &&& crate::metadata::js_entries(more.outputs@) == crate::metadata::js_entries(meta.outputs@)
            &&& crate::metadata::entry_point(more, name) == crate::metadata::entry_point(meta, name)
        },
        ends_in(out.0@, ".js"@) || ends_in(out.0@, ".mjs"@) || ends_in(out.0@, ".cjs"@) ==> {
            &&& crate::metadata::js_entries(more.outputs@) == crate::metadata::js_entries(meta.outputs@) + out.2@.map_values(
                |p: (String, usize)| (p.0@, Tally { bytes: p.1 as int, observed: 0, unobserved: 0, unmeasured: 0 }),
            )
            &&& (out.1 matches Some(e) && e@ == name) ==> crate::metadata::entry_point(more, name)
        },
{
    reveal_strlit(".js");
    reveal_strlit(".mjs");
    reveal_strlit(".cjs");
    assert(more.outputs@.drop_last() =~= meta.outputs@);
    let js = ends_in(out.0@, ".js"@) || ends_in(out.0@, ".mjs"@) || ends_in(out.0@, ".cjs"@);
    assert(crate::metadata::javascript_output(out.0@) == js);
    if !js {
        assert(crate::metadata::js_entries(more.outputs@) =~= crate::metadata::js_entries(meta.outputs@));
        if crate::metadata::entry_point(more, name) {
            let o = choose|o: int|
                0 <= o < more.outputs@.len() && crate::metadata::javascript_output(more.outputs@[o].0@) && ((#[trigger] more.outputs@[o]).1 matches Some(
                    e,
                ) && e@ == name);
            assert(o < meta.outputs@.len());
            assert(meta.outputs@[o] == more.outputs@[o]);
        }
        if crate::metadata::entry_point(meta, name) {
            let o = choose|o: int|
                0 <= o < meta.outputs@.len() && crate::metadata::javascript_output(meta.outputs@[o].0@) && ((#[trigger] meta.outputs@[o]).1 matches Some(
                    e,
                ) && e@ == name);
            assert(meta.outputs@[o] == more.outputs@[o]);
        }
    } else {
        if out.1 matches Some(e) && e@ == name {
            let o = meta.outputs@.len() as int;
            assert(more.outputs@[o] == out);
        }
    }
}


/// The fields of a line of tab-separated values: the runs of characters
/// between tabs.
pub open spec fn tab_fields(s: Seq<char>) -> Seq<Seq<char>>
    decreases s.len(),
{
    if s.len() == 0 {
        seq![Seq::empty()]
    } else {
        let rest = tab_fields(s.drop_last());
        if s.last() == '\t' {
            rest.push(Seq::empty())
        } else {
            rest.drop_last().push(rest.last().push(s.last()))
        }
    }
}

pub open spec fn tab_free(s: Seq<char>) -> bool {
    forall|i: int| 0 <= i < s.len() ==> s[i] != '\t'
}

proof fn lemma_tab_fields_nonempty(s: Seq<char>)
    ensures
        tab_fields(s).len() >= 1,
    decreases s.len(),
{
    if s.len() > 0 {
        lemma_tab_fields_nonempty(s.drop_last());
    }
}

proof fn lemma_tab_free_field(s: Seq<char>)
    requires
        tab_free(s),
    ensures
        tab_fields(s) == seq![s],
    decreases s.len(),
{
    if s.len() > 0 {
        lemma_tab_free_field(s.drop_last());
        assert(s.drop_last().push(s.last()) =~= s);
        assert(tab_fields(s) =~= seq![s]);
    } else {
        assert(s =~= Seq::<char>::empty());
    }
}

proof fn lemma_tab_fields_join(a: Seq<char>, b: Seq<char>)
    ensures
        tab_fields(a + seq!['\t'] + b) == tab_fields(a) + tab_fields(b),
    decreases b.len(),
{
    let s = a + seq!['\t'] + b;
    if b.len() == 0 {
        assert(s.drop_last() =~= a);
        assert(tab_fields(b) =~= seq![Seq::<char>::empty()]);
        assert(tab_fields(s) =~= tab_fields(a) + tab_fields(b));
    } else {
        let b1 = b.drop_last();
        lemma_tab_fields_join(a, b1);
        assert(s.drop_last() =~= a + seq!['\t'] + b1);
        lemma_tab_fields_nonempty(b1);
        let ta = tab_fields(a);
        let tb = tab_fields(b1);
        if b.last() == '\t' {
            assert(tab_fields(s) =~= ta + tab_fields(b));
        } else {
            assert((ta + tb).drop_last() =~= ta + tb.drop_last());
            assert((ta + tb).last() == tb.last());
            assert(tab_fields(s) =~= ta + tab_fields(b));
        }
    }
}

proof fn lemma_decimal_tab_free(n: nat)
    ensures
        tab_free(crate::report::decimal(n)),
    decreases n,
{
    if n >= 10 {
        lemma_decimal_tab_free(n / 10);
    }
}

proof fn lemma_tsv_field_tab_free(s: Seq<char>)
    ensures
        tab_free(crate::report::tsv_field(s)),
    decreases s.len(),
{
    if s.len() > 0 {
        lemma_tsv_field_tab_free(s.drop_last());
    }
}

/// The TSV table has the header columns Source, Bytes, Observed, Unobserved
/// and Unmeasured, and each row adds one line whose fields, in that order,
/// are the escaped source name and the decimals of its bytes, observed,
/// unobserved and unmeasured bytes.
pub proof fn law_tsv_columns(rows: Seq<SourceRow>, n: int)
    requires
        0 <= n <= rows.len(),
    ensures
        n == 0 ==> {
            let h = crate::report::tsv_text(rows, 0);
            &&& h.len() > 0 && h.last() == '\n'
            &&& tab_fields(h.drop_last()) == seq!["Source"@, "Bytes"@, "Observed"@, "Unobserved"@, "Unmeasured"@]
        },
        n > 0 ==> {
            let t = crate::report::tsv_text(rows, n);
            let p = crate::report::tsv_text(rows, n - 1);
            let r = rows[n - 1];
            &&& p.len() < t.len()
            &&& t.subrange(0, p.len() as int) == p
            &&& t.last() == '\n'
            &&& tab_fields(t.subrange(p.len() as int, t.len() - 1)) == seq![
                crate::report::tsv_field(r.source@),
                crate::report::decimal(r.counts.bytes as nat),
                crate::report::decimal(r.counts.observed_bytes as nat),
                crate::report::decimal(r.counts.unobserved_bytes as nat),
                crate::report::decimal(r.counts.unmeasured_bytes as nat),
            ]
        },
{
    if n == 0 {
        lemma_tsv_header();
        assert(crate::report::tsv_text(rows, 0) == crate::report::tsv_text(Seq::<SourceRow>::empty(), 0));
    } else {
        let t = crate::report::tsv_text(rows, n);
        let p = crate::report::tsv_text(rows, n - 1);
        let l = crate::report::tsv_line(rows[n - 1]);
        lemma_tsv_line_fields(rows[n - 1]);
        assert(t == p + l);
        assert(t.subrange(0, p.len() as int) =~= p);
        assert(t.subrange(p.len() as int, t.len() - 1) =~= l.drop_last());
    }
}

proof fn lemma_tsv_header()
    ensures
        ({
            let h = crate::report::tsv_text(Seq::<SourceRow>::empty(), 0);
            &&& h.len() > 0 && h.last() == '\n'
            &&& tab_fields(h.drop_last()) == seq!["Source"@, "Bytes"@, "Observed"@, "Unobserved"@, "Unmeasured"@]
        }),
{
    reveal_strlit("Source\tBytes\tObserved\tUnobserved\tUnmeasured\n");
    reveal_strlit("Source");
    reveal_strlit("Bytes");
    reveal_strlit("Observed");
    reveal_strlit("Unobserved");
    reveal_strlit("Unmeasured");
    let h = crate::report::tsv_text(Seq::<SourceRow>::empty(), 0);
    let w = seq!["Source"@, "Bytes"@, "Observed"@, "Unobserved"@, "Unmeasured"@];
    assert(h.drop_last() =~= w[0] + seq!['\t'] + (w[1] + seq!['\t'] + (w[2] + seq!['\t'] + (w[3] + seq!['\t'] + w[4]))));
    five_fields(w[0], w[1], w[2], w[3], w[4]);
}

proof fn lemma_tsv_line_fields(r: SourceRow)
    ensures
        ({
            let l = crate::report::tsv_line(r);
            &&& l.len() > 0 && l.last() == '\n'
            &&& tab_fields(l.drop_last()) == seq![
                crate::report::tsv_field(r.source@),
                crate::report::decimal(r.counts.bytes as nat),
                crate::report::decimal(r.counts.observed_bytes as nat),
                crate::report::decimal(r.counts.unobserved_bytes as nat),
                crate::report::decimal(r.counts.unmeasured_bytes as nat),
            ]
        }),
{
    let f0 = crate::report::tsv_field(r.source@);
    let f1 = crate::report::decimal(r.counts.bytes as nat);
    let f2 = crate::report::decimal(r.counts.observed_bytes as nat);
    let f3 = crate::report::decimal(r.counts.unobserved_bytes as nat);
    let f4 = crate::report::decimal(r.counts.unmeasured_bytes as nat);
    let l = crate::report::tsv_line(r);
    assert(l.drop_last() =~= f0 + seq!['\t'] + (f1 + seq!['\t'] + (f2 + seq!['\t'] + (f3 + seq!['\t'] + f4))));
    lemma_tsv_field_tab_free(r.source@);
    lemma_decimal_tab_free(r.counts.bytes as nat);
    lemma_decimal_tab_free(r.counts.observed_bytes as nat);
    lemma_decimal_tab_free(r.counts.unobserved_bytes as nat);
    lemma_decimal_tab_free(r.counts.unmeasured_bytes as nat);
    five_fields(f0, f1, f2, f3, f4);
}

proof fn five_fields(a: Seq<char>, b: Seq<char>, c: Seq<char>, d: Seq<char>, e: Seq<char>)
    requires
        tab_free(a),
        tab_free(b),
        tab_free(c),
        tab_free(d),
        tab_free(e),
    ensures
        tab_fields(a + seq!['\t'] + (b + seq!['\t'] + (c + seq!['\t'] + (d + seq!['\t'] + e)))) == seq![a, b, c, d, e],
{
    lemma_tab_free_field(a);
    lemma_tab_free_field(b);
    lemma_tab_free_field(c);
    lemma_tab_free_field(d);
    lemma_tab_free_field(e);
    lemma_tab_fields_join(d, e);
    lemma_tab_fields_join(c, d + seq!['\t'] + e);
    lemma_tab_fields_join(b, c + seq!['\t'] + (d + seq!['\t'] + e));
    lemma_tab_fields_join(a, b + seq!['\t'] + (c + seq!['\t'] + (d + seq!['\t'] + e)));
    assert(seq![a] + (seq![b] + (seq![c] + (seq![d] + seq![e]))) =~= seq![a, b, c, d, e]);
}

} // verus!
