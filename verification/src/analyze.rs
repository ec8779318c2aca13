//! The whole analysis over bundles already read: selection, per-bundle
//! accounting, and rows over all bundles.
use vstd::prelude::*;

use crate::analysis::{BundleRow, Counts, Report, tally_of};
use crate::bundle::{AnalysisError, Warning, analyze_bundle, bundle_result};
use crate::coverage::{CoverageError, validate_path, valid_coverage_path};
use crate::input::{InputOptions, Observation};
use crate::strings::str_eq;
use crate::summary::{aggregate_sources, fits, grand_total, pairs_view};

verus! {

/// Whether `glob` accepts this pattern.
pub uninterp spec fn pattern_valid(pattern: Seq<char>) -> bool;

/// Whether a valid `glob` pattern matches this path.
pub uninterp spec fn pattern_matches(pattern: Seq<char>, path: Seq<char>) -> bool;

/// `glob::Pattern::new(pattern).is_ok()`: named, a function of the pattern.
#[verifier::external_body]
fn glob_valid(pattern: &str) -> (r: bool)
    ensures
        r == pattern_valid(pattern@),
{
    glob::Pattern::new(pattern).is_ok()
}

/// `glob::Pattern::matches` on a pattern that `glob_valid` accepted: named, a
/// function of the pattern and the path.
#[verifier::external_body]
fn glob_matches(pattern: &str, path: &str) -> (r: bool)
    requires
        pattern_valid(pattern@),
    ensures
        r == pattern_matches(pattern@, path@),
{
    match glob::Pattern::new(pattern) {
        Ok(p) => p.matches(path),
        Err(_) => false,
    }
}

/// A bundle as read from the analysed directory.
#[derive(Debug, Clone)]
pub struct BundleInput {
    /// Slash-separated path relative to the directory.
    pub path: String,
    pub content: String,
    /// The bundle's source map, where one was found.
    pub map_data: Option<Vec<u8>>,
}

/// What to analyse and how.
#[derive(Debug, Clone)]
pub struct AnalyzeOptions {
    pub input: InputOptions,
    /// Bundle paths given an explicit map (bundle path, map path).
    pub maps: Vec<(String, String)>,
    pub include_patterns: Vec<String>,
    pub exclude_patterns: Vec<String>,
    pub details: bool,
}

impl Default for AnalyzeOptions {
    fn default() -> (r: AnalyzeOptions)
        ensures
            r.details,
            r.maps@.len() == 0,
            r.include_patterns@.len() == 0,
            r.exclude_patterns@.len() == 0,
            !r.input.allow_unverified,
            r.input.url_prefixes@.len() == 0,
            r.input.script_paths@.len() == 0,
    {
        AnalyzeOptions {
            input: InputOptions { url_prefixes: Vec::new(), script_paths: Vec::new(), allow_unverified: false },
            maps: Vec::new(),
            include_patterns: Vec::new(),
            exclude_patterns: Vec::new(),
            details: true,
        }
    }
}

/// Why an analysis failed as a whole.
#[derive(Debug, Clone)]
pub enum ReportError {
    /// An explicit map names an unsafe bundle path.
    MapPath(CoverageError),
    /// An explicit map names a bundle that is not in the directory.
    MapTargetMissing(String),
    /// An include or exclude pattern is not a valid glob.
    InvalidPattern(String),
    /// A bundle could not be analysed.
    Bundle(AnalysisError),
    /// The patterns selected no bundle.
    NothingSelected,
    /// Coverage names bundles that are not in the directory.
    CoverageForMissingFiles(Vec<String>),
    /// The counters would overflow.
    TooLarge,
}

/// Some pattern of the list matches `path`.
pub open spec fn any_matches(patterns: Seq<String>, path: Seq<char>) -> bool {
    exists|i: int| 0 <= i < patterns.len() && #[trigger] pattern_matches(patterns[i]@, path)
}

/// The options' patterns select `path`: an include pattern matches (or
/// there is none) and no exclude pattern does.
pub open spec fn selected(options: AnalyzeOptions, path: Seq<char>) -> bool {
    (options.include_patterns@.len() == 0 || any_matches(options.include_patterns@, path)) && !any_matches(
        options.exclude_patterns@,
        path,
    )
}

/// Whether the patterns select a bundle path: `None` where a pattern is not
/// a valid glob, so that a caller can leave a bundle out before reading it.
pub fn selects(options: &AnalyzeOptions, path: &str) -> (r: Option<bool>)
    ensures
        r is Some <==> patterns_valid(options.include_patterns@) && patterns_valid(options.exclude_patterns@),
        r matches Some(b) ==> b == selected(*options, path@),
{
    match all_valid(&options.include_patterns) {
        Err(_) => return None,
        Ok(()) => {},
    }
    match all_valid(&options.exclude_patterns) {
        Err(_) => return None,
        Ok(()) => {},
    }
    let included = options.include_patterns.len() == 0 || any_glob(&options.include_patterns, path);
    let excluded = any_glob(&options.exclude_patterns, path);
    Some(included && !excluded)
}

fn all_valid(patterns: &Vec<String>) -> (r: Result<(), ReportError>)
    ensures
        r is Ok <==> forall|i: int| 0 <= i < patterns@.len() ==> #[trigger] pattern_valid(patterns@[i]@),
        r matches Err(e) ==> e is InvalidPattern,
        r matches Err(ReportError::InvalidPattern(p)) ==> exists|i: int| first_invalid(patterns@, i) && patterns@[i]@ == p@,
{
    for i in 0..patterns.len()
        invariant
            forall|j: int| 0 <= j < i ==> #[trigger] pattern_valid(patterns@[j]@),
    {
        if !glob_valid(patterns[i].as_str()) {
            proof {
                assert(first_invalid(patterns@, i as int));
            }
            return Err(ReportError::InvalidPattern(patterns[i].clone()));
        }
    }
    Ok(())
}

fn any_glob(patterns: &Vec<String>, path: &str) -> (r: bool)
    requires
        forall|i: int| 0 <= i < patterns@.len() ==> #[trigger] pattern_valid(patterns@[i]@),
    ensures
        r == any_matches(patterns@, path@),
{
    for i in 0..patterns.len()
        invariant
            forall|j: int| 0 <= j < patterns@.len() ==> #[trigger] pattern_valid(patterns@[j]@),
            forall|j: int| 0 <= j < i ==> !#[trigger] pattern_matches(patterns@[j]@, path@),
    {
        if glob_matches(patterns[i].as_str(), path) {
            return true;
        }
    }
    false
}

/// Each path is recorded once.
pub open spec fn keys_distinct(coverage: Seq<(String, Vec<Observation>)>) -> bool {
    forall|i: int, j: int| 0 <= i < j < coverage.len() ==> (#[trigger] coverage[i]).0@ != (#[trigger] coverage[j]).0@
}

/// The observations recorded for `path`, if any.
pub open spec fn recorded(coverage: Seq<(String, Vec<Observation>)>, path: Seq<char>) -> Option<Seq<Observation>> {
    if exists|q: int| 0 <= q < coverage.len() && (#[trigger] coverage[q]).0@ == path {
        Some(coverage[choose|q: int| 0 <= q < coverage.len() && (#[trigger] coverage[q]).0@ == path].1@)
    } else {
        None
    }
}

proof fn lemma_recorded_at(coverage: Seq<(String, Vec<Observation>)>, q: int)
    requires
        keys_distinct(coverage),
        0 <= q < coverage.len(),
    ensures
        recorded(coverage, coverage[q].0@) == Some(coverage[q].1@),
{
    let path = coverage[q].0@;
    let c = choose|c: int| 0 <= c < coverage.len() && (#[trigger] coverage[c]).0@ == path;
    assert(0 <= c < coverage.len() && coverage[c].0@ == path);
    if c != q {
        if c < q {
            assert(coverage[c].0@ != coverage[q].0@);
        } else {
            assert(coverage[q].0@ != coverage[c].0@);
        }
    }
}

/// Removes and returns the observations recorded for `path`.
fn take_observations(coverage: &mut Vec<(String, Vec<Observation>)>, path: &str) -> (r: Option<Vec<Observation>>)
    requires
        keys_distinct(old(coverage)@),
    ensures
        keys_distinct(final(coverage)@),
        match r {
            Some(o) => Some(o@),
            None => None,
        } == recorded(old(coverage)@, path@),
        forall|p: Seq<char>|
            #[trigger] recorded(final(coverage)@, p) == if p == path@ {
                None
            } else {
                recorded(old(coverage)@, p)
            },
{
    let mut i: usize = 0;
    while i < coverage.len()
        invariant
            i <= coverage@.len(),
            coverage@ == old(coverage)@,
            keys_distinct(coverage@),
            forall|j: int| 0 <= j < i ==> #[trigger] coverage@[j].0@ != path@,
        decreases coverage@.len() - i,
    {
        if str_eq(coverage[i].0.as_str(), path) {
            let ghost before = coverage@;
            let (_, observations) = coverage.remove(i);
            proof {
                assert(coverage@ =~= before.remove(i as int));
                assert forall|a: int, b: int| 0 <= a < b < coverage@.len() implies (#[trigger] coverage@[a]).0@
                    != (#[trigger] coverage@[b]).0@ by {
                    let aa = if a < i { a } else { a + 1 };
                    let bb = if b < i { b } else { b + 1 };
                    assert(coverage@[a] == before[aa]);
                    assert(coverage@[b] == before[bb]);
                }
                lemma_recorded_at(before, i as int);
                assert forall|p: Seq<char>|
                    #[trigger] recorded(coverage@, p) == if p == path@ {
                        None
                    } else {
                        recorded(before, p)
                    } by {
                    if exists|q: int| 0 <= q < coverage@.len() && (#[trigger] coverage@[q]).0@ == p {
                        let q = choose|q: int| 0 <= q < coverage@.len() && (#[trigger] coverage@[q]).0@ == p;
                        let qq = if q < i { q } else { q + 1 };
                        assert(coverage@[q] == before[qq]);
                        lemma_recorded_at(coverage@, q);
                        lemma_recorded_at(before, qq);
                        assert(p != path@);
                    } else {
                        if p != path@ && exists|q: int| 0 <= q < before.len() && (#[trigger] before[q]).0@ == p {
                            let q = choose|q: int| 0 <= q < before.len() && (#[trigger] before[q]).0@ == p;
                            assert(q != i);
                            let qq = if q < i { q } else { q - 1 };
                            assert(coverage@[qq] == before[q]);
                        }
                    }
                }
            }
            return Some(observations);
        }
        i = i + 1;
    }
    proof {
        assert(!exists|q: int| 0 <= q < coverage@.len() && (#[trigger] coverage@[q]).0@ == path@);
    }
    None
}

/// The bytes of a bundle's map, where it has one.
pub open spec fn map_view(d: Option<Vec<u8>>) -> Option<Seq<u8>> {
    match d {
        Some(v) => Some(v@),
        None => None,
    }
}

/// The counts of all rows.
pub open spec fn rows_total(rows: Seq<BundleRow>) -> crate::analysis::Tally
    decreases rows.len(),
{
    if rows.len() == 0 {
        crate::analysis::zero_tally()
    } else {
        crate::analysis::plus(rows_total(rows.drop_last()), tally_of(rows.last().counts))
    }
}

pub fn checked_add_counts(a: Counts, b: Counts) -> (r: Option<Counts>)
    ensures
        match r {
            Some(c) => tally_of(c) == crate::analysis::plus(tally_of(a), tally_of(b)),
            None => !fits(crate::analysis::plus(tally_of(a), tally_of(b))),
        },
{
    match (
        a.bytes.checked_add(b.bytes),
        a.observed_bytes.checked_add(b.observed_bytes),
        a.unobserved_bytes.checked_add(b.unobserved_bytes),
        a.unmeasured_bytes.checked_add(b.unmeasured_bytes),
    ) {
        (Some(bytes), Some(observed_bytes), Some(unobserved_bytes), Some(unmeasured_bytes)) => Some(
            Counts { bytes, observed_bytes, unobserved_bytes, unmeasured_bytes },
        ),
        _ => None,
    }
}

/// Adds one bundle to the report: analysed where the patterns select it,
/// listed as excluded where they do not; its coverage is consumed either way.
#[verifier::rlimit(100)]
#[verifier::spinoff_prover]
fn add_bundle(
    report: &mut Report,
    entries: &mut Vec<(String, Counts)>,
    coverage: &mut Vec<(String, Vec<Observation>)>,
    bundle: &BundleInput,
    options: &AnalyzeOptions,
) -> (r: Result<bool, ReportError>)
    requires
        keys_distinct(old(coverage)@),
        forall|i: int| 0 <= i < options.include_patterns@.len() ==> #[trigger] pattern_valid(options.include_patterns@[i]@),
        forall|i: int| 0 <= i < options.exclude_patterns@.len() ==> #[trigger] pattern_valid(options.exclude_patterns@[i]@),
        tally_of(old(report).totals) == rows_total(old(report).bundles@),
    ensures
        keys_distinct(final(coverage)@),
        final(report).schema_version == old(report).schema_version,
        final(report).details == old(report).details,
        final(report).scenarios == old(report).scenarios,
        final(report).include_patterns == old(report).include_patterns,
        final(report).exclude_patterns == old(report).exclude_patterns,
        forall|p: Seq<char>|
            #[trigger] recorded(final(coverage)@, p) == if p == bundle.path@ {
                None
            } else {
                recorded(old(coverage)@, p)
            },
        r matches Err(e) ==> (e is Bundle || e is TooLarge) && selected(*options, bundle.path@),
        r matches Err(ReportError::Bundle(e)) ==> !crate::bundle::inputs_ok(
            bundle.content@,
            map_view(bundle.map_data),
            recorded(old(coverage)@, bundle.path@),
            options.input.allow_unverified,
            options.details,
        ) || (options.details && e is Offset),
        r matches Err(ReportError::TooLarge) ==> exists|row: BundleRow|
            bundle_result(
                bundle.path@,
                bundle.content@,
                map_view(bundle.map_data),
                recorded(old(coverage)@, bundle.path@),
                options.input.allow_unverified,
                options.details,
                row,
            ) && !fits(crate::analysis::plus(tally_of(old(report).totals), tally_of(row.counts))),
        r matches Ok(chosen) ==> {
            &&& chosen == selected(*options, bundle.path@)
            &&& chosen ==> bundle_result(
                bundle.path@,
                bundle.content@,
                map_view(bundle.map_data),
                recorded(old(coverage)@, bundle.path@),
                options.input.allow_unverified,
                options.details,
                final(report).bundles@.last(),
            )
            &&& chosen ==> row_counted(*bundle, recorded(old(coverage)@, bundle.path@), options.details, final(report).bundles@.last())
            &&& pairs_view(final(entries)@) == pairs_view(old(entries)@) + (if chosen {
                source_entries(final(report).bundles@.last().sources@)
            } else {
                Seq::empty()
            })
            &&& chosen ==> final(report).bundles@.len() == old(report).bundles@.len() + 1 && final(report).bundles@.drop_last()
                == old(report).bundles@ && final(report).bundles@.last().path@ == bundle.path@
                && crate::analysis::balanced(tally_of(final(report).bundles@.last().counts))
                && final(report).excluded_bundles == old(report).excluded_bundles
            &&& !chosen ==> final(report).bundles == old(report).bundles && final(report).excluded_bundles@ == old(
                report,
            ).excluded_bundles@.push(bundle.path) && final(report).totals == old(report).totals
            &&& tally_of(final(report).totals) == rows_total(final(report).bundles@)
        },
{
    let path = bundle.path.as_str();
    let included = options.include_patterns.len() == 0 || any_glob(&options.include_patterns, path);
    let excluded = any_glob(&options.exclude_patterns, path);
    if !included || excluded {
        let _ = take_observations(coverage, path);
        report.excluded_bundles.push(bundle.path.clone());
        return Ok(false);
    }
    let observations = take_observations(coverage, path);
    let map_data: Option<&[u8]> = match &bundle.map_data {
        Some(d) => Some(d.as_slice()),
        None => None,
    };
    proof {
        assert(crate::bundle::data_view(map_data) == map_view(bundle.map_data));
    }
    let taken = observations.as_ref();
    proof {
        assert(crate::bundle::observations_view(taken) == recorded(old(coverage)@, bundle.path@));
    }
    let analysis = match analyze_bundle(
        path,
        bundle.content.as_str(),
        map_data,
        taken,
        options.input.allow_unverified,
        options.details,
    ) {
        Ok(a) => a,
        Err(e) => return Err(ReportError::Bundle(e)),
    };
    let totals = match checked_add_counts(report.totals, analysis.row.counts) {
        Some(t) => t,
        None => {
            proof {
                assert(bundle_result(
                    bundle.path@,
                    bundle.content@,
                    map_view(bundle.map_data),
                    recorded(old(coverage)@, bundle.path@),
                    options.input.allow_unverified,
                    options.details,
                    analysis.row,
                ));
            }
            return Err(ReportError::TooLarge);
        },
    };
    let ghost base = pairs_view(entries@);
    for s in 0..analysis.row.sources.len()
        invariant
            pairs_view(entries@) == base + source_entries(analysis.row.sources@).take(s as int),
    {
        let ghost before = pairs_view(entries@);
        entries.push((analysis.row.sources[s].source.clone(), analysis.row.sources[s].counts));
        proof {
            assert(pairs_view(entries@) =~= before.push(source_entries(analysis.row.sources@)[s as int]));
            assert(source_entries(analysis.row.sources@).take(s + 1) =~= source_entries(analysis.row.sources@).take(s as int).push(
                source_entries(analysis.row.sources@)[s as int],
            ));
        }
    }
    proof {
        assert(source_entries(analysis.row.sources@).take(analysis.row.sources@.len() as int) =~= source_entries(analysis.row.sources@));
    }
    let mut warnings = analysis.warnings;
    report.warnings.append(&mut warnings);
    let ghost before = report.bundles@;
    report.totals = totals;
    report.bundles.push(analysis.row);
    proof {
        assert(report.bundles@.drop_last() =~= before);
        reveal(row_counted);
    }
    Ok(true)
}

/// A row's per-source entries: name and counts.
pub open spec fn source_entries(sources: Seq<crate::analysis::BundleSource>) -> Seq<(Seq<char>, crate::analysis::Tally)> {
    sources.map_values(|x: crate::analysis::BundleSource| (x.source@, tally_of(x.counts)))
}

/// The per-source entries of all rows, in order.
pub open spec fn row_entries(rows: Seq<BundleRow>) -> Seq<(Seq<char>, crate::analysis::Tally)>
    decreases rows.len(),
{
    if rows.len() == 0 {
        Seq::empty()
    } else {
        row_entries(rows.drop_last()) + source_entries(rows.last().sources@)
    }
}

/// The row was counted from its bundle's text: its segments, used ranges
/// and spans (see `counted_from`).
#[verifier::opaque]
pub open spec fn row_counted(b: BundleInput, observations: Option<Seq<Observation>>, details: bool, row: BundleRow) -> bool {
    exists|text: crate::text::TextIndex, segs: Seq<crate::attribution::Segment>, used: Option<Seq<crate::coverage::Interval>>, contents: Seq<(String, String)>|
        text.wf() && text@ == b.content@ && #[trigger] crate::bundle::counted_from(
            b.content@,
            map_view(b.map_data),
            observations,
            details,
            text,
            row,
            segs,
            used,
            contents,
        )
}

/// `p` is the path of a bundle that the patterns select (or exclude).
pub open spec fn path_of(bundles: Seq<BundleInput>, options: AnalyzeOptions, p: Seq<char>, chosen: bool) -> bool {
    exists|j: int| 0 <= j < bundles.len() && #[trigger] bundles[j].path@ == p && selected(options, p) == chosen
}

/// What a successful analysis states of its report.
pub open spec fn report_result(
    bundles: Seq<BundleInput>,
    scenarios: Seq<String>,
    options: AnalyzeOptions,
    r: Report,
) -> bool {
    &&& r.schema_version == 3
    &&& r.details == options.details
    &&& r.scenarios@ == scenarios
    &&& r.include_patterns@ == options.include_patterns@
    &&& r.exclude_patterns@ == options.exclude_patterns@
    &&& r.bundles@.len() > 0
    &&& r.bundles@.len() + r.excluded_bundles@.len() == bundles.len()
    &&& forall|i: int| 0 <= i < r.bundles@.len() ==> #[trigger] path_of(bundles, options, r.bundles@[i].path@, true)
    &&& forall|i: int|
        0 <= i < r.excluded_bundles@.len() ==> #[trigger] path_of(bundles, options, r.excluded_bundles@[i]@, false)
    &&& tally_of(r.totals) == rows_total(r.bundles@)
    &&& forall|i: int| 0 <= i < r.bundles@.len() ==> crate::analysis::balanced(tally_of(#[trigger] r.bundles@[i].counts))
    &&& crate::summary::ordered(crate::summary::source_rows_view(r.sources@))
    &&& crate::summary::ordered(crate::summary::package_rows_view(r.packages@))
}

/// Some bundle before `k` has this path.
pub open spec fn consumed(bundles: Seq<BundleInput>, k: int, path: Seq<char>) -> bool {
    exists|j: int| 0 <= j < k && #[trigger] bundles[j].path@ == path
}

/// The observations bundle `j` is analysed with: those recorded for its
/// path, unless an earlier bundle of the same path took them.
pub open spec fn observations_for(
    coverage: Seq<(String, Vec<Observation>)>,
    bundles: Seq<BundleInput>,
    j: int,
) -> Option<Seq<Observation>> {
    if consumed(bundles, j, bundles[j].path@) {
        None
    } else {
        recorded(coverage, bundles[j].path@)
    }
}

/// The indices, in order, of the first `n` bundles that the patterns select
/// (`chosen`) or exclude (`!chosen`).
pub open spec fn chosen_upto(bundles: Seq<BundleInput>, options: AnalyzeOptions, chosen: bool, n: int) -> Seq<int>
    decreases n,
{
    if n <= 0 {
        Seq::empty()
    } else if selected(options, bundles[n - 1].path@) == chosen {
        chosen_upto(bundles, options, chosen, n - 1).push(n - 1)
    } else {
        chosen_upto(bundles, options, chosen, n - 1)
    }
}

/// The report's rows are the selected bundles analysed, in order, and its
/// excluded list the paths of the others, in order.
pub open spec fn rows_of_bundles(
    bundles: Seq<BundleInput>,
    coverage: Seq<(String, Vec<Observation>)>,
    options: AnalyzeOptions,
    r: Report,
) -> bool {
    let sel = chosen_upto(bundles, options, true, bundles.len() as int);
    let exc = chosen_upto(bundles, options, false, bundles.len() as int);
    &&& r.bundles@.len() == sel.len()
    &&& forall|i: int|
        0 <= i < sel.len() ==> bundle_result(
            bundles[sel[i]].path@,
            bundles[sel[i]].content@,
            map_view(bundles[sel[i]].map_data),
            observations_for(coverage, bundles, sel[i]),
            options.input.allow_unverified,
            options.details,
            #[trigger] r.bundles@[i],
        )
    &&& forall|i: int|
        0 <= i < sel.len() ==> row_counted(
            bundles[sel[i]],
            observations_for(coverage, bundles, sel[i]),
            options.details,
            #[trigger] r.bundles@[i],
        )
    &&& r.excluded_bundles@.len() == exc.len()
    &&& forall|i: int| 0 <= i < exc.len() ==> (#[trigger] r.excluded_bundles@[i])@ == bundles[exc[i]].path@
    &&& crate::summary::source_rows_view(r.sources@).to_multiset() == crate::summary::merged_rows(row_entries(r.bundles@)).to_multiset()
    &&& crate::summary::package_rows_view(r.packages@).to_multiset() == crate::summary::merged_rows(
        crate::summary::by_package(row_entries(r.bundles@)),
    ).to_multiset()
}

/// An explicit map names a safe path of a bundle in the directory.
pub open spec fn map_ok(bundles: Seq<BundleInput>, target: Seq<char>) -> bool {
    valid_coverage_path(target) && exists|j: int| 0 <= j < bundles.len() && #[trigger] bundles[j].path@ == target
}

pub open spec fn maps_ok(bundles: Seq<BundleInput>, maps: Seq<(String, String)>) -> bool {
    forall|k: int| 0 <= k < maps.len() ==> map_ok(bundles, #[trigger] maps[k].0@)
}

/// Explicit map `i` is the first that is not in order.
pub open spec fn first_bad_map(bundles: Seq<BundleInput>, maps: Seq<(String, String)>, i: int) -> bool {
    0 <= i < maps.len() && !map_ok(bundles, maps[i].0@) && forall|k: int|
        0 <= k < i ==> map_ok(bundles, #[trigger] maps[k].0@)
}

/// The error `validate_path` gives for an unsafe path.
pub open spec fn path_error(p: Seq<char>) -> CoverageError {
    if p.len() == 0 || p.contains('\\') {
        CoverageError::PathNotRelative
    } else {
        CoverageError::PathNotNormal
    }
}

pub open spec fn patterns_valid(patterns: Seq<String>) -> bool {
    forall|i: int| 0 <= i < patterns.len() ==> #[trigger] pattern_valid(patterns[i]@)
}

/// Pattern `i` is the first that `glob` refuses.
pub open spec fn first_invalid(patterns: Seq<String>, i: int) -> bool {
    0 <= i < patterns.len() && !pattern_valid(patterns[i]@) && forall|k: int|
        0 <= k < i ==> #[trigger] pattern_valid(patterns[k]@)
}

proof fn lemma_chosen_nonempty(bundles: Seq<BundleInput>, options: AnalyzeOptions, c: bool, k: int, n: int)
    requires
        0 <= k < n,
        selected(options, bundles[k].path@) == c,
    ensures
        chosen_upto(bundles, options, c, n).len() > 0,
    decreases n,
{
    if k < n - 1 {
        lemma_chosen_nonempty(bundles, options, c, k, n - 1);
    }
}

/// `rows` are analyses, in order, of the first bundles that the patterns select.
pub open spec fn analysed_prefix(
    bundles: Seq<BundleInput>,
    coverage: Seq<(String, Vec<Observation>)>,
    options: AnalyzeOptions,
    rows: Seq<BundleRow>,
) -> bool {
    let sel = chosen_upto(bundles, options, true, bundles.len() as int);
    &&& rows.len() <= sel.len()
    &&& forall|i: int|
        0 <= i < rows.len() ==> bundle_result(
            bundles[sel[i]].path@,
            bundles[sel[i]].content@,
            map_view(bundles[sel[i]].map_data),
            observations_for(coverage, bundles, sel[i]),
            options.input.allow_unverified,
            options.details,
            #[trigger] rows[i],
        )
}

/// The sums of these rows' counts, or a running sum of their per-source
/// counts, do not fit in `usize`.
pub open spec fn overflows(rows: Seq<BundleRow>) -> bool {
    ||| !fits(rows_total(rows))
    ||| exists|i: int| 0 <= i <= row_entries(rows).len() && !fits(#[trigger] grand_total(row_entries(rows).take(i)))
}

/// Every selected bundle's inputs are in order (see `inputs_ok`).
pub open spec fn selected_inputs_ok(
    bundles: Seq<BundleInput>,
    coverage: Seq<(String, Vec<Observation>)>,
    options: AnalyzeOptions,
) -> bool {
    forall|j: int|
        0 <= j < bundles.len() && selected(options, (#[trigger] bundles[j]).path@) ==> crate::bundle::inputs_ok(
            bundles[j].content@,
            map_view(bundles[j].map_data),
            observations_for(coverage, bundles, j),
            options.input.allow_unverified,
            options.details,
        )
}

proof fn lemma_overflow_step(
    bundles: Seq<BundleInput>,
    coverage: Seq<(String, Vec<Observation>)>,
    options: AnalyzeOptions,
    rows: Seq<BundleRow>,
    row: BundleRow,
    k: int,
)
    requires
        0 <= k < bundles.len(),
        selected(options, bundles[k].path@),
        rows.len() == chosen_upto(bundles, options, true, k).len(),
        forall|i: int|
            0 <= i < chosen_upto(bundles, options, true, k).len() ==> bundle_result(
                bundles[chosen_upto(bundles, options, true, k)[i]].path@,
                bundles[chosen_upto(bundles, options, true, k)[i]].content@,
                map_view(bundles[chosen_upto(bundles, options, true, k)[i]].map_data),
                observations_for(coverage, bundles, chosen_upto(bundles, options, true, k)[i]),
                options.input.allow_unverified,
                options.details,
                #[trigger] rows[i],
            ),
        bundle_result(
            bundles[k].path@,
            bundles[k].content@,
            map_view(bundles[k].map_data),
            observations_for(coverage, bundles, k),
            options.input.allow_unverified,
            options.details,
            row,
        ),
        !fits(crate::analysis::plus(rows_total(rows), tally_of(row.counts))),
    ensures
        analysed_prefix(bundles, coverage, options, rows.push(row)),
        overflows(rows.push(row)),
{
    let all = rows.push(row);
    assert(all.drop_last() =~= rows);
    lemma_chosen_prefix(bundles, options, true, k + 1, bundles.len() as int);
    let sel0 = chosen_upto(bundles, options, true, k);
    let sel1 = chosen_upto(bundles, options, true, k + 1);
    let sel = chosen_upto(bundles, options, true, bundles.len() as int);
    assert(sel1 == sel0.push(k));
    assert forall|i: int| 0 <= i < all.len() implies bundle_result(
        bundles[sel[i]].path@,
        bundles[sel[i]].content@,
        map_view(bundles[sel[i]].map_data),
        observations_for(coverage, bundles, sel[i]),
        options.input.allow_unverified,
        options.details,
        #[trigger] all[i],
    ) by {
        assert(sel1[i] == sel[i]);
        if i < rows.len() {
            assert(all[i] == rows[i]);
            assert(sel0[i] == sel1[i]);
        }
    }
}

/// Why adding bundle `k` failed, restated over all the bundles.
proof fn lemma_add_failure(
    bundles: Seq<BundleInput>,
    coverage: Seq<(String, Vec<Observation>)>,
    options: AnalyzeOptions,
    rows: Seq<BundleRow>,
    totals: Counts,
    k: int,
    e: ReportError,
)
    requires
        0 <= k < bundles.len(),
        selected(options, bundles[k].path@),
        rows.len() == chosen_upto(bundles, options, true, k).len(),
        forall|i: int|
            0 <= i < chosen_upto(bundles, options, true, k).len() ==> bundle_result(
                bundles[chosen_upto(bundles, options, true, k)[i]].path@,
                bundles[chosen_upto(bundles, options, true, k)[i]].content@,
                map_view(bundles[chosen_upto(bundles, options, true, k)[i]].map_data),
                observations_for(coverage, bundles, chosen_upto(bundles, options, true, k)[i]),
                options.input.allow_unverified,
                options.details,
                #[trigger] rows[i],
            ),
        tally_of(totals) == rows_total(rows),
        e is Bundle || e is TooLarge,
        e matches ReportError::Bundle(b) ==> !crate::bundle::inputs_ok(
            bundles[k].content@,
            map_view(bundles[k].map_data),
            observations_for(coverage, bundles, k),
            options.input.allow_unverified,
            options.details,
        ) || (options.details && b is Offset),
        e is TooLarge ==> exists|row: BundleRow|
            bundle_result(
                bundles[k].path@,
                bundles[k].content@,
                map_view(bundles[k].map_data),
                observations_for(coverage, bundles, k),
                options.input.allow_unverified,
                options.details,
                row,
            ) && !fits(crate::analysis::plus(tally_of(totals), tally_of(row.counts))),
    ensures
        e matches ReportError::Bundle(b) ==> exists|j: int|
            0 <= j < bundles.len() && selected(options, (#[trigger] bundles[j]).path@) && (!crate::bundle::inputs_ok(
                bundles[j].content@,
                map_view(bundles[j].map_data),
                observations_for(coverage, bundles, j),
                options.input.allow_unverified,
                options.details,
            ) || (options.details && b is Offset)),
        e is TooLarge ==> exists|all: Seq<BundleRow>| analysed_prefix(bundles, coverage, options, all) && overflows(all),
        selected_inputs_ok(bundles, coverage, options) ==> (e is TooLarge || (options.details
            && e matches ReportError::Bundle(AnalysisError::Offset(_, _)))),
{
    if e is TooLarge {
        let row = choose|row: BundleRow|
            bundle_result(
                bundles[k].path@,
                bundles[k].content@,
                map_view(bundles[k].map_data),
                observations_for(coverage, bundles, k),
                options.input.allow_unverified,
                options.details,
                row,
            ) && !fits(crate::analysis::plus(tally_of(totals), tally_of(row.counts)));
        lemma_overflow_step(bundles, coverage, options, rows, row, k);
    }
    if selected_inputs_ok(bundles, coverage, options) {
        assert(crate::bundle::inputs_ok(
            bundles[k].content@,
            map_view(bundles[k].map_data),
            observations_for(coverage, bundles, k),
            options.input.allow_unverified,
            options.details,
        ));
    }
    if e is Bundle {
        assert(selected(options, bundles[k].path@));
    }
}

proof fn lemma_entries_overflow(rows: Seq<BundleRow>, i: int)
    requires
        0 <= i < row_entries(rows).len(),
        !fits(crate::analysis::plus(grand_total(row_entries(rows).take(i)), row_entries(rows)[i].1)),
    ensures
        overflows(rows),
{
    assert(row_entries(rows).take(i + 1).drop_last() =~= row_entries(rows).take(i));
    assert(!fits(grand_total(row_entries(rows).take(i + 1))));
}

proof fn lemma_chosen_prefix(bundles: Seq<BundleInput>, options: AnalyzeOptions, c: bool, k: int, n: int)
    requires
        0 <= k <= n,
    ensures
        chosen_upto(bundles, options, c, k).len() <= chosen_upto(bundles, options, c, n).len(),
        forall|i: int|
            0 <= i < chosen_upto(bundles, options, c, k).len() ==> #[trigger] chosen_upto(bundles, options, c, k)[i]
                == chosen_upto(bundles, options, c, n)[i],
    decreases n - k,
{
    if k < n {
        lemma_chosen_prefix(bundles, options, c, k, n - 1);
    }
}

/// Analyses bundles already read, with the coverage recorded for them (one
/// entry per bundle path) and the scenarios it came from.
#[verifier::rlimit(100)]
#[verifier::spinoff_prover]
#[verifier::loop_isolation(false)]
pub fn analyze_with_options(
    bundles: Vec<BundleInput>,
    coverage: Vec<(String, Vec<Observation>)>,
    scenarios: Vec<String>,
    loader_warnings: Vec<Warning>,
    options: &AnalyzeOptions,
) -> (r: Result<Report, ReportError>)
    requires
        keys_distinct(coverage@),
    ensures
        (exists|i: int| first_bad_map(bundles@, options.maps@, i)) ==> exists|i: int|
            first_bad_map(bundles@, options.maps@, i) && if valid_coverage_path(options.maps@[i].0@) {
                (r matches Err(ReportError::MapTargetMissing(p)) && p@ == options.maps@[i].0@)
            } else {
                (r matches Err(ReportError::MapPath(e)) && e == path_error(options.maps@[i].0@))
            },
        maps_ok(bundles@, options.maps@) && (exists|i: int| first_invalid(options.include_patterns@, i)) ==> (r matches Err(
            ReportError::InvalidPattern(p)) && exists|i: int|
            first_invalid(options.include_patterns@, i) && options.include_patterns@[i]@ == p@),
        maps_ok(bundles@, options.maps@) && patterns_valid(options.include_patterns@) && (exists|i: int|
            first_invalid(options.exclude_patterns@, i)) ==> (r matches Err(ReportError::InvalidPattern(p)) && exists|i: int|
            first_invalid(options.exclude_patterns@, i) && options.exclude_patterns@[i]@ == p@),
        maps_ok(bundles@, options.maps@) && patterns_valid(options.include_patterns@) && patterns_valid(
            options.exclude_patterns@,
        ) && chosen_upto(bundles@, *options, true, bundles@.len() as int).len() == 0 ==> r matches Err(
            ReportError::NothingSelected,
        ),
        r matches Err(ReportError::MapPath(_)) ==> !maps_ok(bundles@, options.maps@),
        r matches Err(ReportError::MapTargetMissing(_)) ==> !maps_ok(bundles@, options.maps@),
        r matches Err(ReportError::InvalidPattern(_)) ==> !(patterns_valid(options.include_patterns@) && patterns_valid(
            options.exclude_patterns@,
        )),
        r matches Err(ReportError::Bundle(_)) ==> maps_ok(bundles@, options.maps@) && patterns_valid(options.include_patterns@)
            && patterns_valid(options.exclude_patterns@) && chosen_upto(bundles@, *options, true, bundles@.len() as int).len() > 0,
        r matches Err(ReportError::TooLarge) ==> maps_ok(bundles@, options.maps@) && patterns_valid(options.include_patterns@)
            && patterns_valid(options.exclude_patterns@) && chosen_upto(bundles@, *options, true, bundles@.len() as int).len() > 0,
        r matches Err(ReportError::CoverageForMissingFiles(missing)) ==> missing@.len() > 0 && forall|m: int|
            0 <= m < missing@.len() ==> recorded(coverage@, (#[trigger] missing@[m])@) is Some && !consumed(
                bundles@,
                bundles@.len() as int,
                missing@[m]@,
            ),
        r matches Err(ReportError::NothingSelected) ==> chosen_upto(bundles@, *options, true, bundles@.len() as int).len() == 0,
        r matches Err(ReportError::Bundle(e)) ==> exists|j: int|
            0 <= j < bundles@.len() && selected(*options, (#[trigger] bundles@[j]).path@) && (!crate::bundle::inputs_ok(
                bundles@[j].content@,
                map_view(bundles@[j].map_data),
                observations_for(coverage@, bundles@, j),
                options.input.allow_unverified,
                options.details,
            ) || (options.details && e is Offset)),
        r matches Err(ReportError::TooLarge) ==> exists|rows: Seq<BundleRow>|
            analysed_prefix(bundles@, coverage@, *options, rows) && overflows(rows),
        maps_ok(bundles@, options.maps@) && patterns_valid(options.include_patterns@) && patterns_valid(
            options.exclude_patterns@,
        ) && chosen_upto(bundles@, *options, true, bundles@.len() as int).len() > 0 && (forall|q: int|
            0 <= q < coverage@.len() ==> consumed(bundles@, bundles@.len() as int, (#[trigger] coverage@[q]).0@))
            && selected_inputs_ok(bundles@, coverage@, *options) ==> (r is Ok || r matches Err(ReportError::TooLarge) || (
        options.details && r matches Err(ReportError::Bundle(AnalysisError::Offset(_, _))))),
        r matches Ok(report) ==> {
            &&& report_result(bundles@, scenarios@, *options, report)
            &&& rows_of_bundles(bundles@, coverage@, *options, report)
            &&& forall|q: int| 0 <= q < coverage@.len() ==> consumed(bundles@, bundles@.len() as int, (#[trigger] coverage@[q]).0@)
        },
{
    let ghost orig = coverage@;
    let mut coverage = coverage;
    for i in 0..options.maps.len()
        invariant
            forall|k: int| 0 <= k < i ==> map_ok(bundles@, #[trigger] options.maps@[k].0@),
    {
        let target = &options.maps[i].0;
        match validate_path(target.as_str()) {
            Err(e) => {
                proof {
                    assert(!valid_coverage_path(options.maps@[i as int].0@));
                    assert(first_bad_map(bundles@, options.maps@, i as int));
                }
                return Err(ReportError::MapPath(e));
            },
            Ok(()) => {},
        }
        let mut found = false;
        for j in 0..bundles.len()
            invariant
                found == exists|k: int| 0 <= k < j && #[trigger] bundles@[k].path@ == target@,
        {
            if !found && str_eq(bundles[j].path.as_str(), target.as_str()) {
                found = true;
            }
        }
        if !found {
            proof {
                assert(first_bad_map(bundles@, options.maps@, i as int));
            }
            return Err(ReportError::MapTargetMissing(target.clone()));
        }
    }
    assert(maps_ok(bundles@, options.maps@));
    match all_valid(&options.include_patterns) {
        Err(e) => return Err(e),
        Ok(()) => {},
    }
    match all_valid(&options.exclude_patterns) {
        Err(e) => return Err(e),
        Ok(()) => {},
    }
    let mut report = Report {
        schema_version: 3,
        details: options.details,
        metric: "utf8-generated-source-bytes".to_string(),
        attribution: "mapping-to-next-mapping-on-same-line; remaining bytes unmapped".to_string(),
        scenarios,
        totals: Counts::zero(),
        bundles: Vec::new(),
        sources: Vec::new(),
        packages: Vec::new(),
        warnings: loader_warnings,
        excluded_bundles: Vec::new(),
        include_patterns: options.include_patterns.clone(),
        exclude_patterns: options.exclude_patterns.clone(),
        budget_failures: Vec::new(),
        scenario_reports: Vec::new(),
        initial_scenario: None,
        import_paths: None,
        recommendations: Vec::new(),
        label_generator: None,
    };
    let ghost sc = report.scenarios@;
    let mut entries: Vec<(String, Counts)> = Vec::new();
    let n = bundles.len();
    for k in 0..n
        invariant
            n == bundles@.len(),
            keys_distinct(coverage@),
            forall|i: int| 0 <= i < options.include_patterns@.len() ==> #[trigger] pattern_valid(options.include_patterns@[i]@),
            forall|i: int| 0 <= i < options.exclude_patterns@.len() ==> #[trigger] pattern_valid(options.exclude_patterns@[i]@),
            report.schema_version == 3,
            report.details == options.details,
            report.scenarios@ == sc,
            report.include_patterns@ == options.include_patterns@,
            report.exclude_patterns@ == options.exclude_patterns@,
            report.bundles@.len() + report.excluded_bundles@.len() == k,
            forall|i: int|
                0 <= i < report.bundles@.len() ==> #[trigger] path_of(bundles@, *options, report.bundles@[i].path@, true),
            forall|i: int|
                0 <= i < report.excluded_bundles@.len() ==> #[trigger] path_of(bundles@, *options, report.excluded_bundles@[i]@, false),
            report.bundles@.len() == 0 ==> forall|j: int| 0 <= j < k ==> !selected(*options, #[trigger] bundles@[j].path@),
            maps_ok(bundles@, options.maps@),
            keys_distinct(orig),
            forall|p: Seq<char>|
                #[trigger] recorded(coverage@, p) == if consumed(bundles@, k as int, p) {
                    None
                } else {
                    recorded(orig, p)
                },
            report.bundles@.len() == chosen_upto(bundles@, *options, true, k as int).len(),
            forall|i: int|
                0 <= i < chosen_upto(bundles@, *options, true, k as int).len() ==> bundle_result(
                    bundles@[chosen_upto(bundles@, *options, true, k as int)[i]].path@,
                    bundles@[chosen_upto(bundles@, *options, true, k as int)[i]].content@,
                    map_view(bundles@[chosen_upto(bundles@, *options, true, k as int)[i]].map_data),
                    observations_for(orig, bundles@, chosen_upto(bundles@, *options, true, k as int)[i]),
                    options.input.allow_unverified,
                    options.details,
                    #[trigger] report.bundles@[i],
                ),
            report.excluded_bundles@.len() == chosen_upto(bundles@, *options, false, k as int).len(),
            forall|i: int|
                0 <= i < chosen_upto(bundles@, *options, false, k as int).len() ==> (#[trigger] report.excluded_bundles@[i])@
                    == bundles@[chosen_upto(bundles@, *options, false, k as int)[i]].path@,
            tally_of(report.totals) == rows_total(report.bundles@),
            forall|i: int| 0 <= i < report.bundles@.len() ==> crate::analysis::balanced(tally_of(#[trigger] report.bundles@[i].counts)),
            forall|i: int|
                0 <= i < chosen_upto(bundles@, *options, true, k as int).len() ==> row_counted(
                    bundles@[chosen_upto(bundles@, *options, true, k as int)[i]],
                    observations_for(orig, bundles@, chosen_upto(bundles@, *options, true, k as int)[i]),
                    options.details,
                    #[trigger] report.bundles@[i],
                ),
            pairs_view(entries@) == row_entries(report.bundles@),
    {
        let ghost before = report;
        let ghost cov_before = coverage@;
        let chosen = match add_bundle(&mut report, &mut entries, &mut coverage, &bundles[k], options) {
            Ok(chosen) => chosen,
            Err(e) => {
                proof {
                    lemma_chosen_nonempty(bundles@, *options, true, k as int, n as int);
                    let pk = bundles@[k as int].path@;
                    assert(recorded(cov_before, pk) == observations_for(orig, bundles@, k as int));
                    lemma_add_failure(bundles@, orig, *options, before.bundles@, before.totals, k as int, e);
                    if let ReportError::Bundle(b) = &e {
                        assert(exists|j: int|
                            0 <= j < bundles@.len() && selected(*options, (#[trigger] bundles@[j]).path@) && (!crate::bundle::inputs_ok(
                                bundles@[j].content@,
                                map_view(bundles@[j].map_data),
                                observations_for(orig, bundles@, j),
                                options.input.allow_unverified,
                                options.details,
                            ) || (options.details && b is Offset)));
                    }
                }
                return Err(e);
            },
        };
        proof {
            let pk = bundles@[k as int].path@;
            assert(recorded(cov_before, pk) == observations_for(orig, bundles@, k as int));
            assert forall|p: Seq<char>|
                #[trigger] recorded(coverage@, p) == if consumed(bundles@, k + 1, p) {
                    None
                } else {
                    recorded(orig, p)
                } by {
                if p == pk {
                    assert(consumed(bundles@, k + 1, p));
                } else {
                    assert(recorded(coverage@, p) == recorded(cov_before, p));
                    if consumed(bundles@, k + 1, p) {
                        let j = choose|j: int| 0 <= j < k + 1 && #[trigger] bundles@[j].path@ == p;
                        assert(consumed(bundles@, k as int, p));
                    } else {
                        assert(!consumed(bundles@, k as int, p));
                    }
                }
            }
            let sel0 = chosen_upto(bundles@, *options, true, k as int);
            let sel1 = chosen_upto(bundles@, *options, true, k + 1);
            let exc0 = chosen_upto(bundles@, *options, false, k as int);
            let exc1 = chosen_upto(bundles@, *options, false, k + 1);
            if chosen {
                let m = report.bundles@.len() - 1;
                assert(report.bundles@.drop_last() =~= before.bundles@);
                assert(sel1 == sel0.push(k as int));
                assert(exc1 == exc0);
                assert forall|i: int| 0 <= i < sel1.len() implies bundle_result(
                    bundles@[sel1[i]].path@,
                    bundles@[sel1[i]].content@,
                    map_view(bundles@[sel1[i]].map_data),
                    observations_for(orig, bundles@, sel1[i]),
                    options.input.allow_unverified,
                    options.details,
                    #[trigger] report.bundles@[i],
                ) by {
                    if i < m {
                        assert(report.bundles@[i] == before.bundles@[i]);
                        assert(sel1[i] == sel0[i]);
                    }
                }
                assert forall|i: int| 0 <= i < sel1.len() implies row_counted(
                    bundles@[sel1[i]],
                    observations_for(orig, bundles@, sel1[i]),
                    options.details,
                    #[trigger] report.bundles@[i],
                ) by {
                    if i < m {
                        assert(report.bundles@[i] == before.bundles@[i]);
                        assert(sel1[i] == sel0[i]);
                    }
                }
                assert(row_entries(report.bundles@) == row_entries(before.bundles@) + source_entries(report.bundles@.last().sources@));
                assert forall|i: int| 0 <= i < report.bundles@.len() implies crate::analysis::balanced(tally_of(#[trigger] report.bundles@[i].counts)) by {
                    if i < m {
                        assert(report.bundles@[i] == before.bundles@[i]);
                    }
                }
                assert forall|i: int| 0 <= i < report.bundles@.len() implies #[trigger] path_of(
                    bundles@,
                    *options,
                    report.bundles@[i].path@,
                    true,
                ) by {
                    if i < m {
                        assert(report.bundles@[i] == before.bundles@[i]);
                    } else {
                        assert(bundles@[k as int].path@ == report.bundles@[i].path@);
                    }
                }
            } else {
                let m = report.excluded_bundles@.len() - 1;
                assert(sel1 == sel0);
                assert(exc1 == exc0.push(k as int));
                assert forall|i: int| 0 <= i < exc1.len() implies (#[trigger] report.excluded_bundles@[i])@
                    == bundles@[exc1[i]].path@ by {
                    if i < m {
                        assert(report.excluded_bundles@[i] == before.excluded_bundles@[i]);
                        assert(exc1[i] == exc0[i]);
                    }
                }
                assert forall|i: int| 0 <= i < report.excluded_bundles@.len() implies #[trigger] path_of(
                    bundles@,
                    *options,
                    report.excluded_bundles@[i]@,
                    false,
                ) by {
                    if i < m {
                        assert(report.excluded_bundles@[i] == before.excluded_bundles@[i]);
                    } else {
                        assert(bundles@[k as int].path@ == report.excluded_bundles@[i]@);
                    }
                }
            }
        }
    }
    if report.bundles.len() == 0 {
        return Err(ReportError::NothingSelected);
    }
    proof {
        assert(analysed_prefix(bundles@, orig, *options, report.bundles@));
    }
    if coverage.len() > 0 {
        let mut missing: Vec<String> = Vec::new();
        for i in 0..coverage.len()
            invariant
                missing@.len() == i,
                keys_distinct(coverage@),
                forall|m: int| 0 <= m < i ==> (#[trigger] missing@[m])@ == coverage@[m].0@,
        {
            missing.push(coverage[i].0.clone());
        }
        proof {
            assert forall|m: int| 0 <= m < missing@.len() implies recorded(orig, (#[trigger] missing@[m])@) is Some
                && !consumed(bundles@, bundles@.len() as int, missing@[m]@) by {
                lemma_recorded_at(coverage@, m);
                assert(recorded(coverage@, missing@[m]@) is Some);
            }
            let p = missing@[0]@;
            assert(recorded(orig, p) is Some);
            let q = choose|q: int| 0 <= q < orig.len() && (#[trigger] orig[q]).0@ == p;
            assert(!consumed(bundles@, bundles@.len() as int, orig[q].0@));
        }
        return Err(ReportError::CoverageForMissingFiles(missing));
    }
    proof {
        assert forall|q: int| 0 <= q < orig.len() implies consumed(bundles@, bundles@.len() as int, (#[trigger] orig[q]).0@) by {
            lemma_recorded_at(orig, q);
            if !consumed(bundles@, bundles@.len() as int, orig[q].0@) {
                assert(recorded(coverage@, orig[q].0@) is Some);
            }
        }
    }
    let mut total = Counts::zero();
    for i in 0..entries.len()
        invariant
            tally_of(total) == grand_total(pairs_view(entries@).take(i as int)),
            fits(tally_of(total)),
            maps_ok(bundles@, options.maps@),
            patterns_valid(options.include_patterns@),
            patterns_valid(options.exclude_patterns@),
            chosen_upto(bundles@, *options, true, bundles@.len() as int).len() > 0,
            analysed_prefix(bundles@, orig, *options, report.bundles@),
            pairs_view(entries@) == row_entries(report.bundles@),
    {
        proof {
            assert(pairs_view(entries@).take(i + 1).drop_last() =~= pairs_view(entries@).take(i as int));
        }
        total = match checked_add_counts(total, entries[i].1) {
            Some(t) => t,
            None => {
                proof {
                    lemma_entries_overflow(report.bundles@, i as int);
                    assert(exists|rows: Seq<BundleRow>| analysed_prefix(bundles@, orig, *options, rows) && overflows(rows));
                }
                return Err(ReportError::TooLarge);
            },
        };
    }
    proof {
        assert(pairs_view(entries@).take(entries@.len() as int) =~= pairs_view(entries@));
    }
    let (sources, packages) = aggregate_sources(&entries);
    report.sources = sources;
    report.packages = packages;
    Ok(report)
}

/// The default options: details on, no explicit maps, no patterns,
/// unverified coverage refused.
pub open spec fn default_options(o: AnalyzeOptions) -> bool {
    &&& o.details
    &&& o.maps@.len() == 0
    &&& o.include_patterns@.len() == 0
    &&& o.exclude_patterns@.len() == 0
    &&& !o.input.allow_unverified
}

/// `analyze_with_options` with the default options.
pub fn analyze(
    bundles: Vec<BundleInput>,
    coverage: Vec<(String, Vec<Observation>)>,
    scenarios: Vec<String>,
    loader_warnings: Vec<Warning>,
) -> (r: Result<Report, ReportError>)
    requires
        keys_distinct(coverage@),
    ensures
        bundles@.len() == 0 ==> r matches Err(ReportError::NothingSelected),
        r matches Err(e) ==> (e is Bundle || e is TooLarge || e is NothingSelected || e is CoverageForMissingFiles),
        r matches Err(ReportError::CoverageForMissingFiles(missing)) ==> missing@.len() > 0 && forall|m: int|
            0 <= m < missing@.len() ==> recorded(coverage@, (#[trigger] missing@[m])@) is Some && !consumed(
                bundles@,
                bundles@.len() as int,
                missing@[m]@,
            ),
        r matches Err(ReportError::Bundle(e)) ==> exists|j: int|
            0 <= j < bundles@.len() && (!crate::bundle::inputs_ok(
                (#[trigger] bundles@[j]).content@,
                map_view(bundles@[j].map_data),
                observations_for(coverage@, bundles@, j),
                false,
                true,
            ) || e is Offset),
        r matches Err(ReportError::TooLarge) ==> exists|o: AnalyzeOptions, rows: Seq<BundleRow>|
            default_options(o) && #[trigger] analysed_prefix(bundles@, coverage@, o, rows) && overflows(rows),
        bundles@.len() > 0 && (forall|q: int|
            0 <= q < coverage@.len() ==> consumed(bundles@, bundles@.len() as int, (#[trigger] coverage@[q]).0@))
            && (forall|j: int|
            0 <= j < bundles@.len() ==> crate::bundle::inputs_ok(
                (#[trigger] bundles@[j]).content@,
                map_view(bundles@[j].map_data),
                observations_for(coverage@, bundles@, j),
                false,
                true,
            )) ==> (r is Ok || r matches Err(ReportError::TooLarge) || r matches Err(
            ReportError::Bundle(AnalysisError::Offset(_, _)),
        )),
        r matches Ok(report) ==> {
            &&& exists|o: AnalyzeOptions| #[trigger] default_options(o) && report_result(bundles@, scenarios@, o, report)
            &&& report.bundles@.len() == bundles@.len()
            &&& report.excluded_bundles@.len() == 0
            &&& forall|i: int|
                0 <= i < bundles@.len() ==> bundle_result(
                    bundles@[i].path@,
                    bundles@[i].content@,
                    map_view(bundles@[i].map_data),
                    observations_for(coverage@, bundles@, i),
                    false,
                    true,
                    #[trigger] report.bundles@[i],
                )
            &&& forall|q: int| 0 <= q < coverage@.len() ==> consumed(bundles@, bundles@.len() as int, (#[trigger] coverage@[q]).0@)
        },
{
    let ghost bv = bundles@;
    let ghost cv = coverage@;
    let options = AnalyzeOptions::default();
    let r = analyze_with_options(bundles, coverage, scenarios, loader_warnings, &options);
    proof {
        assert(default_options(options));
        assert(maps_ok(bv, options.maps@));
        lemma_all_chosen(bv, options, bv.len() as int);
        assert(patterns_valid(options.include_patterns@));
        assert(patterns_valid(options.exclude_patterns@));
        if r is Err && r->Err_0 is TooLarge {
            let rows = choose|rows: Seq<BundleRow>| analysed_prefix(bv, cv, options, rows) && overflows(rows);
            assert(default_options(options) && analysed_prefix(bv, cv, options, rows) && overflows(rows));
        }
        if r is Ok {
            let report = r->Ok_0;
            assert forall|i: int| 0 <= i < bv.len() implies bundle_result(
                bv[i].path@,
                bv[i].content@,
                map_view(bv[i].map_data),
                observations_for(cv, bv, i),
                false,
                true,
                #[trigger] report.bundles@[i],
            ) by {
                assert(chosen_upto(bv, options, true, bv.len() as int)[i] == i);
            }
        }
    }
    r
}

/// Under the default options every bundle is selected.
proof fn lemma_all_chosen(bundles: Seq<BundleInput>, options: AnalyzeOptions, n: int)
    requires
        default_options(options),
        0 <= n <= bundles.len(),
    ensures
        chosen_upto(bundles, options, true, n).len() == n,
        forall|i: int| 0 <= i < n ==> #[trigger] chosen_upto(bundles, options, true, n)[i] == i,
        chosen_upto(bundles, options, false, n).len() == 0,
    decreases n,
{
    if n > 0 {
        lemma_all_chosen(bundles, options, n - 1);
        assert(selected(options, bundles[n - 1].path@));
    }
}

} // verus!
