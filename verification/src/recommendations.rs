//! Review suggestions grounded in measured scenarios and explicit import evidence.
use vstd::prelude::*;

use crate::analysis::{Report, SourceRow};
use crate::attribution::{unmapped_chars, unmapped_name};
use crate::graph::{dynamic_chain, is_dynamic_chain, is_static_chain, static_chain};
use crate::metadata::ImportPath;
use crate::scenario::{InteractionCandidate, ScenarioReport};
use crate::strings::{chars_of, same_chars, str_eq};
use crate::summary::{chars_less, lemma_name_less_irreflexive, lemma_name_less_transitive, name_less};

verus! {

/// What a recommendation suggests.
#[derive(Debug, Clone, Copy, PartialEq, Eq, Structural)]
pub enum RecommendationKind {
    /// Record the source in the initial scenario first.
    MeasureInitial,
    /// Separate the later-only part of a source used initially.
    SplitReview,
    /// Move a static import behind the interaction.
    DeferReview,
    /// Check when an existing `import()` boundary is invoked.
    DynamicBoundaryReview,
    /// Inspect the imports before choosing a boundary.
    InspectImports,
    /// Review removing a source no scenario executed.
    RemovalReview,
}

/// A suggestion for one source.
#[derive(Debug, Clone)]
pub struct Recommendation {
    pub kind: RecommendationKind,
    pub source: String,
    pub scenario: Option<String>,
    pub bytes: usize,
    pub import_path: Option<ImportPath>,
    pub explanation: String,
}

/// The first scenario report named `name`.
pub open spec fn find_scenario(reports: Seq<ScenarioReport>, name: Option<String>, i: int) -> Option<ScenarioReport>
    decreases reports.len() - i,
{
    if i < 0 || i >= reports.len() {
        None
    } else if name matches Some(n) && reports[i].scenario@ == n@ {
        Some(reports[i])
    } else {
        find_scenario(reports, name, i + 1)
    }
}

/// The first source row named `name`.
pub open spec fn find_row(rows: Seq<SourceRow>, name: Seq<char>, i: int) -> Option<SourceRow>
    decreases rows.len() - i,
{
    if i < 0 || i >= rows.len() {
        None
    } else if rows[i].source@ == name {
        Some(rows[i])
    } else {
        find_row(rows, name, i + 1)
    }
}

/// The first import path whose resolved source is `name`.
pub open spec fn find_path(paths: Seq<ImportPath>, name: Seq<char>, i: int) -> Option<ImportPath>
    decreases paths.len() - i,
{
    if i < 0 || i >= paths.len() {
        None
    } else if paths[i].resolved_source matches Some(r) && r@ == name {
        Some(paths[i])
    } else {
        find_path(paths, name, i + 1)
    }
}

/// The import path of a source, where the report has import paths.
pub open spec fn path_for(report: Report, name: Seq<char>) -> Option<ImportPath> {
    match report.import_paths {
        Some(paths) => find_path(paths@, name, 0),
        None => None,
    }
}

/// The recommendation for an interaction candidate.
pub open spec fn candidate_kind(report: Report, c: InteractionCandidate) -> RecommendationKind {
    let initial = find_scenario(report.scenario_reports@, report.initial_scenario, 0);
    let counts = match initial {
        Some(s) => match find_row(s.sources@, c.source@, 0) {
            Some(row) => Some(row.counts),
            None => None,
        },
        None => None,
    };
    let path = path_for(report, c.source@);
    let static_path = path matches Some(p) && static_chain(p.edges@);
    let dynamic_path = path matches Some(p) && dynamic_chain(p.edges@);
    if c.initial_unmeasured_observed_bytes > 0 || !(counts matches Some(k) && k.unmeasured_bytes == 0) {
        RecommendationKind::MeasureInitial
    } else if static_path && (counts matches Some(k) && k.observed_bytes > 0) {
        RecommendationKind::SplitReview
    } else if static_path {
        RecommendationKind::DeferReview
    } else if dynamic_path {
        RecommendationKind::DynamicBoundaryReview
    } else {
        RecommendationKind::InspectImports
    }
}

/// A recommendation as contracts see it: kind, source, scenario, bytes,
/// and whether it carries an import path.
pub type RecView = (RecommendationKind, Seq<char>, Option<Seq<char>>, int, bool);

pub open spec fn rec_view(r: Recommendation) -> RecView {
    (r.kind, r.source@, match r.scenario { Some(s) => Some(s@), None => None }, r.bytes as int, r.import_path is Some)
}

pub open spec fn recs_view(v: Seq<Recommendation>) -> Seq<RecView> {
    v.map_values(|r: Recommendation| rec_view(r))
}

/// The recommendations for the first `n` candidates of a scenario.
pub open spec fn scenario_recs(report: Report, s: ScenarioReport, n: int) -> Seq<RecView>
    decreases n,
{
    if n <= 0 {
        Seq::empty()
    } else {
        let rest = scenario_recs(report, s, n - 1);
        let c = s.interaction_candidates@[n - 1];
        if c.source@ == unmapped_name() {
            rest
        } else {
            rest.push(
                (
                    candidate_kind(report, c),
                    c.source@,
                    Some(s.scenario@),
                    c.interaction_only_bytes + c.initial_unmeasured_observed_bytes,
                    path_for(report, c.source@) is Some,
                ),
            )
        }
    }
}

/// The candidate recommendations of the first `m` scenarios.
pub open spec fn candidate_recs(report: Report, m: int) -> Seq<RecView>
    decreases m,
{
    if m <= 0 {
        Seq::empty()
    } else {
        let s = report.scenario_reports@[m - 1];
        candidate_recs(report, m - 1) + scenario_recs(report, s, s.interaction_candidates@.len() as int)
    }
}

/// The scenario measured every byte of the source.
pub open spec fn measured_in(s: ScenarioReport, name: Seq<char>) -> bool {
    exists|j: int| 0 <= j < s.sources@.len() && (#[trigger] s.sources@[j]).source@ == name && s.sources@[j].counts.unmeasured_bytes == 0
}

/// Every scenario measured the source.
pub open spec fn fully_measured(report: Report, name: Seq<char>) -> bool {
    forall|i: int| 0 <= i < report.scenario_reports@.len() ==> measured_in(#[trigger] report.scenario_reports@[i], name)
}

/// The removal recommendations among the first `n` source rows.
pub open spec fn removal_recs(report: Report, n: int) -> Seq<RecView>
    decreases n,
{
    if n <= 0 {
        Seq::empty()
    } else {
        let rest = removal_recs(report, n - 1);
        let row = report.sources@[n - 1];
        if row.source@ == unmapped_name() || row.counts.observed_bytes > 0 || report.scenario_reports@.len() == 0
            || !fully_measured(report, row.source@) {
            rest
        } else {
            rest.push((RecommendationKind::RemovalReview, row.source@, None, row.counts.bytes as int, false))
        }
    }
}

/// Recommendations by size, largest first; then by source; then by scenario.
pub open spec fn rec_before(a: RecView, b: RecView) -> bool {
    a.3 > b.3 || (a.3 == b.3 && (name_less(a.1, b.1) || (a.1 == b.1 && scenario_less(a.2, b.2))))
}

/// `Option` order: none first, then by name.
pub open spec fn scenario_less(a: Option<Seq<char>>, b: Option<Seq<char>>) -> bool {
    match (a, b) {
        (None, Some(_)) => true,
        (Some(x), Some(y)) => name_less(x, y),
        _ => false,
    }
}

pub open spec fn recs_ordered(v: Seq<RecView>) -> bool {
    forall|i: int, j: int| 0 <= i < j < v.len() ==> !rec_before(#[trigger] v[j], #[trigger] v[i])
}


/// The explanation that goes with each kind.
pub open spec fn explanation_text(kind: RecommendationKind) -> Seq<char> {
    match kind {
        RecommendationKind::MeasureInitial => "Record this source in the initial scenario before inferring deferrable bytes. Missing coverage does not prove the chunk was absent from the initial load."@,
        RecommendationKind::SplitReview => "A static import chain reaches this source, and part of it executes initially. Consider separating the later-only functionality before introducing import(); deferring the whole module may break initial behavior."@,
        RecommendationKind::DeferReview => "A static import chain reaches this source. It was measured but not observed initially and executes in this interaction. Review moving the import behind this interaction, checking side effects and rebuilding to measure transfer savings."@,
        RecommendationKind::DynamicBoundaryReview => "The recorded graph path already crosses import(). Check when that boundary is invoked or prefetched before adding another split; this path does not establish all routes to the module."@,
        RecommendationKind::InspectImports => "These measured bytes execute in this interaction but not initially. Inspect the import graph and side effects before choosing a lazy-loading boundary."@,
        RecommendationKind::RemovalReview => "No execution was observed in any supplied scenario, and each scenario measured this source. Review missing user flows, side effects and tests before removing it; coverage alone does not prove removal is safe."@,
    }
}

fn explanation(kind: RecommendationKind) -> (r: String)
    ensures
        r@ == explanation_text(kind),
{
    match kind {
        RecommendationKind::MeasureInitial => "Record this source in the initial scenario before inferring deferrable bytes. Missing coverage does not prove the chunk was absent from the initial load.".to_string(),
        RecommendationKind::SplitReview => "A static import chain reaches this source, and part of it executes initially. Consider separating the later-only functionality before introducing import(); deferring the whole module may break initial behavior.".to_string(),
        RecommendationKind::DeferReview => "A static import chain reaches this source. It was measured but not observed initially and executes in this interaction. Review moving the import behind this interaction, checking side effects and rebuilding to measure transfer savings.".to_string(),
        RecommendationKind::DynamicBoundaryReview => "The recorded graph path already crosses import(). Check when that boundary is invoked or prefetched before adding another split; this path does not establish all routes to the module.".to_string(),
        RecommendationKind::InspectImports => "These measured bytes execute in this interaction but not initially. Inspect the import graph and side effects before choosing a lazy-loading boundary.".to_string(),
        RecommendationKind::RemovalReview => "No execution was observed in any supplied scenario, and each scenario measured this source. Review missing user flows, side effects and tests before removing it; coverage alone does not prove removal is safe.".to_string(),
    }
}

proof fn lemma_find_scenario_none(reports: Seq<ScenarioReport>, i: int)
    ensures
        find_scenario(reports, None, i) is None,
    decreases reports.len() - i,
{
    if 0 <= i < reports.len() {
        lemma_find_scenario_none(reports, i + 1);
    }
}

fn find_scenario_index(reports: &Vec<ScenarioReport>, name: &Option<String>) -> (r: Option<usize>)
    ensures
        match r {
            Some(i) => i < reports@.len() && find_scenario(reports@, *name, 0) == Some(reports@[i as int]),
            None => find_scenario(reports@, *name, 0) is None,
        },
{
    let n = match name {
        Some(n) => n,
        None => {
            proof {
                lemma_find_scenario_none(reports@, 0);
            }
            return None;
        },
    };
    let mut i: usize = 0;
    while i < reports.len()
        invariant
            i <= reports@.len(),
            *name == Some(*n),
            find_scenario(reports@, *name, 0) == find_scenario(reports@, *name, i as int),
        decreases reports@.len() - i,
    {
        if str_eq(reports[i].scenario.as_str(), n.as_str()) {
            proof {
                assert(reports@[i as int].scenario@ == n@);
                assert(find_scenario(reports@, *name, i as int) == Some(reports@[i as int]));
            }
            return Some(i);
        }
        i = i + 1;
    }
    None
}

fn find_row_index(rows: &Vec<SourceRow>, name: &str) -> (r: Option<usize>)
    ensures
        match r {
            Some(i) => i < rows@.len() && find_row(rows@, name@, 0) == Some(rows@[i as int]),
            None => find_row(rows@, name@, 0) is None,
        },
{
    let mut i: usize = 0;
    while i < rows.len()
        invariant
            i <= rows@.len(),
            find_row(rows@, name@, 0) == find_row(rows@, name@, i as int),
        decreases rows@.len() - i,
    {
        if str_eq(rows[i].source.as_str(), name) {
            return Some(i);
        }
        i = i + 1;
    }
    None
}

fn find_path_index(paths: &Vec<ImportPath>, name: &str) -> (r: Option<usize>)
    ensures
        match r {
            Some(i) => i < paths@.len() && find_path(paths@, name@, 0) == Some(paths@[i as int]),
            None => find_path(paths@, name@, 0) is None,
        },
{
    let mut i: usize = 0;
    while i < paths.len()
        invariant
            i <= paths@.len(),
            find_path(paths@, name@, 0) == find_path(paths@, name@, i as int),
        decreases paths@.len() - i,
    {
        let matched = match &paths[i].resolved_source {
            Some(r) => str_eq(r.as_str(), name),
            None => false,
        };
        if matched {
            return Some(i);
        }
        i = i + 1;
    }
    None
}

fn path_index(report: &Report, name: &str) -> (r: Option<usize>)
    ensures
        match r {
            Some(i) => report.import_paths matches Some(p) && i < p@.len() && path_for(*report, name@) == Some(p@[i as int]),
            None => path_for(*report, name@) is None,
        },
{
    match &report.import_paths {
        Some(paths) => find_path_index(paths, name),
        None => None,
    }
}

fn candidate_kind_exec(report: &Report, initial: Option<usize>, c: &InteractionCandidate) -> (r: RecommendationKind)
    requires
        match initial {
            Some(i) => i < report.scenario_reports@.len() && find_scenario(report.scenario_reports@, report.initial_scenario, 0)
                == Some(report.scenario_reports@[i as int]),
            None => find_scenario(report.scenario_reports@, report.initial_scenario, 0) is None,
        },
    ensures
        r == candidate_kind(*report, *c),
{
    let counts = match initial {
        Some(i) => match find_row_index(&report.scenario_reports[i].sources, c.source.as_str()) {
            Some(j) => Some(report.scenario_reports[i].sources[j].counts),
            None => None,
        },
        None => None,
    };
    let (static_path, dynamic_path) = match path_index(report, c.source.as_str()) {
        Some(i) => match &report.import_paths {
            Some(paths) => (is_static_chain(&paths[i].edges), is_dynamic_chain(&paths[i].edges)),
            None => (false, false),
        },
        None => (false, false),
    };
    let measured = match counts {
        Some(k) => k.unmeasured_bytes == 0,
        None => false,
    };
    let observed = match counts {
        Some(k) => k.observed_bytes > 0,
        None => false,
    };
    if c.initial_unmeasured_observed_bytes > 0 || !measured {
        RecommendationKind::MeasureInitial
    } else if static_path && observed {
        RecommendationKind::SplitReview
    } else if static_path {
        RecommendationKind::DeferReview
    } else if dynamic_path {
        RecommendationKind::DynamicBoundaryReview
    } else {
        RecommendationKind::InspectImports
    }
}


proof fn lemma_rec_before_transitive(a: RecView, b: RecView, c: RecView)
    requires
        rec_before(a, b),
        rec_before(b, c),
    ensures
        rec_before(a, c),
{
    if a.3 == b.3 && b.3 == c.3 {
        if name_less(a.1, b.1) && name_less(b.1, c.1) {
            lemma_name_less_transitive(a.1, b.1, c.1);
        } else if a.1 == b.1 && b.1 == c.1 {
            match (a.2, b.2, c.2) {
                (Some(x), Some(y), Some(z)) => {
                    lemma_name_less_transitive(x, y, z);
                },
                _ => {},
            }
        }
    }
}

proof fn lemma_rec_before_irreflexive(a: RecView)
    ensures
        !rec_before(a, a),
{
    lemma_name_less_irreflexive(a.1);
    if let Some(x) = a.2 {
        lemma_name_less_irreflexive(x);
    }
}

fn scenario_first(a: &Option<String>, b: &Option<String>) -> (r: bool)
    ensures
        r == scenario_less(
            match a { Some(s) => Some(s@), None => None },
            match b { Some(s) => Some(s@), None => None },
        ),
{
    match (a, b) {
        (None, Some(_)) => true,
        (Some(x), Some(y)) => chars_less(&chars_of(x.as_str()), &chars_of(y.as_str())),
        _ => false,
    }
}

fn rec_first(a: &Recommendation, b: &Recommendation) -> (r: bool)
    ensures
        r == rec_before(rec_view(*a), rec_view(*b)),
{
    if a.bytes != b.bytes {
        return a.bytes > b.bytes;
    }
    let sa = chars_of(a.source.as_str());
    let sb = chars_of(b.source.as_str());
    if chars_less(&sa, &sb) {
        return true;
    }
    if !same_chars(&sa, &sb) {
        return false;
    }
    scenario_first(&a.scenario, &b.scenario)
}

pub open spec fn explained(v: Seq<Recommendation>) -> bool {
    forall|i: int| 0 <= i < v.len() ==> (#[trigger] v[i]).explanation@ == explanation_text(v[i].kind)
}

fn sort_recs(items: Vec<Recommendation>) -> (r: Vec<Recommendation>)
    requires
        explained(items@),
    ensures
        recs_view(r@).to_multiset() == recs_view(items@).to_multiset(),
        recs_ordered(recs_view(r@)),
        explained(r@),
{
    broadcast use vstd::seq_lib::group_to_multiset_ensures;

    let mut rest = items;
    let mut out: Vec<Recommendation> = Vec::new();
    let ghost all = recs_view(items@);
    proof {
        assert(recs_view(out@) + recs_view(rest@) =~= all);
    }
    while rest.len() > 0
        invariant
            (recs_view(out@) + recs_view(rest@)).to_multiset() == all.to_multiset(),
            recs_ordered(recs_view(out@)),
            explained(out@),
            explained(rest@),
            forall|i: int, j: int| 0 <= i < out@.len() && 0 <= j < rest@.len() ==> !rec_before(#[trigger] recs_view(rest@)[j], #[trigger] recs_view(out@)[i]),
        decreases rest@.len(),
    {
        let ghost rv = recs_view(rest@);
        let mut best: usize = 0;
        let mut k: usize = 1;
        proof {
            lemma_rec_before_irreflexive(rv[0]);
        }
        while k < rest.len()
            invariant
                rv == recs_view(rest@),
                rest@.len() > 0,
                best < k <= rest@.len(),
                forall|j: int| 0 <= j < k ==> !rec_before(#[trigger] rv[j], rv[best as int]),
            decreases rest@.len() - k,
        {
            if rec_first(&rest[k], &rest[best]) {
                proof {
                    assert forall|j: int| 0 <= j < k implies !rec_before(#[trigger] rv[j], rv[k as int]) by {
                        if rec_before(rv[j], rv[k as int]) {
                            lemma_rec_before_transitive(rv[j], rv[k as int], rv[best as int]);
                        }
                    }
                    lemma_rec_before_irreflexive(rv[k as int]);
                }
                best = k;
            }
            k = k + 1;
        }
        let ghost ov = recs_view(out@);
        let ghost oo = out@;
        let ghost ro = rest@;
        let item = rest.remove(best);
        out.push(item);
        proof {
            assert forall|i: int| 0 <= i < out@.len() implies (#[trigger] out@[i]).explanation@ == explanation_text(out@[i].kind) by {
                if i < oo.len() {
                    assert(out@[i] == oo[i]);
                } else {
                    assert(out@[i] == ro[best as int]);
                }
            }
            assert forall|j: int| 0 <= j < rest@.len() implies (#[trigger] rest@[j]).explanation@ == explanation_text(rest@[j].kind) by {
                let jj = if j < best { j } else { j + 1 };
                assert(rest@[j] == ro[jj]);
            }
            let x = rv[best as int];
            assert(recs_view(out@) =~= ov.push(x));
            assert(recs_view(rest@) =~= rv.remove(best as int));
            let nv = recs_view(out@);
            assert forall|i: int, j: int| 0 <= i < j < nv.len() implies !rec_before(#[trigger] nv[j], #[trigger] nv[i]) by {
                if j < ov.len() {
                    assert(nv[j] == ov[j] && nv[i] == ov[i]);
                } else {
                    assert(nv[i] == ov[i]);
                }
            }
            assert forall|i: int, j: int| 0 <= i < out@.len() && 0 <= j < rest@.len() implies !rec_before(#[trigger] recs_view(rest@)[j], #[trigger] recs_view(out@)[i]) by {
                let jj = if j < best { j } else { j + 1 };
                assert(recs_view(rest@)[j] == rv[jj]);
                if i < ov.len() {
                    assert(recs_view(out@)[i] == ov[i]);
                }
            }
            let base = ov + rv.remove(best as int);
            assert(ov + rv =~= base.insert(ov.len() + best, x));
            assert(recs_view(out@) + recs_view(rest@) =~= base.insert(ov.len() as int, x));
            vstd::seq_lib::to_multiset_insert(base, ov.len() + best, x);
            vstd::seq_lib::to_multiset_insert(base, ov.len() as int, x);
        }
    }
    proof {
        assert(recs_view(out@) + recs_view(rest@) =~= recs_view(out@));
    }
    out
}


fn measured_in_exec(s: &ScenarioReport, name: &str) -> (r: bool)
    ensures
        r == measured_in(*s, name@),
{
    for j in 0..s.sources.len()
        invariant
            forall|k: int| 0 <= k < j ==> !((#[trigger] s.sources@[k]).source@ == name@ && s.sources@[k].counts.unmeasured_bytes == 0),
    {
        if s.sources[j].counts.unmeasured_bytes == 0 && str_eq(s.sources[j].source.as_str(), name) {
            return true;
        }
    }
    false
}

/// The candidate sums of every scenario fit a `usize`.
pub open spec fn sums_fit(report: Report) -> bool {
    forall|i: int, j: int|
        0 <= i < report.scenario_reports@.len() && 0 <= j < report.scenario_reports@[i].interaction_candidates@.len()
            ==> #[trigger] report.scenario_reports@[i].interaction_candidates@[j].interaction_only_bytes
            + report.scenario_reports@[i].interaction_candidates@[j].initial_unmeasured_observed_bytes <= usize::MAX
}

/// Review suggestions: for each interaction candidate of each scenario
/// (`[unmapped]` aside), what to do given the initial scenario's
/// measurements and the import path; for each source no scenario executed
/// but every scenario measured, a removal review; largest first.
pub fn build(report: &Report) -> (r: Vec<Recommendation>)
    requires
        sums_fit(*report),
    ensures
        recs_view(r@).to_multiset() == (candidate_recs(*report, report.scenario_reports@.len() as int) + removal_recs(
            *report,
            report.sources@.len() as int,
        )).to_multiset(),
        recs_ordered(recs_view(r@)),
        explained(r@),
{
    let initial = find_scenario_index(&report.scenario_reports, &report.initial_scenario);
    let unmapped = unmapped_chars();
    let mut recs: Vec<Recommendation> = Vec::new();
    let m = report.scenario_reports.len();
    proof {
        assert(recs_view(recs@) =~= candidate_recs(*report, 0));
    }
    for si in 0..m
        invariant
            m == report.scenario_reports@.len(),
            sums_fit(*report),
            unmapped@ == unmapped_name(),
            match initial {
                Some(i) => i < report.scenario_reports@.len() && find_scenario(report.scenario_reports@, report.initial_scenario, 0)
                    == Some(report.scenario_reports@[i as int]),
                None => find_scenario(report.scenario_reports@, report.initial_scenario, 0) is None,
            },
            recs_view(recs@) == candidate_recs(*report, si as int),
            explained(recs@),
    {
        let s = &report.scenario_reports[si];
        let ghost base = recs_view(recs@);
        proof {
            assert(base + scenario_recs(*report, *s, 0) =~= base);
        }
        for ci in 0..s.interaction_candidates.len()
            invariant
                si < m,
                m == report.scenario_reports@.len(),
                *s == report.scenario_reports@[si as int],
                sums_fit(*report),
                unmapped@ == unmapped_name(),
                match initial {
                    Some(i) => i < report.scenario_reports@.len() && find_scenario(report.scenario_reports@, report.initial_scenario, 0)
                        == Some(report.scenario_reports@[i as int]),
                    None => find_scenario(report.scenario_reports@, report.initial_scenario, 0) is None,
                },
                recs_view(recs@) == base + scenario_recs(*report, *s, ci as int),
                explained(recs@),
        {
            let c = &s.interaction_candidates[ci];
            let ghost before = recs_view(recs@);
            if !same_chars(&chars_of(c.source.as_str()), &unmapped) {
                let kind = candidate_kind_exec(report, initial, c);
                let import_path = match path_index(report, c.source.as_str()) {
                    Some(i) => match &report.import_paths {
                        Some(paths) => Some(paths[i].clone()),
                        None => None,
                    },
                    None => None,
                };
                proof {
                    assert(report.scenario_reports@[si as int].interaction_candidates@[ci as int] == *c);
                }
                let bytes = c.interaction_only_bytes + c.initial_unmeasured_observed_bytes;
                let ghost orecs = recs@;
                recs.push(
                    Recommendation {
                        kind,
                        source: c.source.clone(),
                        scenario: Some(s.scenario.clone()),
                        bytes,
                        import_path,
                        explanation: explanation(kind),
                    },
                );
                proof {
                    assert(recs_view(recs@) =~= before.push(rec_view(recs@.last())));
                    assert forall|i: int| 0 <= i < recs@.len() implies (#[trigger] recs@[i]).explanation@ == explanation_text(recs@[i].kind) by {
                        if i < orecs.len() {
                            assert(recs@[i] == orecs[i]);
                        }
                    }
                }
            }
            proof {
                assert(base + scenario_recs(*report, *s, ci + 1) =~= recs_view(recs@));
            }
        }
        proof {
            assert(candidate_recs(*report, si + 1) == candidate_recs(*report, si as int) + scenario_recs(*report, *s, s.interaction_candidates@.len() as int));
        }
    }
    let ghost cands = recs_view(recs@);
    let n = report.sources.len();
    proof {
        assert(cands + removal_recs(*report, 0) =~= cands);
    }
    for k in 0..n
        invariant
            n == report.sources@.len(),
            unmapped@ == unmapped_name(),
            recs_view(recs@) == cands + removal_recs(*report, k as int),
            explained(recs@),
    {
        let row = &report.sources[k];
        let ghost before = recs_view(recs@);
        let mut candidate = !same_chars(&chars_of(row.source.as_str()), &unmapped) && row.counts.observed_bytes == 0
            && report.scenario_reports.len() > 0;
        if candidate {
            for si in 0..report.scenario_reports.len()
                invariant
                    candidate ==> forall|i: int| 0 <= i < si ==> measured_in(#[trigger] report.scenario_reports@[i], row.source@),
                    !candidate ==> !fully_measured(*report, row.source@),
            {
                if candidate && !measured_in_exec(&report.scenario_reports[si], row.source.as_str()) {
                    candidate = false;
                }
            }
        }
        if candidate {
            let ghost orecs = recs@;
            recs.push(
                Recommendation {
                    kind: RecommendationKind::RemovalReview,
                    source: row.source.clone(),
                    scenario: None,
                    bytes: row.counts.bytes,
                    import_path: None,
                    explanation: explanation(RecommendationKind::RemovalReview),
                },
            );
            proof {
                assert(recs_view(recs@) =~= before.push(rec_view(recs@.last())));
                assert forall|i: int| 0 <= i < recs@.len() implies (#[trigger] recs@[i]).explanation@ == explanation_text(recs@[i].kind) by {
                    if i < orecs.len() {
                        assert(recs@[i] == orecs[i]);
                    }
                }
            }
        }
        proof {
            assert(report.sources@[k as int] == *row);
            assert(cands + removal_recs(*report, k + 1) =~= recs_view(recs@));
        }
    }
    sort_recs(recs)
}


/// Recommendations depend on the scenarios, the initial scenario, the import
/// paths and the source rows alone.
pub proof fn lemma_recs_depend_on_inputs(a: Report, b: Report)
    requires
        a.scenario_reports == b.scenario_reports,
        a.initial_scenario == b.initial_scenario,
        a.import_paths == b.import_paths,
        a.sources == b.sources,
    ensures
        candidate_recs(a, a.scenario_reports@.len() as int) == candidate_recs(b, b.scenario_reports@.len() as int),
        removal_recs(a, a.sources@.len() as int) == removal_recs(b, b.sources@.len() as int),
{
    lemma_candidate_recs_same(a, b, a.scenario_reports@.len() as int);
    lemma_removal_recs_same(a, b, a.sources@.len() as int);
}

proof fn lemma_candidate_recs_same(a: Report, b: Report, m: int)
    requires
        a.scenario_reports == b.scenario_reports,
        a.initial_scenario == b.initial_scenario,
        a.import_paths == b.import_paths,
        a.sources == b.sources,
    ensures
        candidate_recs(a, m) == candidate_recs(b, m),
    decreases m,
{
    if m > 0 {
        lemma_candidate_recs_same(a, b, m - 1);
        let s = a.scenario_reports@[m - 1];
        lemma_scenario_recs_same(a, b, s, s.interaction_candidates@.len() as int);
    }
}

proof fn lemma_scenario_recs_same(a: Report, b: Report, s: ScenarioReport, n: int)
    requires
        a.scenario_reports == b.scenario_reports,
        a.initial_scenario == b.initial_scenario,
        a.import_paths == b.import_paths,
        a.sources == b.sources,
    ensures
        scenario_recs(a, s, n) == scenario_recs(b, s, n),
    decreases n,
{
    if n > 0 {
        lemma_scenario_recs_same(a, b, s, n - 1);
    }
}

proof fn lemma_removal_recs_same(a: Report, b: Report, n: int)
    requires
        a.scenario_reports == b.scenario_reports,
        a.sources == b.sources,
    ensures
        removal_recs(a, n) == removal_recs(b, n),
    decreases n,
{
    if n > 0 {
        lemma_removal_recs_same(a, b, n - 1);
        let row = a.sources@[n - 1];
        assert(fully_measured(a, row.source@) == fully_measured(b, row.source@));
    }
}

} // verus!
