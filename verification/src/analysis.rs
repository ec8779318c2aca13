//! Byte accounting: how many generated bytes each bundle, source and package
//! holds, and how many of them coverage observed.
use vstd::prelude::*;

use crate::attribution::OriginalPosition;
use crate::coverage::{Interval, covers, separated};
use crate::input::Verification;

verus! {

/// Generated UTF-8 bytes, split by what coverage says of them.
#[derive(Debug, Clone, Copy, PartialEq, Eq, Structural)]
pub struct Counts {
    pub bytes: usize,
    pub observed_bytes: usize,
    pub unobserved_bytes: usize,
    pub unmeasured_bytes: usize,
}

/// Counts as contracts add them.
pub struct Tally {
    pub bytes: int,
    pub observed: int,
    pub unobserved: int,
    pub unmeasured: int,
}

pub open spec fn tally_of(c: Counts) -> Tally {
    Tally {
        bytes: c.bytes as int,
        observed: c.observed_bytes as int,
        unobserved: c.unobserved_bytes as int,
        unmeasured: c.unmeasured_bytes as int,
    }
}

pub open spec fn zero_tally() -> Tally {
    Tally { bytes: 0, observed: 0, unobserved: 0, unmeasured: 0 }
}

pub open spec fn plus(a: Tally, b: Tally) -> Tally {
    Tally {
        bytes: a.bytes + b.bytes,
        observed: a.observed + b.observed,
        unobserved: a.unobserved + b.unobserved,
        unmeasured: a.unmeasured + b.unmeasured,
    }
}

/// Every byte is observed, unobserved or unmeasured, and exactly one of them.
pub open spec fn balanced(t: Tally) -> bool {
    t.bytes == t.observed + t.unobserved + t.unmeasured && t.observed >= 0 && t.unobserved >= 0
        && t.unmeasured >= 0
}

impl Counts {
    /// All zero.
    pub fn zero() -> (r: Counts)
        ensures
            tally_of(r) == zero_tally(),
    {
        Counts { bytes: 0, observed_bytes: 0, unobserved_bytes: 0, unmeasured_bytes: 0 }
    }

    /// Adds `other` field by field.
    pub fn add(&mut self, other: &Counts)
        requires
            old(self).bytes + other.bytes <= usize::MAX,
            old(self).observed_bytes + other.observed_bytes <= usize::MAX,
            old(self).unobserved_bytes + other.unobserved_bytes <= usize::MAX,
            old(self).unmeasured_bytes + other.unmeasured_bytes <= usize::MAX,
        ensures
            tally_of(*final(self)) == plus(tally_of(*old(self)), tally_of(*other)),
    {
        self.bytes = self.bytes + other.bytes;
        self.observed_bytes = self.observed_bytes + other.observed_bytes;
        self.unobserved_bytes = self.unobserved_bytes + other.unobserved_bytes;
        self.unmeasured_bytes = self.unmeasured_bytes + other.unmeasured_bytes;
    }
}

impl Default for Counts {
    fn default() -> (r: Counts)
        ensures
            tally_of(r) == zero_tally(),
    {
        Counts::zero()
    }
}

/// A source's bytes over all bundles.
#[derive(Debug, Clone)]
pub struct SourceRow {
    pub source: String,
    pub package: String,
    pub counts: Counts,
    pub label: Option<crate::annotations::SourceLabel>,
}

/// A package's bytes over all bundles.
#[derive(Debug, Clone)]
pub struct PackageRow {
    pub package: String,
    pub counts: Counts,
}

/// A source as one bundle holds it.
#[derive(Debug, Clone)]
pub struct BundleSource {
    pub source: String,
    pub package: String,
    pub content: Option<String>,
    pub counts: Counts,
    pub label: Option<crate::annotations::SourceLabel>,
}

/// What coverage says of a span of bytes.
#[derive(Debug, Clone, Copy, PartialEq, Eq, Structural)]
pub enum Status {
    Observed,
    Unobserved,
    Unmeasured,
}

/// A run of generated bytes of one source and one status.
#[derive(Debug, Clone, Copy)]
pub struct Span {
    /// Half-open generated UTF-8 byte offsets.
    pub start: usize,
    pub end: usize,
    /// Half-open generated UTF-16 offsets for JavaScript string slicing.
    pub start_utf16: usize,
    pub end_utf16: usize,
    /// Index into the parent bundle's sources.
    pub source: usize,
    pub status: Status,
    /// Zero-based source-map anchor, not a recovered original coverage range.
    pub original: Option<OriginalPosition>,
}

/// One bundle of the report.
#[derive(Debug)]
pub struct BundleRow {
    pub path: String,
    pub sha256: String,
    pub source_map_sha256: Option<String>,
    pub utf16_units: usize,
    pub observed_utf16_units: Option<usize>,
    pub mapped_bytes: usize,
    pub verification: Vec<Verification>,
    /// Empty without details.
    pub generated_source: String,
    pub sources: Vec<BundleSource>,
    /// Empty without details.
    pub spans: Vec<Span>,
    pub counts: Counts,
    pub loading: Option<crate::annotations::Loading>,
}

/// The whole analysis.
#[derive(Debug)]
pub struct Report {
    pub schema_version: u32,
    pub details: bool,
    pub metric: String,
    pub attribution: String,
    pub scenarios: Vec<String>,
    pub totals: Counts,
    pub bundles: Vec<BundleRow>,
    pub sources: Vec<SourceRow>,
    pub packages: Vec<PackageRow>,
    pub warnings: Vec<crate::bundle::Warning>,
    pub excluded_bundles: Vec<String>,
    pub include_patterns: Vec<String>,
    pub exclude_patterns: Vec<String>,
    pub budget_failures: Vec<String>,
    /// One report per scenario, where scenarios were accumulated.
    pub scenario_reports: Vec<crate::scenario::ScenarioReport>,
    pub initial_scenario: Option<String>,
    pub import_paths: Option<Vec<crate::metadata::ImportPath>>,
    pub recommendations: Vec<crate::recommendations::Recommendation>,
    pub label_generator: Option<crate::annotations::LabelGenerator>,
}

/// A bundle with its details removed.
pub open spec fn stripped_bundle(before: BundleRow, after: BundleRow) -> bool {
    &&& after.path == before.path
    &&& after.sha256 == before.sha256
    &&& after.source_map_sha256 == before.source_map_sha256
    &&& after.utf16_units == before.utf16_units
    &&& after.observed_utf16_units == before.observed_utf16_units
    &&& after.mapped_bytes == before.mapped_bytes
    &&& after.verification == before.verification
    &&& after.counts == before.counts
    &&& after.loading == before.loading
    &&& after.generated_source@.len() == 0
    &&& after.spans@.len() == 0
    &&& after.sources@.len() == before.sources@.len()
    &&& forall|k: int|
        0 <= k < after.sources@.len() ==> {
            &&& (#[trigger] after.sources@[k]).source == before.sources@[k].source
            &&& after.sources@[k].package == before.sources@[k].package
            &&& after.sources@[k].counts == before.sources@[k].counts
            &&& after.sources@[k].label == before.sources@[k].label
            &&& after.sources@[k].content is None
        }
}

impl Report {
    /// Drops generated sources, spans and source contents; every count stays.
    pub fn strip_details(&mut self)
        ensures
            !final(self).details,
            final(self).schema_version == old(self).schema_version,
            final(self).totals == old(self).totals,
            final(self).sources == old(self).sources,
            final(self).packages == old(self).packages,
            final(self).scenarios == old(self).scenarios,
            final(self).warnings == old(self).warnings,
            final(self).excluded_bundles == old(self).excluded_bundles,
            final(self).budget_failures == old(self).budget_failures,
            final(self).metric == old(self).metric,
            final(self).attribution == old(self).attribution,
            final(self).include_patterns == old(self).include_patterns,
            final(self).exclude_patterns == old(self).exclude_patterns,
            final(self).scenario_reports == old(self).scenario_reports,
            final(self).initial_scenario == old(self).initial_scenario,
            final(self).import_paths == old(self).import_paths,
            final(self).recommendations == old(self).recommendations,
            final(self).label_generator == old(self).label_generator,
            final(self).bundles@.len() == old(self).bundles@.len(),
            forall|i: int|
                0 <= i < final(self).bundles@.len() ==> stripped_bundle(
                    #[trigger] old(self).bundles@[i],
                    final(self).bundles@[i],
                ),
    {
        self.details = false;
        let mut rest: Vec<BundleRow> = Vec::new();
        std::mem::swap(&mut rest, &mut self.bundles);
        let ghost all = rest@;
        let n = rest.len();
        let mut bundles: Vec<BundleRow> = Vec::new();
        for i in 0..n
            invariant
                n == all.len(),
                all == old(self).bundles@,
                rest@ == all.subrange(i as int, n as int),
                bundles@.len() == i,
                forall|k: int| 0 <= k < i ==> stripped_bundle(all[k], #[trigger] bundles@[k]),
        {
            let b = rest.remove(0);
            proof {
                assert(b == all[i as int]);
                assert(rest@ =~= all.subrange(i + 1, n as int));
            }
            let mut sources_left = b.sources;
            let m = sources_left.len();
            let ghost before = sources_left@;
            let mut sources: Vec<BundleSource> = Vec::new();
            for j in 0..m
                invariant
                    m == before.len(),
                    sources_left@ == before.subrange(j as int, m as int),
                    sources@.len() == j,
                    forall|k: int|
                        0 <= k < j ==> {
                            &&& (#[trigger] sources@[k]).source == before[k].source
                            &&& sources@[k].package == before[k].package
                            &&& sources@[k].counts == before[k].counts
                            &&& sources@[k].label == before[k].label
                            &&& sources@[k].content is None
                        },
            {
                let s = sources_left.remove(0);
                proof {
                    assert(s == before[j as int]);
                    assert(sources_left@ =~= before.subrange(j + 1, m as int));
                }
                sources.push(
                    BundleSource { source: s.source, package: s.package, content: None, counts: s.counts, label: s.label },
                );
            }
            bundles.push(
                BundleRow {
                    path: b.path,
                    sha256: b.sha256,
                    source_map_sha256: b.source_map_sha256,
                    utf16_units: b.utf16_units,
                    observed_utf16_units: b.observed_utf16_units,
                    mapped_bytes: b.mapped_bytes,
                    verification: b.verification,
                    generated_source: String::new(),
                    sources,
                    spans: Vec::new(),
                    counts: b.counts,
                    loading: b.loading,
                },
            );
        }
        self.bundles = bundles;
    }
}

} // verus!
