//! Optional annotations attached after analysis: inferred source labels and
//! bundle load causes. Neither is attribution evidence; neither changes a count.
use vstd::prelude::*;

use crate::analysis::{BundleRow, Report};
use crate::bundle::Warning;
use crate::strings::{chars_of, str_eq};
use crate::maps::matches_at;
use crate::analysis::{BundleSource, SourceRow};

verus! {

/// A description of one report source. `name`, `kind`, `reasoning`,
/// `evidence` and `contents` are guesses about identity; `summary`
/// describes the code.
#[derive(Debug, Clone, Default, PartialEq)]
pub struct SourceLabel {
    pub name: Option<String>,
    pub short_name: Option<String>,
    pub kind: Option<String>,
    pub summary: Option<String>,
    pub reasoning: Option<String>,
    pub evidence: Vec<String>,
    /// For a source that is a whole chunk: what it appears to contain.
    pub contents: Vec<LabelPart>,
}

/// One part of a chunk, with its own evidence.
#[derive(Debug, Clone, Default, PartialEq)]
pub struct LabelPart {
    pub name: String,
    pub kind: Option<String>,
    pub evidence: Vec<String>,
}

/// What produced the labels.
#[derive(Debug, Clone)]
pub struct LabelGenerator {
    pub provider: Option<String>,
    pub model: Option<String>,
    pub mode: Option<String>,
}

/// What caused the browser to request a bundle.
#[derive(Debug, Clone, Copy, PartialEq, Eq, Structural)]
pub enum Load {
    /// Referenced by the initial HTML document (script tag or preload).
    Html,
    /// Named inside inline data of the initial HTML.
    Inline,
    /// Requested by other scripts at runtime.
    Dynamic,
}

/// How a bundle was loaded.
#[derive(Debug, Clone)]
pub struct Loading {
    pub load: Load,
    pub initiator: Option<String>,
    /// Request start relative to the first request of the recording.
    pub start_ms: Option<u64>,
}


/// Why an annotation file was refused.
#[derive(Debug, Clone, Copy, PartialEq, Eq)]
pub enum AnnotationError {
    /// A schema version other than 1.
    SchemaVersion(u32),
}

/// The first entry keyed `key`.
pub open spec fn entry_for<T>(entries: Seq<(String, T)>, key: Seq<char>) -> Option<T>
    decreases entries.len(),
{
    if entries.len() == 0 {
        None
    } else if entries[0].0@ == key {
        Some(entries[0].1)
    } else {
        entry_for(entries.drop_first(), key)
    }
}

/// Entries whose key names no bundle path.
pub open spec fn unmatched_loading(entries: Seq<(String, Loading)>, bundles: Seq<BundleRow>) -> int
    decreases entries.len(),
{
    if entries.len() == 0 {
        0
    } else {
        unmatched_loading(entries.drop_last(), bundles) + if exists|i: int|
            0 <= i < bundles.len() && #[trigger] bundles[i].path@ == entries.last().0@ {
            0int
        } else {
            1int
        }
    }
}

/// Each key appears once.
pub open spec fn keys_unique<T>(entries: Seq<(String, T)>) -> bool {
    forall|i: int, j: int| 0 <= i < j < entries.len() ==> (#[trigger] entries[i]).0@ != (#[trigger] entries[j]).0@
}

/// A bundle as `attach_loading` leaves it: everything kept but its load cause.
pub open spec fn loading_attached(before: BundleRow, after: BundleRow, entries: Seq<(String, Loading)>) -> bool {
    &&& after.path == before.path
    &&& after.sha256 == before.sha256
    &&& after.source_map_sha256 == before.source_map_sha256
    &&& after.utf16_units == before.utf16_units
    &&& after.observed_utf16_units == before.observed_utf16_units
    &&& after.mapped_bytes == before.mapped_bytes
    &&& after.verification == before.verification
    &&& after.generated_source == before.generated_source
    &&& after.sources == before.sources
    &&& after.spans == before.spans
    &&& after.counts == before.counts
    &&& after.loading == entry_for(entries, before.path@)
}

fn find_entry<T>(entries: &Vec<(String, T)>, key: &str) -> (r: Option<usize>)
    ensures
        match r {
            Some(i) => i < entries@.len() && entries@[i as int].0@ == key@ && forall|j: int| 0 <= j < i ==> entries@[j].0@ != key@,
            None => forall|j: int| 0 <= j < entries@.len() ==> entries@[j].0@ != key@,
        },
{
    for i in 0..entries.len()
        invariant
            forall|j: int| 0 <= j < i ==> entries@[j].0@ != key@,
    {
        if str_eq(entries[i].0.as_str(), key) {
            return Some(i);
        }
    }
    None
}

proof fn lemma_entry_for<T>(entries: Seq<(String, T)>, key: Seq<char>, i: int)
    requires
        0 <= i <= entries.len(),
        forall|j: int| 0 <= j < i ==> entries[j].0@ != key,
    ensures
        i < entries.len() && entries[i].0@ == key ==> entry_for(entries, key) == Some(entries[i].1),
        i == entries.len() ==> entry_for(entries, key) is None,
    decreases i,
{
    if i > 0 {
        assert forall|j: int| 0 <= j < i - 1 implies entries.drop_first()[j].0@ != key by {
            assert(entries.drop_first()[j] == entries[j + 1]);
        }
        lemma_entry_for(entries.drop_first(), key, i - 1);
        if i < entries.len() {
            assert(entries.drop_first()[i - 1] == entries[i]);
        }
    } else if entries.len() > 0 {
        if entries.len() > 0 && i == entries.len() {
        }
    }
}

/// Attaches load causes keyed by bundle path; counts, sources and spans
/// stay as they are. Entries that name no bundle are counted in a warning.
pub fn attach_loading(report: &mut Report, schema_version: u32, entries: Vec<(String, Loading)>) -> (r: Result<
    (),
    AnnotationError,
>)
    requires
        keys_unique(entries@),
    ensures
        schema_version != 1 ==> r == Err::<(), AnnotationError>(AnnotationError::SchemaVersion(schema_version))
            && *final(report) == *old(report),
        schema_version == 1 ==> r is Ok,
        r is Ok ==> {
            &&& final(report).totals == old(report).totals
            &&& final(report).sources == old(report).sources
            &&& final(report).packages == old(report).packages
            &&& final(report).schema_version == old(report).schema_version
            &&& final(report).details == old(report).details
            &&& final(report).metric == old(report).metric
            &&& final(report).attribution == old(report).attribution
            &&& final(report).scenarios == old(report).scenarios
            &&& final(report).excluded_bundles == old(report).excluded_bundles
            &&& final(report).include_patterns == old(report).include_patterns
            &&& final(report).exclude_patterns == old(report).exclude_patterns
            &&& final(report).budget_failures == old(report).budget_failures
            &&& final(report).scenario_reports == old(report).scenario_reports
            &&& final(report).initial_scenario == old(report).initial_scenario
            &&& final(report).import_paths == old(report).import_paths
            &&& final(report).recommendations == old(report).recommendations
            &&& final(report).label_generator == old(report).label_generator
            &&& final(report).bundles@.len() == old(report).bundles@.len()
            &&& forall|i: int|
                0 <= i < final(report).bundles@.len() ==> loading_attached(
                    #[trigger] old(report).bundles@[i],
                    final(report).bundles@[i],
                    entries@,
                )
            &&& final(report).warnings@ == if unmatched_loading(entries@, old(report).bundles@) > 0 {
                old(report).warnings@.push(Warning::UnmatchedLoading(unmatched_loading(entries@, old(report).bundles@) as usize))
            } else {
                old(report).warnings@
            }
        },
{
    if schema_version != 1 {
        return Err(AnnotationError::SchemaVersion(schema_version));
    }
    let ghost all = entries@;
    let mut rest: Vec<BundleRow> = Vec::new();
    std::mem::swap(&mut rest, &mut report.bundles);
    let ghost old_bundles = rest@;
    let n = rest.len();
    let mut bundles: Vec<BundleRow> = Vec::new();
    for i in 0..n
        invariant
            n == old_bundles.len(),
            old_bundles == old(report).bundles@,
            rest@ == old_bundles.subrange(i as int, n as int),
            bundles@.len() == i,
            all == entries@,
            keys_unique(all),
            forall|k: int| 0 <= k < i ==> loading_attached(old_bundles[k], #[trigger] bundles@[k], all),
    {
        let b = rest.remove(0);
        proof {
            assert(b == old_bundles[i as int]);
            assert(rest@ =~= old_bundles.subrange(i + 1, n as int));
        }
        let loading = match find_entry(&entries, b.path.as_str()) {
            Some(j) => {
                proof {
                    lemma_entry_for(all, b.path@, j as int);
                }
                Some(copy_loading(&entries[j].1))
            },
            None => {
                proof {
                    lemma_entry_for(all, b.path@, all.len() as int);
                }
                None
            },
        };
        bundles.push(
            BundleRow {
                path: b.path,
                sha256: b.sha256,
                source_map_sha256: b.source_map_sha256,
                utf16_units: b.utf16_units,
                observed_utf16_units: b.observed_utf16_units,
                mapped_bytes: b.mapped_bytes,
                verification: b.verification,
                generated_source: b.generated_source,
                sources: b.sources,
                spans: b.spans,
                counts: b.counts,
                loading,
            },
        );
    }
    let mut unmatched: usize = 0;
    for k in 0..entries.len()
        invariant
            all == entries@,
            old_bundles == old(report).bundles@,
            bundles@.len() == old_bundles.len(),
            forall|q: int| 0 <= q < bundles@.len() ==> (#[trigger] bundles@[q]).path == old_bundles[q].path,
            unmatched == unmatched_loading(all.take(k as int), old_bundles),
            unmatched <= k,
    {
        let mut found = false;
        for q in 0..bundles.len()
            invariant
                found == exists|x: int| 0 <= x < q && #[trigger] old_bundles[x].path@ == all[k as int].0@,
                bundles@.len() == old_bundles.len(),
                forall|p: int| 0 <= p < bundles@.len() ==> (#[trigger] bundles@[p]).path == old_bundles[p].path,
                k < all.len(),
                all == entries@,
        {
            if !found && str_eq(bundles[q].path.as_str(), entries[k].0.as_str()) {
                proof {
                    assert(old_bundles[q as int].path@ == all[k as int].0@);
                }
                found = true;
            }
        }
        proof {
            assert(all.take(k + 1).drop_last() =~= all.take(k as int));
        }
        if !found {
            unmatched = unmatched + 1;
        }
    }
    proof {
        assert(all.take(all.len() as int) =~= all);
    }
    report.bundles = bundles;
    if unmatched > 0 {
        report.warnings.push(Warning::UnmatchedLoading(unmatched));
    }
    Ok(())
}

fn copy_loading(l: &Loading) -> (r: Loading)
    ensures
        r == *l,
{
    Loading {
        load: l.load,
        initiator: match &l.initiator {
            Some(s) => Some(s.clone()),
            None => None,
        },
        start_ms: l.start_ms,
    }
}


/// `e` occurs in `content`.
pub open spec fn contains_text(content: Seq<char>, e: Seq<char>) -> bool {
    exists|i: int| 0 <= i && i + e.len() <= content.len() && #[trigger] content.subrange(i, i + e.len()) == e
}

/// Evidence found in at least one of these contents.
pub open spec fn found_in_any(copies: Seq<Seq<char>>) -> spec_fn(Seq<char>) -> bool {
    |e: Seq<char>| exists|i: int| 0 <= i < copies.len() && contains_text(#[trigger] copies[i], e)
}

pub open spec fn strs(v: Seq<String>) -> Seq<Seq<char>> {
    v.map_values(|s: String| s@)
}

pub type PartView = (Seq<char>, Option<Seq<char>>, Seq<Seq<char>>);

pub open spec fn opt_str(o: Option<String>) -> Option<Seq<char>> {
    match o {
        Some(s) => Some(s@),
        None => None,
    }
}

pub open spec fn part_view(p: LabelPart) -> PartView {
    (p.name@, opt_str(p.kind), strs(p.evidence@))
}

pub open spec fn parts_view(v: Seq<LabelPart>) -> Seq<PartView> {
    v.map_values(|p: LabelPart| part_view(p))
}

pub open spec fn has_evidence() -> spec_fn(PartView) -> bool {
    |p: PartView| p.2.len() > 0
}

/// Parts with their evidence filtered, those left without evidence dropped.
pub open spec fn filtered_parts(parts: Seq<PartView>, keep: spec_fn(Seq<char>) -> bool) -> Seq<PartView> {
    parts.map_values(|p: PartView| (p.0, p.1, p.2.filter(keep))).filter(has_evidence())
}

/// `after` is `before` with its evidence filtered by `keep`.
pub open spec fn label_filtered(before: SourceLabel, after: SourceLabel, keep: spec_fn(Seq<char>) -> bool) -> bool {
    &&& opt_str(after.name) == opt_str(before.name)
    &&& opt_str(after.short_name) == opt_str(before.short_name)
    &&& opt_str(after.kind) == opt_str(before.kind)
    &&& opt_str(after.summary) == opt_str(before.summary)
    &&& opt_str(after.reasoning) == opt_str(before.reasoning)
    &&& strs(after.evidence@) == strs(before.evidence@).filter(keep)
    &&& parts_view(after.contents@) == filtered_parts(parts_view(before.contents@), keep)
}

/// `after` carries `before` unchanged.
pub open spec fn label_same(before: SourceLabel, after: SourceLabel) -> bool {
    &&& opt_str(after.name) == opt_str(before.name)
    &&& opt_str(after.short_name) == opt_str(before.short_name)
    &&& opt_str(after.kind) == opt_str(before.kind)
    &&& opt_str(after.summary) == opt_str(before.summary)
    &&& opt_str(after.reasoning) == opt_str(before.reasoning)
    &&& strs(after.evidence@) == strs(before.evidence@)
    &&& parts_view(after.contents@) == parts_view(before.contents@)
}

fn contains_exec(content: &Vec<char>, e: &Vec<char>) -> (r: bool)
    ensures
        r == contains_text(content@, e@),
{
    if e.len() > content.len() {
        proof {
            assert forall|i: int| !(0 <= i && i + e@.len() <= content@.len() && #[trigger] content@.subrange(i, i + e@.len()) == e@) by {
            }
        }
        return false;
    }
    let last = content.len() - e.len();
    let mut i: usize = 0;
    loop
        invariant
            i <= last,
            last == content@.len() - e@.len(),
            forall|j: int| 0 <= j < i ==> #[trigger] content@.subrange(j, j + e@.len()) != e@,
        decreases last - i,
    {
        if matches_at(content, e, i) {
            return true;
        }
        if i == last {
            proof {
                assert forall|j: int| !(0 <= j && j + e@.len() <= content@.len() && #[trigger] content@.subrange(j, j + e@.len()) == e@) by {
                    if 0 <= j && j + e@.len() <= content@.len() && j < i {
                        assert(content@.subrange(j, j + e@.len()) != e@);
                    }
                }
            }
            return false;
        }
        i = i + 1;
    }
}

fn found_any_exec(copies: &Vec<Vec<char>>, e: &Vec<char>) -> (r: bool)
    ensures
        r == found_in_any(crate::source_path::views(copies@))(e@),
{
    for i in 0..copies.len()
        invariant
            forall|j: int| 0 <= j < i ==> !contains_text(#[trigger] crate::source_path::views(copies@)[j], e@),
    {
        if contains_exec(&copies[i], e) {
            proof {
                assert(contains_text(crate::source_path::views(copies@)[i as int], e@));
            }
            return true;
        }
    }
    false
}

proof fn lemma_filter_step<A>(v: Seq<A>, f: spec_fn(A) -> bool, i: int)
    requires
        0 <= i < v.len(),
    ensures
        v.take(i + 1).filter(f) == if f(v[i]) {
            v.take(i).filter(f).push(v[i])
        } else {
            v.take(i).filter(f)
        },
{
    reveal(Seq::filter);
    assert(v.take(i + 1).drop_last() =~= v.take(i));
}

/// The evidence strings found in some copy.
fn filter_evidence(v: &Vec<String>, copies: &Vec<Vec<char>>) -> (r: Vec<String>)
    ensures
        strs(r@) == strs(v@).filter(found_in_any(crate::source_path::views(copies@))),
{
    let ghost keep = found_in_any(crate::source_path::views(copies@));
    let mut out: Vec<String> = Vec::new();
    proof {
        reveal(Seq::filter);
        assert(strs(v@).take(0) =~= Seq::<Seq<char>>::empty());
        assert(strs(out@) =~= strs(v@).take(0).filter(keep));
    }
    for i in 0..v.len()
        invariant
            keep == found_in_any(crate::source_path::views(copies@)),
            strs(out@) == strs(v@).take(i as int).filter(keep),
    {
        proof {
            lemma_filter_step(strs(v@), keep, i as int);
            assert(strs(v@)[i as int] == v@[i as int]@);
        }
        if found_any_exec(copies, &chars_of(v[i].as_str())) {
            let ghost before = strs(out@);
            out.push(v[i].clone());
            proof {
                assert(strs(out@) =~= before.push(v@[i as int]@));
            }
        }
    }
    proof {
        assert(strs(v@).take(v@.len() as int) =~= strs(v@));
    }
    out
}

fn copy_opt(o: &Option<String>) -> (r: Option<String>)
    ensures
        opt_str(r) == opt_str(*o),
{
    match o {
        Some(s) => Some(s.clone()),
        None => None,
    }
}

/// A label with its evidence filtered by the copies' contents; the number
/// of evidence strings dropped.
fn filter_label(label: &SourceLabel, copies: &Vec<Vec<char>>) -> (r: (SourceLabel, usize))
    ensures
        label_filtered(*label, r.0, found_in_any(crate::source_path::views(copies@))),
{
    let ghost keep = found_in_any(crate::source_path::views(copies@));
    let evidence = filter_evidence(&label.evidence, copies);
    let mut dropped: usize = if label.evidence.len() >= evidence.len() { label.evidence.len() - evidence.len() } else { 0 };
    let mut parts: Vec<LabelPart> = Vec::new();
    let ghost mapped = parts_view(label.contents@).map_values(|p: PartView| (p.0, p.1, p.2.filter(keep)));
    proof {
        reveal(Seq::filter);
        assert(mapped.take(0) =~= Seq::<PartView>::empty());
        assert(parts_view(parts@) =~= mapped.take(0).filter(has_evidence()));
    }
    for i in 0..label.contents.len()
        invariant
            keep == found_in_any(crate::source_path::views(copies@)),
            mapped == parts_view(label.contents@).map_values(|p: PartView| (p.0, p.1, p.2.filter(keep))),
            parts_view(parts@) == mapped.take(i as int).filter(has_evidence()),
    {
        let part = &label.contents[i];
        let kept = filter_evidence(&part.evidence, copies);
        if part.evidence.len() >= kept.len() {
            dropped = dropped.saturating_add(part.evidence.len() - kept.len());
        }
        proof {
            lemma_filter_step(mapped, has_evidence(), i as int);
            assert(mapped[i as int] == (part.name@, opt_str(part.kind), strs(part.evidence@).filter(keep)));
        }
        if kept.len() > 0 {
            let ghost before = parts_view(parts@);
            let p = LabelPart { name: part.name.clone(), kind: copy_opt(&part.kind), evidence: kept };
            parts.push(p);
            proof {
                assert(parts_view(parts@) =~= before.push(part_view(p)));
                assert(part_view(p) == mapped[i as int]);
            }
        } else {
            proof {
                assert(strs(kept@).len() == 0);
            }
        }
    }
    proof {
        assert(mapped.take(mapped.len() as int) =~= mapped);
    }
    let r = SourceLabel {
        name: copy_opt(&label.name),
        short_name: copy_opt(&label.short_name),
        kind: copy_opt(&label.kind),
        summary: copy_opt(&label.summary),
        reasoning: copy_opt(&label.reasoning),
        evidence,
        contents: parts,
    };
    (r, dropped)
}


pub fn copy_strings(v: &Vec<String>) -> (r: Vec<String>)
    ensures
        strs(r@) == strs(v@),
{
    let mut out: Vec<String> = Vec::new();
    for i in 0..v.len()
        invariant
            strs(out@) == strs(v@).take(i as int),
    {
        let ghost before = strs(out@);
        out.push(v[i].clone());
        proof {
            assert(strs(out@) =~= before.push(v@[i as int]@));
            assert(strs(v@).take(i + 1) =~= strs(v@).take(i as int).push(v@[i as int]@));
        }
    }
    proof {
        assert(strs(v@).take(v@.len() as int) =~= strs(v@));
    }
    out
}

fn copy_label(label: &SourceLabel) -> (r: SourceLabel)
    ensures
        label_same(*label, r),
{
    let mut parts: Vec<LabelPart> = Vec::new();
    for i in 0..label.contents.len()
        invariant
            parts_view(parts@) == parts_view(label.contents@).take(i as int),
    {
        let part = &label.contents[i];
        let p = LabelPart { name: part.name.clone(), kind: copy_opt(&part.kind), evidence: copy_strings(&part.evidence) };
        let ghost before = parts_view(parts@);
        parts.push(p);
        proof {
            assert(parts_view(parts@) =~= before.push(part_view(p)));
            assert(parts_view(label.contents@).take(i + 1) =~= parts_view(label.contents@).take(i as int).push(part_view(*part)));
        }
    }
    proof {
        assert(parts_view(label.contents@).take(label.contents@.len() as int) =~= parts_view(label.contents@));
    }
    SourceLabel {
        name: copy_opt(&label.name),
        short_name: copy_opt(&label.short_name),
        kind: copy_opt(&label.kind),
        summary: copy_opt(&label.summary),
        reasoning: copy_opt(&label.reasoning),
        evidence: copy_strings(&label.evidence),
        contents: parts,
    }
}

/// The contents of the bundle sources named `name` that carry one, bundle by bundle.
pub open spec fn source_copies(sources: Seq<BundleSource>, name: Seq<char>) -> Seq<Seq<char>>
    decreases sources.len(),
{
    if sources.len() == 0 {
        Seq::empty()
    } else {
        let rest = source_copies(sources.drop_last(), name);
        if sources.last().source@ == name && sources.last().content is Some {
            rest.push(sources.last().content.unwrap()@)
        } else {
            rest
        }
    }
}

pub open spec fn all_copies(bundles: Seq<BundleRow>, name: Seq<char>) -> Seq<Seq<char>>
    decreases bundles.len(),
{
    if bundles.len() == 0 {
        Seq::empty()
    } else {
        all_copies(bundles.drop_last(), name) + source_copies(bundles.last().sources@, name)
    }
}

fn collect_copies(bundles: &Vec<BundleRow>, name: &str) -> (r: Vec<Vec<char>>)
    ensures
        crate::source_path::views(r@) == all_copies(bundles@, name@),
{
    let mut out: Vec<Vec<char>> = Vec::new();
    proof {
        assert(crate::source_path::views(out@) =~= all_copies(bundles@.take(0), name@));
    }
    for i in 0..bundles.len()
        invariant
            crate::source_path::views(out@) == all_copies(bundles@.take(i as int), name@),
    {
        let sources = &bundles[i].sources;
        let ghost base = crate::source_path::views(out@);
        proof {
            assert(base + source_copies(sources@.take(0), name@) =~= base);
        }
        for k in 0..sources.len()
            invariant
                crate::source_path::views(out@) == base + source_copies(sources@.take(k as int), name@),
        {
            proof {
                assert(sources@.take(k + 1).drop_last() =~= sources@.take(k as int));
            }
            if str_eq(sources[k].source.as_str(), name) {
                if let Some(c) = &sources[k].content {
                    let ghost before = crate::source_path::views(out@);
                    out.push(chars_of(c.as_str()));
                    proof {
                        assert(crate::source_path::views(out@) =~= before.push(c@));
                    }
                }
            }
        }
        proof {
            assert(sources@.take(sources@.len() as int) =~= sources@);
            assert(bundles@.take(i + 1).drop_last() =~= bundles@.take(i as int));
            assert(bundles@.take(i + 1).last() == bundles@[i as int]);
        }
    }
    proof {
        assert(bundles@.take(bundles@.len() as int) =~= bundles@);
    }
    out
}


/// A bundle source as `attach_labels` leaves it: its label filtered by its own content.
pub open spec fn source_labeled(before: BundleSource, after: BundleSource, labels: Seq<(String, SourceLabel)>) -> bool {
    &&& after.source == before.source
    &&& after.package == before.package
    &&& after.content == before.content
    &&& after.counts == before.counts
    &&& match entry_for(labels, before.source@) {
        None => after.label == before.label,
        Some(l) => after.label matches Some(a) && match before.content {
            Some(c) => label_filtered(l, a, found_in_any(seq![c@])),
            None => label_same(l, a),
        },
    }
}

/// A source row as `attach_labels` leaves it: its label filtered by all copies.
pub open spec fn row_labeled(before: SourceRow, after: SourceRow, labels: Seq<(String, SourceLabel)>, copies: Seq<Seq<char>>) -> bool {
    &&& after.source == before.source
    &&& after.package == before.package
    &&& after.counts == before.counts
    &&& match entry_for(labels, before.source@) {
        None => after.label == before.label,
        Some(l) => after.label matches Some(a) && if copies.len() > 0 {
            label_filtered(l, a, found_in_any(copies))
        } else {
            label_same(l, a)
        },
    }
}

/// A bundle as `attach_labels` leaves it.
pub open spec fn bundle_labeled(before: BundleRow, after: BundleRow, labels: Seq<(String, SourceLabel)>) -> bool {
    &&& after.path == before.path
    &&& after.sha256 == before.sha256
    &&& after.source_map_sha256 == before.source_map_sha256
    &&& after.utf16_units == before.utf16_units
    &&& after.observed_utf16_units == before.observed_utf16_units
    &&& after.mapped_bytes == before.mapped_bytes
    &&& after.verification == before.verification
    &&& after.generated_source == before.generated_source
    &&& after.spans == before.spans
    &&& after.counts == before.counts
    &&& after.loading == before.loading
    &&& after.sources@.len() == before.sources@.len()
    &&& forall|k: int| 0 <= k < after.sources@.len() ==> source_labeled(before.sources@[k], #[trigger] after.sources@[k], labels)
}

fn label_source(s: BundleSource, labels: &Vec<(String, SourceLabel)>) -> (r: BundleSource)
    ensures
        source_labeled(s, r, labels@),
{
    let found = find_entry(labels, s.source.as_str());
    match found {
        None => {
            proof {
                lemma_entry_for(labels@, s.source@, labels@.len() as int);
            }
            s
        },
        Some(j) => {
            proof {
                lemma_entry_for(labels@, s.source@, j as int);
            }
            let label = match &s.content {
                Some(c) => {
                    let mut copies: Vec<Vec<char>> = Vec::new();
                    copies.push(chars_of(c.as_str()));
                    proof {
                        assert(crate::source_path::views(copies@) =~= seq![c@]);
                    }
                    filter_label(&labels[j].1, &copies).0
                },
                None => copy_label(&labels[j].1),
            };
            BundleSource { source: s.source, package: s.package, content: s.content, counts: s.counts, label: Some(label) }
        },
    }
}

fn label_bundle(b: BundleRow, labels: &Vec<(String, SourceLabel)>) -> (r: BundleRow)
    ensures
        bundle_labeled(b, r, labels@),
{
    let ghost before = b.sources@;
    let mut rest = b.sources;
    let n = rest.len();
    let mut sources: Vec<BundleSource> = Vec::new();
    for k in 0..n
        invariant
            n == before.len(),
            rest@ == before.subrange(k as int, n as int),
            sources@.len() == k,
            forall|q: int| 0 <= q < k ==> source_labeled(before[q], #[trigger] sources@[q], labels@),
    {
        let s = rest.remove(0);
        proof {
            assert(s == before[k as int]);
            assert(rest@ =~= before.subrange(k + 1, n as int));
        }
        sources.push(label_source(s, labels));
    }
    BundleRow {
        path: b.path,
        sha256: b.sha256,
        source_map_sha256: b.source_map_sha256,
        utf16_units: b.utf16_units,
        observed_utf16_units: b.observed_utf16_units,
        mapped_bytes: b.mapped_bytes,
        verification: b.verification,
        generated_source: b.generated_source,
        sources,
        spans: b.spans,
        counts: b.counts,
        loading: b.loading,
    }
}

/// Attaches labels keyed by source name: each bundle's copy keeps the
/// evidence found in its own content, each source row the evidence found in
/// some copy; counts never change. Dropped evidence and labels that name
/// no source are counted in warnings.
#[verifier::rlimit(60)]
pub fn attach_labels(
    report: &mut Report,
    schema_version: u32,
    generator: Option<LabelGenerator>,
    labels: Vec<(String, SourceLabel)>,
) -> (r: Result<(), AnnotationError>)
    requires
        keys_unique(labels@),
    ensures
        schema_version != 1 ==> r == Err::<(), AnnotationError>(AnnotationError::SchemaVersion(schema_version))
            && *final(report) == *old(report),
        schema_version == 1 ==> r is Ok,
        r is Ok ==> {
            &&& final(report).totals == old(report).totals
            &&& final(report).packages == old(report).packages
            &&& final(report).label_generator == generator
            &&& final(report).schema_version == old(report).schema_version
            &&& final(report).details == old(report).details
            &&& final(report).metric == old(report).metric
            &&& final(report).attribution == old(report).attribution
            &&& final(report).scenarios == old(report).scenarios
            &&& final(report).excluded_bundles == old(report).excluded_bundles
            &&& final(report).include_patterns == old(report).include_patterns
            &&& final(report).exclude_patterns == old(report).exclude_patterns
            &&& final(report).budget_failures == old(report).budget_failures
            &&& final(report).scenario_reports == old(report).scenario_reports
            &&& final(report).initial_scenario == old(report).initial_scenario
            &&& final(report).import_paths == old(report).import_paths
            &&& final(report).recommendations == old(report).recommendations
            &&& final(report).bundles@.len() == old(report).bundles@.len()
            &&& forall|i: int|
                0 <= i < final(report).bundles@.len() ==> bundle_labeled(
                    #[trigger] old(report).bundles@[i],
                    final(report).bundles@[i],
                    labels@,
                )
            &&& final(report).sources@.len() == old(report).sources@.len()
            &&& forall|i: int|
                0 <= i < final(report).sources@.len() ==> row_labeled(
                    #[trigger] old(report).sources@[i],
                    final(report).sources@[i],
                    labels@,
                    all_copies(old(report).bundles@, old(report).sources@[i].source@),
                )
            &&& final(report).warnings@.subrange(0, old(report).warnings@.len() as int) == old(report).warnings@
        },
{
    if schema_version != 1 {
        return Err(AnnotationError::SchemaVersion(schema_version));
    }
    let ghost old_bundles = report.bundles@;
    let m = labels.len();
    let mut row_labels: Vec<SourceLabel> = Vec::new();
    let mut dropped: Vec<usize> = Vec::new();
    let mut any_copy: Vec<bool> = Vec::new();
    for j in 0..m
        invariant
            m == labels@.len(),
            old_bundles == report.bundles@,
            row_labels@.len() == j,
            dropped@.len() == j,
            any_copy@.len() == j,
            forall|q: int|
                0 <= q < j ==> (#[trigger] any_copy@[q]) == (all_copies(old_bundles, labels@[q].0@).len() > 0) && if any_copy@[q] {
                    label_filtered(labels@[q].1, row_labels@[q], found_in_any(all_copies(old_bundles, labels@[q].0@)))
                } else {
                    label_same(labels@[q].1, row_labels@[q])
                },
    {
        let copies = collect_copies(&report.bundles, labels[j].0.as_str());
        if copies.len() > 0 {
            let (l, d) = filter_label(&labels[j].1, &copies);
            row_labels.push(l);
            dropped.push(d);
            any_copy.push(true);
        } else {
            row_labels.push(copy_label(&labels[j].1));
            dropped.push(0);
            any_copy.push(false);
        }
    }
    let mut rest: Vec<BundleRow> = Vec::new();
    std::mem::swap(&mut rest, &mut report.bundles);
    let n = rest.len();
    let mut bundles: Vec<BundleRow> = Vec::new();
    for i in 0..n
        invariant
            n == old_bundles.len(),
            rest@ == old_bundles.subrange(i as int, n as int),
            bundles@.len() == i,
            forall|q: int| 0 <= q < i ==> bundle_labeled(old_bundles[q], #[trigger] bundles@[q], labels@),
    {
        let b = rest.remove(0);
        proof {
            assert(b == old_bundles[i as int]);
            assert(rest@ =~= old_bundles.subrange(i + 1, n as int));
        }
        bundles.push(label_bundle(b, &labels));
    }
    report.bundles = bundles;
    let mut rows_left: Vec<SourceRow> = Vec::new();
    std::mem::swap(&mut rows_left, &mut report.sources);
    let ghost old_rows = rows_left@;
    let r = rows_left.len();
    let mut rows: Vec<SourceRow> = Vec::new();
    let mut matched: Vec<bool> = Vec::new();
    for j in 0..m
        invariant
            matched@.len() == j,
    {
        matched.push(false);
    }
    for i in 0..r
        invariant
            r == old_rows.len(),
            m == labels@.len(),
            rows_left@ == old_rows.subrange(i as int, r as int),
            rows@.len() == i,
            matched@.len() == m,
            row_labels@.len() == m,
            any_copy@.len() == m,
            forall|q: int|
                0 <= q < m ==> (#[trigger] any_copy@[q]) == (all_copies(old_bundles, labels@[q].0@).len() > 0) && if any_copy@[q] {
                    label_filtered(labels@[q].1, row_labels@[q], found_in_any(all_copies(old_bundles, labels@[q].0@)))
                } else {
                    label_same(labels@[q].1, row_labels@[q])
                },
            forall|q: int| 0 <= q < i ==> row_labeled(old_rows[q], #[trigger] rows@[q], labels@, all_copies(old_bundles, old_rows[q].source@)),
    {
        let row = rows_left.remove(0);
        proof {
            assert(row == old_rows[i as int]);
            assert(rows_left@ =~= old_rows.subrange(i + 1, r as int));
        }
        match find_entry(&labels, row.source.as_str()) {
            None => {
                proof {
                    lemma_entry_for(labels@, row.source@, labels@.len() as int);
                }
                rows.push(row);
            },
            Some(j) => {
                proof {
                    lemma_entry_for(labels@, row.source@, j as int);
                    assert(labels@[j as int].0@ == row.source@);
                }
                matched.set(j, true);
                let label = if any_copy[j] {
                    filter_again(&row_labels[j])
                } else {
                    copy_label(&row_labels[j])
                };
                proof {
                    lemma_label_copy_transfer(labels@[j as int].1, row_labels@[j as int], label, any_copy@[j as int], found_in_any(all_copies(old_bundles, labels@[j as int].0@)));
                }
                rows.push(SourceRow { source: row.source, package: row.package, counts: row.counts, label: Some(label) });
            },
        }
    }
    report.sources = rows;
    let ghost old_warnings = report.warnings@;
    let ghost fixed = *report;
    for j in 0..m
        invariant
            m == labels@.len(),
            dropped@.len() == m,
            report.bundles == fixed.bundles,
            report.sources == fixed.sources,
            report.totals == fixed.totals,
            report.packages == fixed.packages,
            report.schema_version == fixed.schema_version,
            report.details == fixed.details,
            report.metric == fixed.metric,
            report.attribution == fixed.attribution,
            report.scenarios == fixed.scenarios,
            report.excluded_bundles == fixed.excluded_bundles,
            report.include_patterns == fixed.include_patterns,
            report.exclude_patterns == fixed.exclude_patterns,
            report.budget_failures == fixed.budget_failures,
            report.scenario_reports == fixed.scenario_reports,
            report.initial_scenario == fixed.initial_scenario,
            report.import_paths == fixed.import_paths,
            report.recommendations == fixed.recommendations,
            report.warnings@.subrange(0, old_warnings.len() as int) == old_warnings,
            report.warnings@.len() >= old_warnings.len(),
    {
        if dropped[j] > 0 {
            let ghost before = report.warnings@;
            report.warnings.push(Warning::DroppedEvidence(labels[j].0.clone(), dropped[j]));
            proof {
                assert(report.warnings@.subrange(0, old_warnings.len() as int) =~= before.subrange(0, old_warnings.len() as int));
            }
        }
    }
    let mut unmatched: usize = 0;
    for j in 0..m
        invariant
            matched@.len() == m,
            unmatched <= j,
    {
        if !matched[j] {
            unmatched = unmatched + 1;
        }
    }
    if unmatched > 0 {
        let ghost before = report.warnings@;
        report.warnings.push(Warning::UnmatchedLabels(unmatched));
        proof {
            assert(report.warnings@.subrange(0, old_warnings.len() as int) =~= before.subrange(0, old_warnings.len() as int));
        }
    }
    report.label_generator = generator;
    Ok(())
}

/// A copy of a label already filtered (for each row that shares it).
fn filter_again(label: &SourceLabel) -> (r: SourceLabel)
    ensures
        label_same(*label, r),
{
    copy_label(label)
}

proof fn lemma_label_copy_transfer(original: SourceLabel, stored: SourceLabel, copy: SourceLabel, filtered: bool, keep: spec_fn(Seq<char>) -> bool)
    requires
        label_same(stored, copy),
        filtered ==> label_filtered(original, stored, keep),
        !filtered ==> label_same(original, stored),
    ensures
        filtered ==> label_filtered(original, copy, keep),
        !filtered ==> label_same(original, copy),
{
}

} // verus!
