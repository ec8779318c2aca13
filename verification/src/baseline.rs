//! Compare report identities with a baseline, including removed rows.
use vstd::prelude::*;

use crate::analysis::{Counts, Report, Tally, tally_of, zero_tally};
use crate::strings::{chars_of, same_chars, str_eq};
use crate::summary::{chars_less, lemma_name_less_irreflexive, lemma_name_less_transitive, name_less};

verus! {

/// Signed differences, after minus before.
#[derive(Debug, Clone, Copy, PartialEq, Eq, Structural)]
pub struct Delta {
    pub bytes: i128,
    pub observed_bytes: i128,
    pub unobserved_bytes: i128,
    pub unmeasured_bytes: i128,
}

/// How a row differs from the baseline.
#[derive(Debug, Clone, Copy, PartialEq, Eq, Structural)]
pub enum ChangeKind {
    Added,
    Removed,
    Changed,
    Unchanged,
}

/// One row compared with the baseline.
#[derive(Debug, Clone)]
pub struct Change {
    pub name: String,
    pub change: ChangeKind,
    pub before: Counts,
    pub after: Counts,
    pub delta: Delta,
}

/// One scenario compared with the baseline's scenario of the same name.
#[derive(Debug, Clone)]
pub struct ScenarioComparison {
    pub scenario: String,
    pub totals: Change,
    pub sources: Vec<Change>,
    pub packages: Vec<Change>,
    pub bundles: Vec<Change>,
}

/// A report compared with a baseline.
#[derive(Debug, Clone)]
pub struct Comparison {
    pub totals: Change,
    pub sources: Vec<Change>,
    pub packages: Vec<Change>,
    pub bundles: Vec<Change>,
    pub scenarios: Vec<ScenarioComparison>,
    pub warnings: Vec<ComparisonWarning>,
}

/// What makes a comparison less than like for like.
#[derive(Debug, Clone, PartialEq, Eq)]
pub enum ComparisonWarning {
    /// Baseline and current bundle filters differ.
    FiltersDiffer,
    /// The scenario sets differ; only matching named scenarios are compared.
    ScenarioSetsDiffer,
    /// Measurement coverage changed.
    MeasurementChanged,
    /// One scenario's measurement coverage changed.
    ScenarioMeasurementChanged(String),
}

/// One scenario of a baseline.
#[derive(Debug, Clone)]
pub struct ScenarioSnapshot {
    pub scenario: String,
    pub totals: Counts,
    pub sources: Vec<BaselineRow>,
    pub packages: Vec<BaselineRow>,
    pub bundles: Vec<BaselineRow>,
}

/// A baseline report, as parsed.
#[derive(Debug, Clone)]
pub struct Snapshot {
    pub schema_version: Option<u64>,
    pub metric: String,
    pub attribution: String,
    pub scenarios: Vec<String>,
    pub include_patterns: Vec<String>,
    pub exclude_patterns: Vec<String>,
    pub totals: Counts,
    pub sources: Vec<BaselineRow>,
    pub packages: Vec<BaselineRow>,
    pub bundles: Vec<BaselineRow>,
    pub scenario_reports: Vec<ScenarioSnapshot>,
}

/// A baseline row: identified by its source, else its path, else its package.
#[derive(Debug, Clone)]
pub struct BaselineRow {
    pub source: Option<String>,
    pub package: Option<String>,
    pub path: Option<String>,
    pub counts: Counts,
}

/// Why a baseline was refused.
#[derive(Debug, Clone, PartialEq, Eq)]
pub enum BaselineError {
    /// Counts whose states do not sum to their bytes.
    InvalidCounts,
    /// A row without source, path or package.
    NoIdentity,
    /// Two rows with one identity.
    Duplicate(String),
    /// The baseline has another schema version.
    SchemaVersion,
    /// The baseline measures with other metrics.
    Incompatible,
    /// Two baseline scenarios with one name.
    DuplicateScenario(String),
}

pub open spec fn delta_of(before: Counts, after: Counts) -> Delta {
    Delta {
        bytes: (after.bytes - before.bytes) as i128,
        observed_bytes: (after.observed_bytes - before.observed_bytes) as i128,
        unobserved_bytes: (after.unobserved_bytes - before.unobserved_bytes) as i128,
        unmeasured_bytes: (after.unmeasured_bytes - before.unmeasured_bytes) as i128,
    }
}

/// The change between an optional baseline row and an optional current row.
pub open spec fn change_of(before: Option<Counts>, after: Option<Counts>) -> (ChangeKind, Counts, Counts) {
    let b = match before {
        Some(c) => c,
        None => Counts { bytes: 0, observed_bytes: 0, unobserved_bytes: 0, unmeasured_bytes: 0 },
    };
    let a = match after {
        Some(c) => c,
        None => Counts { bytes: 0, observed_bytes: 0, unobserved_bytes: 0, unmeasured_bytes: 0 },
    };
    let kind = if before is None {
        ChangeKind::Added
    } else if after is None {
        ChangeKind::Removed
    } else if a == b {
        ChangeKind::Unchanged
    } else {
        ChangeKind::Changed
    };
    (kind, b, a)
}

fn diff(after: usize, before: usize) -> (r: i128)
    ensures
        r == after - before,
{
    (after as i128) - (before as i128)
}

impl Change {
    /// Compares a row with its baseline: added without one, removed without a
    /// current row, unchanged where no count moved, else changed.
    pub fn new(name: String, before: Option<&Counts>, after: Option<&Counts>) -> (r: Change)
        ensures
            r.name == name,
            (r.change, r.before, r.after) == change_of(
                match before { Some(c) => Some(*c), None => None },
                match after { Some(c) => Some(*c), None => None },
            ),
            r.delta == delta_of(r.before, r.after),
    {
        let b = match before {
            Some(c) => *c,
            None => Counts::zero(),
        };
        let a = match after {
            Some(c) => *c,
            None => Counts::zero(),
        };
        let delta = Delta {
            bytes: diff(a.bytes, b.bytes),
            observed_bytes: diff(a.observed_bytes, b.observed_bytes),
            unobserved_bytes: diff(a.unobserved_bytes, b.unobserved_bytes),
            unmeasured_bytes: diff(a.unmeasured_bytes, b.unmeasured_bytes),
        };
        let change = if before.is_none() {
            ChangeKind::Added
        } else if after.is_none() {
            ChangeKind::Removed
        } else if delta.bytes == 0 && delta.observed_bytes == 0 && delta.unobserved_bytes == 0
            && delta.unmeasured_bytes == 0 {
            ChangeKind::Unchanged
        } else {
            ChangeKind::Changed
        };
        Change { name, change, before: b, after: a, delta }
    }
}

/// Baseline counts must split their bytes exactly.
pub fn validate_counts(counts: &Counts) -> (r: Result<(), BaselineError>)
    ensures
        r is Ok <==> counts.observed_bytes + counts.unobserved_bytes + counts.unmeasured_bytes == counts.bytes,
        r matches Err(e) ==> e == BaselineError::InvalidCounts,
{
    match counts.observed_bytes.checked_add(counts.unobserved_bytes) {
        Some(n) => match n.checked_add(counts.unmeasured_bytes) {
            Some(m) => if m == counts.bytes {
                Ok(())
            } else {
                Err(BaselineError::InvalidCounts)
            },
            None => Err(BaselineError::InvalidCounts),
        },
        None => Err(BaselineError::InvalidCounts),
    }
}

/// A baseline row's identity.
pub open spec fn identity_of(row: BaselineRow) -> Option<Seq<char>> {
    match row.source {
        Some(s) => Some(s@),
        None => match row.path {
            Some(p) => Some(p@),
            None => match row.package {
                Some(k) => Some(k@),
                None => None,
            },
        },
    }
}

/// The baseline rows as (identity, counts), or the first error: a row
/// without identity, a repeated identity, or counts that do not add up.
pub open spec fn baseline_pairs(rows: Seq<BaselineRow>, n: int) -> Result<Seq<(Seq<char>, Counts)>, BaselineError>
    decreases n,
{
    if n <= 0 {
        Ok(Seq::empty())
    } else {
        match baseline_pairs(rows, n - 1) {
            Err(e) => Err(e),
            Ok(pairs) => match identity_of(rows[n - 1]) {
                None => Err(BaselineError::NoIdentity),
                Some(name) => if exists|i: int| 0 <= i < pairs.len() && #[trigger] pairs[i].0 == name {
                    Err(BaselineError::Duplicate(identity_string(rows[n - 1])))
                } else if rows[n - 1].counts.observed_bytes + rows[n - 1].counts.unobserved_bytes
                    + rows[n - 1].counts.unmeasured_bytes != rows[n - 1].counts.bytes {
                    Err(BaselineError::InvalidCounts)
                } else {
                    Ok(pairs.push((name, rows[n - 1].counts)))
                },
            },
        }
    }
}

/// The identity string of a row that has one.
pub open spec fn identity_string(row: BaselineRow) -> String {
    match row.source {
        Some(s) => s,
        None => match row.path {
            Some(p) => p,
            None => row.package.unwrap(),
        },
    }
}

/// The first pair at or after `i` named `name`, or the length.
pub open spec fn pair_index(pairs: Seq<(Seq<char>, Counts)>, name: Seq<char>, i: int) -> int
    decreases pairs.len() - i,
{
    if i >= pairs.len() {
        pairs.len() as int
    } else if pairs[i].0 == name {
        i
    } else {
        pair_index(pairs, name, i + 1)
    }
}

/// A change as contracts see it.
pub open spec fn change_view(c: Change) -> (Seq<char>, ChangeKind, Counts, Counts) {
    (c.name@, c.change, c.before, c.after)
}

pub open spec fn changes_view(v: Seq<Change>) -> Seq<(Seq<char>, ChangeKind, Counts, Counts)> {
    v.map_values(|c: Change| change_view(c))
}

/// Current rows matched with the baseline, each baseline row taken at most
/// once; then the baseline rows left over, as removed.
pub open spec fn matched_changes(
    remaining: Seq<(Seq<char>, Counts)>,
    after: Seq<(String, Counts)>,
) -> Seq<(Seq<char>, ChangeKind, Counts, Counts)>
    decreases after.len(),
{
    if after.len() == 0 {
        remaining.map_values(
            |p: (Seq<char>, Counts)|
                {
                    let c = change_of(Some(p.1), None);
                    (p.0, c.0, c.1, c.2)
                },
        )
    } else {
        let name = after[0].0@;
        let i = pair_index(remaining, name, 0);
        let found = if 0 <= i < remaining.len() { Some(remaining[i].1) } else { None };
        let c = change_of(found, Some(after[0].1));
        seq![(name, c.0, c.1, c.2)] + matched_changes(
            if 0 <= i < remaining.len() { remaining.remove(i) } else { remaining },
            after.drop_first(),
        )
    }
}

proof fn lemma_matched_views(remaining: Seq<(Seq<char>, Counts)>, a: Seq<(String, Counts)>, b: Seq<(String, Counts)>)
    requires
        pair_views(a) == pair_views(b),
    ensures
        matched_changes(remaining, a) == matched_changes(remaining, b),
    decreases a.len(),
{
    assert(a.len() == pair_views(a).len() && b.len() == pair_views(b).len());
    if a.len() > 0 {
        assert(pair_views(a)[0] == pair_views(b)[0]);
        assert(pair_views(a.drop_first()) =~= pair_views(a).drop_first());
        assert(pair_views(b.drop_first()) =~= pair_views(b).drop_first());
        let name = a[0].0@;
        let i = pair_index(remaining, name, 0);
        let next = if 0 <= i < remaining.len() { remaining.remove(i) } else { remaining };
        lemma_matched_views(next, a.drop_first(), b.drop_first());
    }
}

/// Changes by growth, largest first; equal growth by name.
pub open spec fn change_before(a: Change, b: Change) -> bool {
    a.delta.bytes > b.delta.bytes || (a.delta.bytes == b.delta.bytes && name_less(a.name@, b.name@))
}

pub open spec fn changes_ordered(v: Seq<Change>) -> bool {
    forall|i: int, j: int| 0 <= i < j < v.len() ==> !change_before(#[trigger] v[j], #[trigger] v[i])
}

pub open spec fn pair_views(v: Seq<(String, Counts)>) -> Seq<(Seq<char>, Counts)> {
    v.map_values(|p: (String, Counts)| (p.0@, p.1))
}

proof fn lemma_pair_index(pairs: Seq<(Seq<char>, Counts)>, name: Seq<char>, i: int)
    requires
        0 <= i <= pairs.len(),
    ensures
        i <= pair_index(pairs, name, i) <= pairs.len(),
        pair_index(pairs, name, i) < pairs.len() ==> pairs[pair_index(pairs, name, i)].0 == name,
        forall|j: int| i <= j < pair_index(pairs, name, i) ==> pairs[j].0 != name,
    decreases pairs.len() - i,
{
    if i < pairs.len() && pairs[i].0 != name {
        lemma_pair_index(pairs, name, i + 1);
    }
}

fn find_pair(pairs: &Vec<(String, Counts)>, name: &str) -> (r: usize)
    ensures
        r == pair_index(pair_views(pairs@), name@, 0),
{
    let mut i: usize = 0;
    while i < pairs.len() && !crate::strings::str_eq(pairs[i].0.as_str(), name)
        invariant
            i <= pairs@.len(),
            pair_index(pair_views(pairs@), name@, i as int) == pair_index(pair_views(pairs@), name@, 0),
        decreases pairs@.len() - i,
    {
        i = i + 1;
    }
    i
}

fn identity(row: &BaselineRow) -> (r: Option<String>)
    ensures
        match r {
            Some(s) => identity_of(*row) == Some(s@) && s == identity_string(*row),
            None => identity_of(*row) is None,
        },
{
    match &row.source {
        Some(s) => Some(s.clone()),
        None => match &row.path {
            Some(p) => Some(p.clone()),
            None => match &row.package {
                Some(k) => Some(k.clone()),
                None => None,
            },
        },
    }
}

/// The baseline rows as (identity, counts).
fn baseline_rows(rows: &Vec<BaselineRow>) -> (r: Result<Vec<(String, Counts)>, BaselineError>)
    ensures
        match r {
            Ok(v) => baseline_pairs(rows@, rows@.len() as int) == Ok::<Seq<(Seq<char>, Counts)>, BaselineError>(pair_views(v@)),
            Err(e) => baseline_pairs(rows@, rows@.len() as int) == Err::<Seq<(Seq<char>, Counts)>, BaselineError>(e),
        },
{
    let mut pairs: Vec<(String, Counts)> = Vec::new();
    proof {
        assert(pair_views(pairs@) =~= Seq::<(Seq<char>, Counts)>::empty());
    }
    for k in 0..rows.len()
        invariant
            baseline_pairs(rows@, k as int) == Ok::<Seq<(Seq<char>, Counts)>, BaselineError>(pair_views(pairs@)),
    {
        let row = &rows[k];
        let name = match identity(row) {
            None => {
                proof {
                    lemma_pairs_err(rows@, k + 1, rows@.len() as int);
                }
                return Err(BaselineError::NoIdentity);
            },
            Some(name) => name,
        };
        let at = find_pair(&pairs, name.as_str());
        proof {
            lemma_pair_index(pair_views(pairs@), name@, 0);
        }
        if at < pairs.len() {
            proof {
                assert(pair_views(pairs@)[at as int].0 == name@);
                lemma_pairs_err(rows@, k + 1, rows@.len() as int);
            }
            return Err(BaselineError::Duplicate(name));
        }
        match validate_counts(&row.counts) {
            Err(e) => {
                proof {
                    assert(!(exists|i: int| 0 <= i < pair_views(pairs@).len() && #[trigger] pair_views(pairs@)[i].0 == name@));
                    lemma_pairs_err(rows@, k + 1, rows@.len() as int);
                }
                return Err(e);
            },
            Ok(()) => {},
        }
        let ghost before = pair_views(pairs@);
        pairs.push((name, row.counts));
        proof {
            assert(pair_views(pairs@) =~= before.push((name@, row.counts)));
            assert(!(exists|i: int| 0 <= i < before.len() && #[trigger] before[i].0 == name@));
        }
    }
    Ok(pairs)
}

proof fn lemma_pairs_err(rows: Seq<BaselineRow>, k: int, n: int)
    requires
        0 <= k <= n,
        baseline_pairs(rows, k) is Err,
    ensures
        baseline_pairs(rows, n) == baseline_pairs(rows, k),
    decreases n - k,
{
    if n > k {
        lemma_pairs_err(rows, k, n - 1);
    }
}

proof fn lemma_change_before_transitive(a: Change, b: Change, c: Change)
    requires
        change_before(a, b),
        change_before(b, c),
    ensures
        change_before(a, c),
{
    if a.delta.bytes == b.delta.bytes && b.delta.bytes == c.delta.bytes {
        lemma_name_less_transitive(a.name@, b.name@, c.name@);
    }
}

fn change_first(a: &Change, b: &Change) -> (r: bool)
    ensures
        r == change_before(*a, *b),
{
    a.delta.bytes > b.delta.bytes || (a.delta.bytes == b.delta.bytes && chars_less(
        &chars_of(a.name.as_str()),
        &chars_of(b.name.as_str()),
    ))
}

pub open spec fn deltas_ok(v: Seq<Change>) -> bool {
    forall|i: int| 0 <= i < v.len() ==> (#[trigger] v[i]).delta == delta_of(v[i].before, v[i].after)
}

/// Orders changes by growth, largest first; equal growth by name.
fn sort_changes(items: Vec<Change>) -> (r: Vec<Change>)
    requires
        deltas_ok(items@),
    ensures
        changes_view(r@).to_multiset() == changes_view(items@).to_multiset(),
        changes_ordered(r@),
        deltas_ok(r@),
{
    broadcast use vstd::seq_lib::group_to_multiset_ensures;

    let mut rest = items;
    let mut out: Vec<Change> = Vec::new();
    let ghost all = changes_view(items@);
    proof {
        assert(changes_view(out@) + changes_view(rest@) =~= all);
    }
    while rest.len() > 0
        invariant
            (changes_view(out@) + changes_view(rest@)).to_multiset() == all.to_multiset(),
            changes_ordered(out@),
            deltas_ok(out@),
            deltas_ok(rest@),
            forall|i: int, j: int| 0 <= i < out@.len() && 0 <= j < rest@.len() ==> !change_before(#[trigger] rest@[j], #[trigger] out@[i]),
        decreases rest@.len(),
    {
        let ghost rv = rest@;
        let mut best: usize = 0;
        let mut k: usize = 1;
        proof {
            lemma_name_less_irreflexive(rv[0].name@);
        }
        while k < rest.len()
            invariant
                rv == rest@,
                rest@.len() > 0,
                best < k <= rest@.len(),
                forall|j: int| 0 <= j < k ==> !change_before(#[trigger] rv[j], rv[best as int]),
            decreases rest@.len() - k,
        {
            if change_first(&rest[k], &rest[best]) {
                proof {
                    assert forall|j: int| 0 <= j < k implies !change_before(#[trigger] rv[j], rv[k as int]) by {
                        if change_before(rv[j], rv[k as int]) {
                            lemma_change_before_transitive(rv[j], rv[k as int], rv[best as int]);
                        }
                    }
                    lemma_name_less_irreflexive(rv[k as int].name@);
                }
                best = k;
            }
            k = k + 1;
        }
        let ghost ov = out@;
        let item = rest.remove(best);
        out.push(item);
        proof {
            let x = rv[best as int];
            assert(out@ =~= ov.push(x));
            assert(rest@ =~= rv.remove(best as int));
            assert forall|i: int, j: int| 0 <= i < j < out@.len() implies !change_before(#[trigger] out@[j], #[trigger] out@[i]) by {
                if j < ov.len() {
                    assert(out@[j] == ov[j] && out@[i] == ov[i]);
                } else {
                    assert(out@[i] == ov[i]);
                }
            }
            assert forall|i: int, j: int| 0 <= i < out@.len() && 0 <= j < rest@.len() implies !change_before(#[trigger] rest@[j], #[trigger] out@[i]) by {
                let jj = if j < best { j } else { j + 1 };
                assert(rest@[j] == rv[jj]);
                if i < ov.len() {
                    assert(out@[i] == ov[i]);
                }
            }
            assert forall|i: int| 0 <= i < out@.len() implies (#[trigger] out@[i]).delta == delta_of(out@[i].before, out@[i].after) by {
                if i < ov.len() {
                    assert(out@[i] == ov[i]);
                }
            }
            assert forall|j: int| 0 <= j < rest@.len() implies (#[trigger] rest@[j]).delta == delta_of(rest@[j].before, rest@[j].after) by {
                let jj = if j < best { j } else { j + 1 };
                assert(rest@[j] == rv[jj]);
            }
            let vo = changes_view(ov);
            let vr = changes_view(rv);
            let y = change_view(x);
            let base = vo + vr.remove(best as int);
            assert(vo + vr =~= base.insert(vo.len() + best, y));
            assert(changes_view(out@) + changes_view(rest@) =~= base.insert(vo.len() as int, y));
            vstd::seq_lib::to_multiset_insert(base, vo.len() + best, y);
            vstd::seq_lib::to_multiset_insert(base, vo.len() as int, y);
            assert(changes_view(ov) + changes_view(rv) =~= vo + vr);
        }
    }
    proof {
        assert(changes_view(out@) + changes_view(rest@) =~= changes_view(out@));
    }
    out
}

/// Compares current rows with baseline rows by identity: matched rows
/// changed or unchanged, new rows added, baseline rows without a current row
/// removed; largest growth first.
pub fn rows(before: &Vec<BaselineRow>, after: &Vec<(String, Counts)>) -> (r: Result<Vec<Change>, BaselineError>)
    ensures
        match r {
            Ok(v) => baseline_pairs(before@, before@.len() as int) matches Ok(pairs) && changes_view(v@).to_multiset()
                == matched_changes(pairs, after@).to_multiset() && changes_ordered(v@) && forall|i: int|
                0 <= i < v@.len() ==> (#[trigger] v@[i]).delta == delta_of(v@[i].before, v@[i].after),
            Err(e) => baseline_pairs(before@, before@.len() as int) == Err::<Seq<(Seq<char>, Counts)>, BaselineError>(e),
        },
{
    let pairs = match baseline_rows(before) {
        Ok(p) => p,
        Err(e) => return Err(e),
    };
    let ghost all = pair_views(pairs@);
    let mut remaining = pairs;
    let mut changes: Vec<Change> = Vec::new();
    let n = after.len();
    proof {
        assert(after@.subrange(0, n as int) =~= after@);
        assert(changes_view(changes@) + matched_changes(pair_views(remaining@), after@.subrange(0, n as int)) =~= matched_changes(all, after@));
    }
    for k in 0..n
        invariant
            n == after@.len(),
            changes_view(changes@) + matched_changes(pair_views(remaining@), after@.subrange(k as int, n as int)) == matched_changes(all, after@),
            deltas_ok(changes@),
    {
        let ghost rest = after@.subrange(k as int, n as int);
        let ghost rv = pair_views(remaining@);
        proof {
            assert(rest[0] == after@[k as int]);
            assert(rest.drop_first() =~= after@.subrange(k + 1, n as int));
        }
        let name = &after[k].0;
        let i = find_pair(&remaining, name.as_str());
        proof {
            lemma_pair_index(rv, name@, 0);
        }
        let change = if i < remaining.len() {
            let (_, counts) = remaining.remove(i);
            proof {
                assert(pair_views(remaining@) =~= rv.remove(i as int));
            }
            Change::new(name.clone(), Some(&counts), Some(&after[k].1))
        } else {
            Change::new(name.clone(), None, Some(&after[k].1))
        };
        let ghost cv = changes_view(changes@);
        changes.push(change);
        proof {
            assert(changes_view(changes@) =~= cv.push(change_view(change)));
            assert(cv.push(change_view(change)) + matched_changes(pair_views(remaining@), rest.drop_first()) =~= cv + matched_changes(rv, rest));
        }
    }
    let m = remaining.len();
    let ghost rv = pair_views(remaining@);
    proof {
        assert(after@.subrange(n as int, n as int) =~= Seq::<(String, Counts)>::empty());
    }
    let ghost base = changes_view(changes@);
    for j in 0..m
        invariant
            m == remaining@.len(),
            rv == pair_views(remaining@),
            changes_view(changes@) == base + matched_changes(rv, Seq::<(String, Counts)>::empty()).take(j as int),
            deltas_ok(changes@),
    {
        let change = Change::new(remaining[j].0.clone(), Some(&remaining[j].1), None);
        let ghost cv = changes_view(changes@);
        changes.push(change);
        proof {
            let tail = matched_changes(rv, Seq::<(String, Counts)>::empty());
            assert(tail[j as int] == change_view(change));
            assert(tail.take(j + 1) =~= tail.take(j as int).push(tail[j as int]));
            assert(changes_view(changes@) =~= cv.push(change_view(change)));
        }
    }
    proof {
        let tail = matched_changes(rv, Seq::<(String, Counts)>::empty());
        assert(tail.take(m as int) =~= tail);
    }
    let sorted = sort_changes(changes);
    Ok(sorted)
}


pub open spec fn str_seq(v: Seq<String>) -> Seq<Seq<char>> {
    v.map_values(|s: String| s@)
}

/// The same names, each list read as a set.
pub open spec fn same_names(a: Seq<String>, b: Seq<String>) -> bool {
    &&& forall|i: int| 0 <= i < a.len() ==> #[trigger] str_seq(b).contains(a[i]@)
    &&& forall|j: int| 0 <= j < b.len() ==> #[trigger] str_seq(a).contains(b[j]@)
}

/// The warnings a comparison starts with.
pub open spec fn head_warnings(s: Snapshot, r: Report) -> Seq<ComparisonWarning> {
    (if str_seq(s.include_patterns@) != str_seq(r.include_patterns@) || str_seq(s.exclude_patterns@) != str_seq(
        r.exclude_patterns@,
    ) {
        seq![ComparisonWarning::FiltersDiffer]
    } else {
        Seq::empty()
    }) + (if !same_names(s.scenarios@, r.scenarios@) {
        seq![ComparisonWarning::ScenarioSetsDiffer]
    } else {
        Seq::empty()
    }) + (if s.totals.unmeasured_bytes != r.totals.unmeasured_bytes {
        seq![ComparisonWarning::MeasurementChanged]
    } else {
        Seq::empty()
    })
}

fn same_list(a: &Vec<String>, b: &Vec<String>) -> (r: bool)
    ensures
        r == (str_seq(a@) == str_seq(b@)),
{
    if a.len() != b.len() {
        proof {
            assert(str_seq(a@).len() != str_seq(b@).len());
        }
        return false;
    }
    for i in 0..a.len()
        invariant
            a@.len() == b@.len(),
            forall|j: int| 0 <= j < i ==> a@[j]@ == b@[j]@,
    {
        if !str_eq(a[i].as_str(), b[i].as_str()) {
            proof {
                assert(str_seq(a@)[i as int] != str_seq(b@)[i as int]);
            }
            return false;
        }
    }
    proof {
        assert(str_seq(a@) =~= str_seq(b@));
    }
    true
}

fn contains_str(v: &Vec<String>, x: &String) -> (r: bool)
    ensures
        r == str_seq(v@).contains(x@),
{
    for i in 0..v.len()
        invariant
            forall|j: int| 0 <= j < i ==> v@[j]@ != x@,
    {
        if str_eq(v[i].as_str(), x.as_str()) {
            proof {
                assert(str_seq(v@)[i as int] == x@);
            }
            return true;
        }
    }
    proof {
        if str_seq(v@).contains(x@) {
            let j = choose|j: int| 0 <= j < str_seq(v@).len() && str_seq(v@)[j] == x@;
            assert(v@[j]@ == x@);
        }
    }
    false
}

fn same_sets(a: &Vec<String>, b: &Vec<String>) -> (r: bool)
    ensures
        r == same_names(a@, b@),
{
    for i in 0..a.len()
        invariant
            forall|k: int| 0 <= k < i ==> #[trigger] str_seq(b@).contains(a@[k]@),
    {
        if !contains_str(b, &a[i]) {
            return false;
        }
    }
    for j in 0..b.len()
        invariant
            forall|k: int| 0 <= k < a@.len() ==> #[trigger] str_seq(b@).contains(a@[k]@),
            forall|k: int| 0 <= k < j ==> #[trigger] str_seq(a@).contains(b@[k]@),
    {
        if !contains_str(a, &b[j]) {
            return false;
        }
    }
    true
}

fn source_pairs(rows: &Vec<crate::analysis::SourceRow>) -> (r: Vec<(String, Counts)>)
    ensures
        r@ == rows@.map_values(|x: crate::analysis::SourceRow| (x.source, x.counts)),
{
    let mut out: Vec<(String, Counts)> = Vec::new();
    for i in 0..rows.len()
        invariant
            out@ == rows@.take(i as int).map_values(|x: crate::analysis::SourceRow| (x.source, x.counts)),
    {
        let ghost before = out@;
        out.push((rows[i].source.clone(), rows[i].counts));
        proof {
            assert(out@ =~= before.push((rows@[i as int].source, rows@[i as int].counts)));
            assert(rows@.take(i + 1) =~= rows@.take(i as int).push(rows@[i as int]));
        }
    }
    proof {
        assert(rows@.take(rows@.len() as int) =~= rows@);
    }
    out
}

fn package_pairs(rows: &Vec<crate::analysis::PackageRow>) -> (r: Vec<(String, Counts)>)
    ensures
        pair_views(r@) == rows@.map_values(|x: crate::analysis::PackageRow| (x.package@, x.counts)),
{
    let mut out: Vec<(String, Counts)> = Vec::new();
    for i in 0..rows.len()
        invariant
            pair_views(out@) == rows@.take(i as int).map_values(|x: crate::analysis::PackageRow| (x.package@, x.counts)),
    {
        let ghost before = pair_views(out@);
        out.push((rows[i].package.clone(), rows[i].counts));
        proof {
            assert(pair_views(out@) =~= before.push((rows@[i as int].package@, rows@[i as int].counts)));
            assert(rows@.take(i + 1) =~= rows@.take(i as int).push(rows@[i as int]));
        }
    }
    proof {
        assert(rows@.take(rows@.len() as int) =~= rows@);
    }
    out
}

fn bundle_pairs(rows: &Vec<crate::analysis::BundleRow>) -> (r: Vec<(String, Counts)>)
    ensures
        pair_views(r@) == rows@.map_values(|x: crate::analysis::BundleRow| (x.path@, x.counts)),
{
    let mut out: Vec<(String, Counts)> = Vec::new();
    for i in 0..rows.len()
        invariant
            pair_views(out@) == rows@.take(i as int).map_values(|x: crate::analysis::BundleRow| (x.path@, x.counts)),
    {
        let ghost before = pair_views(out@);
        out.push((rows[i].path.clone(), rows[i].counts));
        proof {
            assert(pair_views(out@) =~= before.push((rows@[i as int].path@, rows@[i as int].counts)));
            assert(rows@.take(i + 1) =~= rows@.take(i as int).push(rows@[i as int]));
        }
    }
    proof {
        assert(rows@.take(rows@.len() as int) =~= rows@);
    }
    out
}

fn scenario_bundle_pairs(rows: &Vec<crate::scenario::ScenarioBundle>) -> (r: Vec<(String, Counts)>)
    ensures
        pair_views(r@) == rows@.map_values(|x: crate::scenario::ScenarioBundle| (x.path@, x.counts)),
{
    let mut out: Vec<(String, Counts)> = Vec::new();
    for i in 0..rows.len()
        invariant
            pair_views(out@) == rows@.take(i as int).map_values(|x: crate::scenario::ScenarioBundle| (x.path@, x.counts)),
    {
        let ghost before = pair_views(out@);
        out.push((rows[i].path.clone(), rows[i].counts));
        proof {
            assert(pair_views(out@) =~= before.push((rows@[i as int].path@, rows@[i as int].counts)));
            assert(rows@.take(i + 1) =~= rows@.take(i as int).push(rows@[i as int]));
        }
    }
    proof {
        assert(rows@.take(rows@.len() as int) =~= rows@);
    }
    out
}

/// Some baseline scenario has this name.
pub open spec fn has_scenario(v: Seq<ScenarioSnapshot>, name: Seq<char>) -> bool {
    exists|j: int| 0 <= j < v.len() && #[trigger] v[j].scenario@ == name
}

/// The indices of the first `n` current scenarios that the baseline also recorded.
pub open spec fn shared_scenarios(b: Seq<ScenarioSnapshot>, r: Seq<crate::scenario::ScenarioReport>, n: int) -> Seq<int>
    decreases n,
{
    if n <= 0 {
        Seq::empty()
    } else if has_scenario(b, r[n - 1].scenario@) {
        shared_scenarios(b, r, n - 1).push(n - 1)
    } else {
        shared_scenarios(b, r, n - 1)
    }
}

/// A scenario compared as the whole report is: its totals, and its rows
/// matched by identity.
pub open spec fn scenario_compared(c: ScenarioComparison, before: ScenarioSnapshot, current: crate::scenario::ScenarioReport) -> bool {
    &&& c.scenario@ == current.scenario@
    &&& (c.totals.change, c.totals.before, c.totals.after) == change_of(Some(before.totals), Some(current.totals))
    &&& baseline_pairs(before.sources@, before.sources@.len() as int) matches Ok(p) && changes_view(c.sources@).to_multiset()
        == matched_changes(p, current.sources@.map_values(|x: crate::analysis::SourceRow| (x.source, x.counts))).to_multiset()
    &&& baseline_pairs(before.packages@, before.packages@.len() as int) matches Ok(p) && changes_view(c.packages@).to_multiset()
        == matched_changes(p, current.packages@.map_values(|x: crate::analysis::PackageRow| (x.package, x.counts))).to_multiset()
    &&& baseline_pairs(before.bundles@, before.bundles@.len() as int) matches Ok(p) && changes_view(c.bundles@).to_multiset()
        == matched_changes(p, current.bundles@.map_values(|x: crate::scenario::ScenarioBundle| (x.path, x.counts))).to_multiset()
}

/// The first baseline scenario at or after `j` with this name (the length where none is).
pub open spec fn scenario_index(b: Seq<ScenarioSnapshot>, name: Seq<char>, j: int) -> int
    decreases b.len() - j,
{
    if j >= b.len() {
        b.len() as int
    } else if b[j].scenario@ == name {
        j
    } else {
        scenario_index(b, name, j + 1)
    }
}

/// Each comparison is of a scenario both recorded, in the current order,
/// against the baseline scenario of that name.
pub open spec fn scenarios_compared(
    b: Seq<ScenarioSnapshot>,
    r: Seq<crate::scenario::ScenarioReport>,
    cs: Seq<ScenarioComparison>,
) -> bool {
    let shared = shared_scenarios(b, r, r.len() as int);
    &&& cs.len() == shared.len()
    &&& forall|i: int|
        0 <= i < cs.len() ==> scenario_compared(
            #[trigger] cs[i],
            b[scenario_index(b, r[shared[i]].scenario@, 0)],
            r[shared[i]],
        )
}

/// The counts add up: every byte is observed, unobserved or unmeasured.
pub open spec fn counts_add_up(c: Counts) -> bool {
    c.observed_bytes + c.unobserved_bytes + c.unmeasured_bytes == c.bytes
}

/// A baseline scenario's rows all pair up.
pub open spec fn scenario_rows_ok(b: ScenarioSnapshot) -> bool {
    &&& baseline_pairs(b.sources@, b.sources@.len() as int) is Ok
    &&& baseline_pairs(b.packages@, b.packages@.len() as int) is Ok
    &&& baseline_pairs(b.bundles@, b.bundles@.len() as int) is Ok
}

/// The scenarios of the baseline are named once each, with counts that add up.
pub open spec fn scenarios_sound(v: Seq<ScenarioSnapshot>) -> bool {
    &&& forall|i: int, j: int| 0 <= i < j < v.len() ==> (#[trigger] v[i]).scenario@ != (#[trigger] v[j]).scenario@
    &&& forall|i: int| 0 <= i < v.len() ==> counts_add_up(#[trigger] v[i].totals)
}

/// A baseline can be compared with the report: same schema and metrics,
/// totals that add up, sound scenarios, and rows that pair up, for the whole
/// report and each scenario both recorded.
pub open spec fn comparable(b: Snapshot, r: Report) -> bool {
    &&& b.schema_version == Some(r.schema_version as u64)
    &&& b.metric@ == r.metric@
    &&& b.attribution@ == r.attribution@
    &&& counts_add_up(b.totals)
    &&& scenarios_sound(b.scenario_reports@)
    &&& forall|k: int|
        0 <= k < r.scenario_reports@.len() && has_scenario(b.scenario_reports@, (#[trigger] r.scenario_reports@[k]).scenario@)
            ==> scenario_rows_ok(b.scenario_reports@[scenario_index(b.scenario_reports@, r.scenario_reports@[k].scenario@, 0)])
    &&& baseline_pairs(b.sources@, b.sources@.len() as int) is Ok
    &&& baseline_pairs(b.packages@, b.packages@.len() as int) is Ok
    &&& baseline_pairs(b.bundles@, b.bundles@.len() as int) is Ok
}

/// Compares a report with a baseline of the same schema and metrics: totals,
/// sources, packages and bundles by identity, and each scenario that both
/// recorded under one name.
pub fn compare(report: &Report, baseline: &Snapshot) -> (r: Result<Comparison, BaselineError>)
    ensures
        baseline.schema_version != Some(report.schema_version as u64) ==> r == Err::<Comparison, BaselineError>(
            BaselineError::SchemaVersion,
        ),
        baseline.schema_version == Some(report.schema_version as u64) && (baseline.metric@ != report.metric@
            || baseline.attribution@ != report.attribution@) ==> r == Err::<Comparison, BaselineError>(
            BaselineError::Incompatible,
        ),
        r is Ok <==> comparable(*baseline, *report),
        r matches Ok(c) ==> {
            &&& c.totals.name@ == "total"@
            &&& (c.totals.change, c.totals.before, c.totals.after) == change_of(Some(baseline.totals), Some(report.totals))
            &&& baseline_pairs(baseline.sources@, baseline.sources@.len() as int) matches Ok(p) && changes_view(c.sources@).to_multiset()
                == matched_changes(p, report.sources@.map_values(|x: crate::analysis::SourceRow| (x.source, x.counts))).to_multiset()
            &&& changes_ordered(c.sources@)
            &&& baseline_pairs(baseline.packages@, baseline.packages@.len() as int) matches Ok(p) && changes_view(c.packages@).to_multiset()
                == matched_changes(p, report.packages@.map_values(|x: crate::analysis::PackageRow| (x.package, x.counts))).to_multiset()
            &&& changes_ordered(c.packages@)
            &&& baseline_pairs(baseline.bundles@, baseline.bundles@.len() as int) matches Ok(p) && changes_view(c.bundles@).to_multiset()
                == matched_changes(p, report.bundles@.map_values(|x: crate::analysis::BundleRow| (x.path, x.counts))).to_multiset()
            &&& changes_ordered(c.bundles@)
            &&& c.scenarios@.len() == shared_scenarios(
                baseline.scenario_reports@,
                report.scenario_reports@,
                report.scenario_reports@.len() as int,
            ).len()
            &&& scenarios_compared(baseline.scenario_reports@, report.scenario_reports@, c.scenarios@)
            &&& c.warnings@.len() >= head_warnings(*baseline, *report).len()
            &&& c.warnings@.subrange(0, head_warnings(*baseline, *report).len() as int) == head_warnings(*baseline, *report)
        },
{
    let expected_version: u64 = report.schema_version as u64;
    let version_ok = match baseline.schema_version {
        Some(v) => v == expected_version,
        None => false,
    };
    if !version_ok {
        return Err(BaselineError::SchemaVersion);
    }
    if !str_eq(baseline.metric.as_str(), report.metric.as_str()) || !str_eq(
        baseline.attribution.as_str(),
        report.attribution.as_str(),
    ) {
        return Err(BaselineError::Incompatible);
    }
    match validate_counts(&baseline.totals) {
        Err(e) => return Err(e),
        Ok(()) => {},
    }
    assert(counts_add_up(baseline.totals));
    let mut warnings: Vec<ComparisonWarning> = Vec::new();
    if !same_list(&baseline.include_patterns, &report.include_patterns) || !same_list(
        &baseline.exclude_patterns,
        &report.exclude_patterns,
    ) {
        warnings.push(ComparisonWarning::FiltersDiffer);
    }
    if !same_sets(&baseline.scenarios, &report.scenarios) {
        warnings.push(ComparisonWarning::ScenarioSetsDiffer);
    }
    if baseline.totals.unmeasured_bytes != report.totals.unmeasured_bytes {
        warnings.push(ComparisonWarning::MeasurementChanged);
    }
    proof {
        assert(warnings@ =~= head_warnings(*baseline, *report));
    }
    let ghost head = warnings@;
    let m = baseline.scenario_reports.len();
    let ghost sr = baseline.scenario_reports@;
    for i in 0..m
        invariant
            m == baseline.scenario_reports@.len(),
            sr == baseline.scenario_reports@,
            baseline.schema_version == Some(report.schema_version as u64),
            baseline.metric@ == report.metric@,
            baseline.attribution@ == report.attribution@,
            forall|a: int, b: int| 0 <= a < b < i ==> (#[trigger] sr[a]).scenario@ != (#[trigger] sr[b]).scenario@,
            forall|a: int| 0 <= a < i ==> counts_add_up(#[trigger] sr[a].totals),
    {
        for j in 0..i
            invariant
                i < m,
                m == baseline.scenario_reports@.len(),
                sr == baseline.scenario_reports@,
                baseline.schema_version == Some(report.schema_version as u64),
                baseline.metric@ == report.metric@,
                baseline.attribution@ == report.attribution@,
                forall|a: int| 0 <= a < j ==> (#[trigger] sr[a]).scenario@ != sr[i as int].scenario@,
        {
            if str_eq(baseline.scenario_reports[j].scenario.as_str(), baseline.scenario_reports[i].scenario.as_str()) {
                proof {
                    assert(!scenarios_sound(sr));
                }
                return Err(BaselineError::DuplicateScenario(baseline.scenario_reports[i].scenario.clone()));
            }
        }
        match validate_counts(&baseline.scenario_reports[i].totals) {
            Err(e) => {
                proof {
                    assert(!counts_add_up(sr[i as int].totals));
                    assert(!scenarios_sound(sr));
                }
                return Err(e);
            },
            Ok(()) => {},
        }
    }
    proof {
        assert(scenarios_sound(sr));
    }
    let mut scenarios: Vec<ScenarioComparison> = Vec::new();
    let ghost mut js: Seq<int> = Seq::empty();
    let ghost mut sv: Seq<int> = Seq::empty();
    for k in 0..report.scenario_reports.len()
        invariant
            m == baseline.scenario_reports@.len(),
            baseline.schema_version == Some(report.schema_version as u64),
            baseline.metric@ == report.metric@,
            baseline.attribution@ == report.attribution@,
            warnings@.len() >= head.len(),
            warnings@.subrange(0, head.len() as int) == head,
            scenarios@.len() == shared_scenarios(baseline.scenario_reports@, report.scenario_reports@, k as int).len(),
            js.len() == scenarios@.len(),
            sr == baseline.scenario_reports@,
            scenarios_sound(sr),
            counts_add_up(baseline.totals),
            forall|k2: int|
                0 <= k2 < k && has_scenario(sr, (#[trigger] report.scenario_reports@[k2]).scenario@) ==> scenario_rows_ok(
                    sr[scenario_index(sr, report.scenario_reports@[k2].scenario@, 0)],
                ),
            sv == shared_scenarios(baseline.scenario_reports@, report.scenario_reports@, k as int),
            forall|i: int| 0 <= i < scenarios@.len() ==> 0 <= #[trigger] js[i] < m,
            forall|i: int|
                0 <= i < scenarios@.len() ==> #[trigger] js[i] == scenario_index(
                    baseline.scenario_reports@,
                    report.scenario_reports@[sv[i]].scenario@,
                    0,
                ),
            forall|i: int|
                0 <= i < scenarios@.len() ==> scenario_compared(
                    #[trigger] scenarios@[i],
                    baseline.scenario_reports@[js[i]],
                    report.scenario_reports@[sv[i]],
                ),
    {
        let current = &report.scenario_reports[k];
        let mut found: Option<usize> = None;
        for j in 0..m
            invariant
                m == baseline.scenario_reports@.len(),
                found matches Some(x) ==> x < m && baseline.scenario_reports@[x as int].scenario@ == current.scenario@,
                found is None ==> forall|q: int| 0 <= q < j ==> (#[trigger] baseline.scenario_reports@[q]).scenario@ != current.scenario@,
                found is None ==> scenario_index(baseline.scenario_reports@, current.scenario@, 0) == scenario_index(
                    baseline.scenario_reports@,
                    current.scenario@,
                    j as int,
                ),
                found matches Some(x) ==> scenario_index(baseline.scenario_reports@, current.scenario@, 0) == x,
                baseline.schema_version == Some(report.schema_version as u64),
                baseline.metric@ == report.metric@,
                baseline.attribution@ == report.attribution@,
        {
            if found.is_none() && str_eq(baseline.scenario_reports[j].scenario.as_str(), current.scenario.as_str()) {
                found = Some(j);
            }
        }
        let ghost sk = shared_scenarios(baseline.scenario_reports@, report.scenario_reports@, k as int);
        let ghost before_list = scenarios@;
        let ghost mut wj: int = 0;
        let ghost mut made: ScenarioComparison = arbitrary();
        proof {
            assert(current == report.scenario_reports@[k as int]);
            if found is None {
                assert(!has_scenario(baseline.scenario_reports@, current.scenario@));
            } else {
                assert(has_scenario(baseline.scenario_reports@, current.scenario@));
            }
        }
        if let Some(j) = found {
            let before = &baseline.scenario_reports[j];
            if before.totals.unmeasured_bytes != current.totals.unmeasured_bytes {
                let ghost w = warnings@;
                warnings.push(ComparisonWarning::ScenarioMeasurementChanged(current.scenario.clone()));
                proof {
                    assert(warnings@.subrange(0, head.len() as int) =~= w.subrange(0, head.len() as int));
                }
            }
            proof {
                assert(j as int == scenario_index(sr, report.scenario_reports@[k as int].scenario@, 0));
                assert(has_scenario(sr, report.scenario_reports@[k as int].scenario@));
            }
            let sources = match rows(&before.sources, &source_pairs(&current.sources)) {
                Ok(v) => v,
                Err(e) => {
                    proof {
                        assert(!scenario_rows_ok(sr[j as int]));
                        assert(!comparable(*baseline, *report));
                    }
                    return Err(e);
                },
            };
            let cur_packages = package_pairs(&current.packages);
            let packages = match rows(&before.packages, &cur_packages) {
                Ok(v) => v,
                Err(e) => {
                    proof {
                        assert(!scenario_rows_ok(sr[j as int]));
                        assert(!comparable(*baseline, *report));
                    }
                    return Err(e);
                },
            };
            let cur_bundles = scenario_bundle_pairs(&current.bundles);
            let bundles = match rows(&before.bundles, &cur_bundles) {
                Ok(v) => v,
                Err(e) => {
                    proof {
                        assert(!scenario_rows_ok(sr[j as int]));
                        assert(!comparable(*baseline, *report));
                    }
                    return Err(e);
                },
            };
            proof {
                assert(scenario_rows_ok(sr[j as int]));
            }
            let compared = ScenarioComparison {
                scenario: current.scenario.clone(),
                totals: Change::new("total".to_string(), Some(&before.totals), Some(&current.totals)),
                sources,
                packages,
                bundles,
            };
            proof {
                let pp = current.packages@.map_values(|x: crate::analysis::PackageRow| (x.package, x.counts));
                assert(pair_views(pp) =~= pair_views(cur_packages@));
                if let Ok(p) = baseline_pairs(before.packages@, before.packages@.len() as int) {
                    lemma_matched_views(p, cur_packages@, pp);
                }
                let bp = current.bundles@.map_values(|x: crate::scenario::ScenarioBundle| (x.path, x.counts));
                assert(pair_views(bp) =~= pair_views(cur_bundles@));
                if let Ok(p) = baseline_pairs(before.bundles@, before.bundles@.len() as int) {
                    lemma_matched_views(p, cur_bundles@, bp);
                }
                assert(scenario_compared(compared, baseline.scenario_reports@[j as int], report.scenario_reports@[k as int]));
                wj = j as int;
                made = compared;
            }
            scenarios.push(compared);
        }
        proof {
            let sk1 = shared_scenarios(baseline.scenario_reports@, report.scenario_reports@, k + 1);
            let js0 = js;
            if scenarios@.len() > before_list.len() {
                js = js.push(wj);
            }
            assert forall|i: int| 0 <= i < scenarios@.len() implies 0 <= #[trigger] js[i] < m by {
                if i < before_list.len() {
                    assert(js[i] == js0[i]);
                }
            }
            assert forall|i: int| 0 <= i < scenarios@.len() implies #[trigger] js[i] == scenario_index(
                baseline.scenario_reports@,
                report.scenario_reports@[sk1[i]].scenario@,
                0,
            ) by {
                if i < before_list.len() {
                    assert(js[i] == js0[i]);
                    assert(sk1[i] == sk[i]);
                } else {
                    assert(sk1[i] == k);
                }
            }
            assert forall|i: int|
                0 <= i < scenarios@.len() implies scenario_compared(
                    #[trigger] scenarios@[i],
                    baseline.scenario_reports@[js[i]],
                    report.scenario_reports@[sk1[i]],
                ) by {
                if i < before_list.len() {
                    assert(scenarios@[i] == before_list[i]);
                    assert(sk1[i] == sk[i]);
                    assert(js[i] == js0[i]);
                } else {
                    assert(sk1[i] == k);
                    assert(scenarios@[i] == made);
                }
            }
            sv = sk1;
            assert(sv == shared_scenarios(baseline.scenario_reports@, report.scenario_reports@, k + 1));
            assert forall|k2: int|
                0 <= k2 < k + 1 && has_scenario(sr, (#[trigger] report.scenario_reports@[k2]).scenario@) implies scenario_rows_ok(
                    sr[scenario_index(sr, report.scenario_reports@[k2].scenario@, 0)],
                ) by {
                if k2 == k {
                    assert(found is Some);
                }
            }
            assert(js.len() == scenarios@.len());
        }
    }
    let after_sources = source_pairs(&report.sources);
    let sources = match rows(&baseline.sources, &after_sources) {
        Ok(v) => v,
        Err(e) => return Err(e),
    };
    let after_packages = package_pairs(&report.packages);
    let packages = match rows(&baseline.packages, &after_packages) {
        Ok(v) => v,
        Err(e) => return Err(e),
    };
    let after_bundles = bundle_pairs(&report.bundles);
    let bundles = match rows(&baseline.bundles, &after_bundles) {
        Ok(v) => v,
        Err(e) => return Err(e),
    };
    proof {
        assert(comparable(*baseline, *report));
        let pp = report.packages@.map_values(|x: crate::analysis::PackageRow| (x.package, x.counts));
        assert(pair_views(pp) =~= pair_views(after_packages@));
        if let Ok(p) = baseline_pairs(baseline.packages@, baseline.packages@.len() as int) {
            lemma_matched_views(p, after_packages@, pp);
        }
        let bp = report.bundles@.map_values(|x: crate::analysis::BundleRow| (x.path, x.counts));
        assert(pair_views(bp) =~= pair_views(after_bundles@));
        if let Ok(p) = baseline_pairs(baseline.bundles@, baseline.bundles@.len() as int) {
            lemma_matched_views(p, after_bundles@, bp);
        }
    }
    let ghost sc = scenarios@;
    let result = Comparison {
        totals: Change::new("total".to_string(), Some(&baseline.totals), Some(&report.totals)),
        sources,
        packages,
        bundles,
        scenarios,
        warnings,
    };
    proof {
        assert(result.scenarios@ == sc);
        let shared = shared_scenarios(baseline.scenario_reports@, report.scenario_reports@, report.scenario_reports@.len() as int);
        assert(sv == shared);
        assert forall|i: int| 0 <= i < sc.len() implies scenario_compared(
            #[trigger] sc[i],
            baseline.scenario_reports@[scenario_index(baseline.scenario_reports@, report.scenario_reports@[shared[i]].scenario@, 0)],
            report.scenario_reports@[shared[i]],
        ) by {
            assert(js[i] == scenario_index(baseline.scenario_reports@, report.scenario_reports@[sv[i]].scenario@, 0));
            assert(scenario_compared(sc[i], baseline.scenario_reports@[js[i]], report.scenario_reports@[sv[i]]));
        }
        assert(scenarios_compared(baseline.scenario_reports@, report.scenario_reports@, result.scenarios@));
    }
    Ok(result)
}

} // verus!
