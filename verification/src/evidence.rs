//! Portable evidence: the exact inputs of one analysis plus the results they
//! produced, and the comparison of a replay with them.
use vstd::prelude::*;

use crate::analysis::{BundleRow, Counts, Report, Span, Status};
use crate::bundle::{sha256, sha256_hex};
use crate::strings::{chars_of, extend_chars, str_eq, string_of};
use crate::summary::name_less;

verus! {

/// The analyzer that produced a manifest.
#[derive(Debug, Clone, PartialEq)]
pub struct Analyzer {
    pub version: String,
    pub commit: Option<String>,
}

/// A file copied into the evidence directory.
#[derive(Debug, Clone)]
pub struct FileEntry {
    pub path: String,
    pub role: String,
    pub sha256: String,
}

/// The results an analysis produced, to compare a replay with.
#[derive(Debug, Clone, PartialEq)]
pub struct Expected {
    pub scenarios: Vec<String>,
    pub totals: Counts,
    pub scenario_totals: Vec<(String, Counts)>,
    pub excluded_bundles: Vec<String>,
    pub bundles: Vec<ExpectedBundle>,
}

/// One bundle's results.
#[derive(Debug, Clone, PartialEq)]
pub struct ExpectedBundle {
    pub path: String,
    pub sha256: String,
    pub source_map_sha256: Option<String>,
    /// `scenario: source/source-map` verification, in recording order.
    pub verification: Vec<String>,
    pub counts: Counts,
    /// Digest of every span boundary, source, and status; one per scenario too.
    pub spans_sha256: String,
    pub scenario_spans_sha256: Vec<(String, String)>,
}

/// How a replay differs from the expected results.
#[derive(Debug, Clone, PartialEq, Eq)]
pub enum Difference {
    Scenarios,
    Totals,
    ScenarioTotals,
    ExcludedBundles,
    /// A bundle the replay lacks.
    BundleMissing(String),
    /// A bundle with other results; whether its span digests changed.
    BundleDiffers(String, bool),
    /// A bundle only the replay has.
    BundleOnlyInReplay(String),
}

pub open spec fn strs(v: Seq<String>) -> Seq<Seq<char>> {
    v.map_values(|s: String| s@)
}

pub open spec fn opt_str(o: Option<String>) -> Option<Seq<char>> {
    match o {
        Some(s) => Some(s@),
        None => None,
    }
}

pub open spec fn named_counts(v: Seq<(String, Counts)>) -> Seq<(Seq<char>, Counts)> {
    v.map_values(|p: (String, Counts)| (p.0@, p.1))
}

pub open spec fn pairs(v: Seq<(String, String)>) -> Seq<(Seq<char>, Seq<char>)> {
    v.map_values(|p: (String, String)| (p.0@, p.1@))
}

/// The value of the last entry named `k`: the one a map built from the
/// entries in order keeps.
pub open spec fn lookup<T>(v: Seq<(Seq<char>, T)>, k: Seq<char>) -> Option<T>
    decreases v.len(),
{
    if v.len() == 0 {
        None
    } else if v.last().0 == k {
        Some(v.last().1)
    } else {
        lookup(v.drop_last(), k)
    }
}

/// The entries make the same map.
pub open spec fn same_entries<T>(a: Seq<(Seq<char>, T)>, b: Seq<(Seq<char>, T)>) -> bool {
    forall|k: Seq<char>| #[trigger] lookup(a, k) == lookup(b, k)
}

proof fn lemma_lookup_last<T>(v: Seq<(Seq<char>, T)>, k: Seq<char>, i: int)
    requires
        0 <= i < v.len(),
        v[i].0 == k,
        forall|j: int| i < j < v.len() ==> (#[trigger] v[j]).0 != k,
    ensures
        lookup(v, k) == Some(v[i].1),
    decreases v.len(),
{
    if i < v.len() - 1 {
        lemma_lookup_last(v.drop_last(), k, i);
    }
}

proof fn lemma_lookup_none<T>(v: Seq<(Seq<char>, T)>, k: Seq<char>)
    requires
        forall|j: int| 0 <= j < v.len() ==> (#[trigger] v[j]).0 != k,
    ensures
        lookup(v, k) is None,
    decreases v.len(),
{
    if v.len() > 0 {
        lemma_lookup_none(v.drop_last(), k);
    }
}

proof fn lemma_lookup_found<T>(v: Seq<(Seq<char>, T)>, k: Seq<char>)
    ensures
        lookup(v, k) is Some <==> exists|i: int| 0 <= i < v.len() && (#[trigger] v[i]).0 == k,
    decreases v.len(),
{
    if v.len() > 0 {
        let w = v.drop_last();
        lemma_lookup_found(w, k);
        if exists|i: int| 0 <= i < w.len() && (#[trigger] w[i]).0 == k {
            let i = choose|i: int| 0 <= i < w.len() && (#[trigger] w[i]).0 == k;
            assert(v[i] == w[i]);
        }
        if v.last().0 != k && exists|i: int| 0 <= i < v.len() && (#[trigger] v[i]).0 == k {
            let i = choose|i: int| 0 <= i < v.len() && (#[trigger] v[i]).0 == k;
            assert(i < v.len() - 1);
            assert(w[i] == v[i]);
        }
    }
}

/// The index of the last entry named `k`.
fn last_key<T>(v: &Vec<(String, T)>, k: &str) -> (r: Option<usize>)
    ensures
        match r {
            Some(i) => i < v@.len() && v@[i as int].0@ == k@ && forall|j: int|
                i < j < v@.len() ==> (#[trigger] v@[j]).0@ != k@,
            None => forall|j: int| 0 <= j < v@.len() ==> (#[trigger] v@[j]).0@ != k@,
        },
{
    let mut i = v.len();
    while i > 0
        invariant
            i <= v@.len(),
            forall|j: int| i <= j < v@.len() ==> (#[trigger] v@[j]).0@ != k@,
        decreases i,
    {
        i = i - 1;
        if str_eq(v[i].0.as_str(), k) {
            return Some(i);
        }
    }
    None
}

/// The span digests agree.
pub open spec fn spans_same(a: ExpectedBundle, b: ExpectedBundle) -> bool {
    a.spans_sha256@ == b.spans_sha256@ && same_entries(pairs(a.scenario_spans_sha256@), pairs(b.scenario_spans_sha256@))
}

/// Two bundles' results agree.
pub open spec fn bundle_same(a: ExpectedBundle, b: ExpectedBundle) -> bool {
    &&& a.path@ == b.path@
    &&& a.sha256@ == b.sha256@
    &&& opt_str(a.source_map_sha256) == opt_str(b.source_map_sha256)
    &&& strs(a.verification@) == strs(b.verification@)
    &&& a.counts == b.counts
    &&& spans_same(a, b)
}

/// The last bundle at `path`: the one a map from paths to bundles keeps.
pub open spec fn bundle_at(v: Seq<ExpectedBundle>, path: Seq<char>) -> Option<ExpectedBundle>
    decreases v.len(),
{
    if v.len() == 0 {
        None
    } else if v.last().path@ == path {
        Some(v.last())
    } else {
        bundle_at(v.drop_last(), path)
    }
}

/// The differences for the first `n` expected bundles.
pub open spec fn bundle_differences(expected: Seq<ExpectedBundle>, actual: Seq<ExpectedBundle>, n: int) -> Seq<Difference>
    decreases n,
{
    if n <= 0 {
        Seq::empty()
    } else {
        let rest = bundle_differences(expected, actual, n - 1);
        let b = expected[n - 1];
        match bundle_at(actual, b.path@) {
            None => rest.push(Difference::BundleMissing(b.path)),
            Some(a) => if bundle_same(b, a) {
                rest
            } else {
                rest.push(Difference::BundleDiffers(b.path, !spans_same(b, a)))
            },
        }
    }
}

/// The replay has a bundle at `p` and the expectation has none.
pub open spec fn replay_only(e: Seq<ExpectedBundle>, a: Seq<ExpectedBundle>, p: Seq<char>) -> bool {
    (exists|j: int| 0 <= j < a.len() && #[trigger] a[j].path@ == p) && bundle_at(e, p) is None
}

pub open spec fn only_path(d: Difference) -> Seq<char> {
    match d {
        Difference::BundleOnlyInReplay(p) => p@,
        _ => Seq::empty(),
    }
}

/// `tail` names each bundle only the replay has once, in ascending path order.
pub open spec fn replay_only_listed(e: Seq<ExpectedBundle>, a: Seq<ExpectedBundle>, tail: Seq<Difference>) -> bool {
    &&& forall|i: int|
        0 <= i < tail.len() ==> (#[trigger] tail[i]) is BundleOnlyInReplay && replay_only(e, a, only_path(tail[i]))
    &&& forall|i: int, j: int| 0 <= i < j < tail.len() ==> name_less(only_path(#[trigger] tail[i]), only_path(#[trigger] tail[j]))
    &&& forall|p: Seq<char>| #[trigger] replay_only(e, a, p) ==> exists|i: int| 0 <= i < tail.len() && only_path(#[trigger] tail[i]) == p
}

/// The differences before those of bundles only in the replay.
pub open spec fn head_differences(e: Expected, a: Expected) -> Seq<Difference> {
    let head = if strs(e.scenarios@) != strs(a.scenarios@) { seq![Difference::Scenarios] } else { Seq::empty() }
        + if e.totals != a.totals { seq![Difference::Totals] } else { Seq::empty() }
        + if !same_entries(named_counts(e.scenario_totals@), named_counts(a.scenario_totals@)) { seq![Difference::ScenarioTotals] } else { Seq::empty() }
        + if strs(e.excluded_bundles@) != strs(a.excluded_bundles@) { seq![Difference::ExcludedBundles] } else { Seq::empty() };
    head + bundle_differences(e.bundles@, a.bundles@, e.bundles@.len() as int)
}

/// One of the names is `y`.
pub open spec fn names_has(v: Seq<String>, y: Seq<char>) -> bool {
    exists|q: int| 0 <= q < v.len() && (#[trigger] v[q])@ == y
}

/// Names in ascending order, each once.
pub open spec fn ascending(v: Seq<String>) -> bool {
    forall|i: int, j: int| 0 <= i < j < v.len() ==> name_less((#[trigger] v[i])@, (#[trigger] v[j])@)
}

/// Adds `x` to ascending names unless it is there.
fn insert_name(v: &mut Vec<String>, x: String)
    requires
        ascending(old(v)@),
    ensures
        ascending(final(v)@),
        forall|y: Seq<char>| #[trigger] names_has(final(v)@, y) <==> (y == x@ || names_has(old(v)@, y)),
{
    let xs = chars_of(x.as_str());
    let mut pos: usize = 0;
    let mut found = false;
    while pos < v.len() && !found
        invariant
            pos <= v@.len(),
            xs@ == x@,
            ascending(v@),
            v@ == old(v)@,
            forall|q: int| 0 <= q < pos ==> name_less((#[trigger] v@[q])@, x@),
            found ==> pos < v@.len() && !name_less(v@[pos as int]@, x@),
        decreases v@.len() - pos + if found { 0int } else { 1int },
    {
        if crate::summary::chars_less(&chars_of(v[pos].as_str()), &xs) {
            pos = pos + 1;
        } else {
            found = true;
        }
    }
    if pos < v.len() && str_eq(v[pos].as_str(), x.as_str()) {
        return;
    }
    let ghost before = v@;
    proof {
        if pos < before.len() {
            crate::summary::lemma_name_less_total(before[pos as int]@, x@);
        }
    }
    v.insert(pos, x);
    proof {
        assert forall|i: int, j: int| 0 <= i < j < v@.len() implies name_less((#[trigger] v@[i])@, (#[trigger] v@[j])@) by {
            if j < pos {
                assert(v@[i] == before[i] && v@[j] == before[j]);
            } else if j == pos {
                assert(v@[i] == before[i]);
            } else if i == pos {
                assert(v@[j] == before[j - 1]);
                if j - 1 > pos {
                    crate::summary::lemma_name_less_transitive(x@, before[pos as int]@, before[j - 1]@);
                }
            } else if i < pos {
                assert(v@[i] == before[i] && v@[j] == before[j - 1]);
            } else {
                assert(v@[i] == before[i - 1] && v@[j] == before[j - 1]);
            }
        }
        assert forall|y: Seq<char>| #[trigger] names_has(v@, y) <==> (y == x@ || names_has(before, y)) by {
            if exists|q: int| 0 <= q < v@.len() && (#[trigger] v@[q])@ == y {
                let q = choose|q: int| 0 <= q < v@.len() && (#[trigger] v@[q])@ == y;
                if q < pos {
                    assert(v@[q] == before[q]);
                } else if q > pos {
                    assert(v@[q] == before[q - 1]);
                }
            }
            if exists|q: int| 0 <= q < before.len() && (#[trigger] before[q])@ == y {
                let q = choose|q: int| 0 <= q < before.len() && (#[trigger] before[q])@ == y;
                if q < pos {
                    assert(v@[q] == before[q]);
                } else {
                    assert(v@[q + 1] == before[q]);
                }
            }
            if y == x@ {
                assert(v@[pos as int]@ == x@);
            }
        }
    }
}

fn same_strings(a: &Vec<String>, b: &Vec<String>) -> (r: bool)
    ensures
        r == (strs(a@) == strs(b@)),
{
    if a.len() != b.len() {
        proof {
            assert(strs(a@).len() != strs(b@).len());
        }
        return false;
    }
    for i in 0..a.len()
        invariant
            a@.len() == b@.len(),
            forall|j: int| 0 <= j < i ==> a@[j]@ == b@[j]@,
    {
        if !str_eq(a[i].as_str(), b[i].as_str()) {
            proof {
                assert(strs(a@)[i as int] != strs(b@)[i as int]);
            }
            return false;
        }
    }
    proof {
        assert(strs(a@) =~= strs(b@));
    }
    true
}

fn same_opt(a: &Option<String>, b: &Option<String>) -> (r: bool)
    ensures
        r == (opt_str(*a) == opt_str(*b)),
{
    match (a, b) {
        (Some(x), Some(y)) => str_eq(x.as_str(), y.as_str()),
        (None, None) => true,
        _ => false,
    }
}

fn same_counts_map(a: &Vec<(String, Counts)>, b: &Vec<(String, Counts)>) -> (r: bool)
    ensures
        r == same_entries(named_counts(a@), named_counts(b@)),
{
    let ghost av = named_counts(a@);
    let ghost bv = named_counts(b@);
    for i in 0..a.len()
        invariant
            av == named_counts(a@),
            bv == named_counts(b@),
            forall|q: int| 0 <= q < i ==> lookup(av, #[trigger] a@[q].0@) == lookup(bv, a@[q].0@),
    {
        let ia = match last_key(a, a[i].0.as_str()) {
            Some(x) => x,
            None => {
                proof {
                    assert(a@[i as int].0@ != a@[i as int].0@);
                }
                return false;
            },
        };
        proof {
            assert forall|j: int| ia < j < av.len() implies (#[trigger] av[j]).0 != a@[i as int].0@ by {
                assert(av[j].0 == a@[j].0@);
            }
            lemma_lookup_last(av, a@[i as int].0@, ia as int);
        }
        match last_key(b, a[i].0.as_str()) {
            None => {
                proof {
                    assert forall|j: int| 0 <= j < bv.len() implies (#[trigger] bv[j]).0 != a@[i as int].0@ by {
                        assert(bv[j].0 == b@[j].0@);
                    }
                    lemma_lookup_none(bv, a@[i as int].0@);
                }
                return false;
            },
            Some(ib) => {
                proof {
                    assert forall|j: int| ib < j < bv.len() implies (#[trigger] bv[j]).0 != a@[i as int].0@ by {
                        assert(bv[j].0 == b@[j].0@);
                    }
                    lemma_lookup_last(bv, a@[i as int].0@, ib as int);
                }
                if a[ia].1 != b[ib].1 {
                    return false;
                }
            },
        }
    }
    for j in 0..b.len()
        invariant
            av == named_counts(a@),
            bv == named_counts(b@),
            forall|q: int| 0 <= q < a@.len() ==> lookup(av, #[trigger] a@[q].0@) == lookup(bv, a@[q].0@),
            forall|q: int| 0 <= q < j ==> lookup(av, (#[trigger] b@[q]).0@) is Some,
    {
        match last_key(a, b[j].0.as_str()) {
            None => {
                proof {
                    assert forall|q: int| 0 <= q < av.len() implies (#[trigger] av[q]).0 != b@[j as int].0@ by {
                        assert(av[q].0 == a@[q].0@);
                    }
                    lemma_lookup_none(av, b@[j as int].0@);
                    lemma_lookup_found(bv, b@[j as int].0@);
                    assert(bv[j as int].0 == b@[j as int].0@);
                }
                return false;
            },
            Some(x) => {
                proof {
                    lemma_lookup_found(av, b@[j as int].0@);
                    assert(av[x as int].0 == b@[j as int].0@);
                }
            },
        }
    }
    proof {
        assert forall|k: Seq<char>| #[trigger] lookup(av, k) == lookup(bv, k) by {
            lemma_lookup_found(av, k);
            lemma_lookup_found(bv, k);
            if lookup(bv, k) is Some {
                let q = choose|q: int| 0 <= q < bv.len() && (#[trigger] bv[q]).0 == k;
                assert(bv[q].0 == b@[q].0@);
                assert(lookup(av, b@[q].0@) is Some);
            }
            if lookup(av, k) is Some {
                let q = choose|q: int| 0 <= q < av.len() && (#[trigger] av[q]).0 == k;
                assert(av[q].0 == a@[q].0@);
                assert(lookup(av, a@[q].0@) == lookup(bv, a@[q].0@));
            }
        }
    }
    true
}

fn same_digest_map(a: &Vec<(String, String)>, b: &Vec<(String, String)>) -> (r: bool)
    ensures
        r == same_entries(pairs(a@), pairs(b@)),
{
    let ghost av = pairs(a@);
    let ghost bv = pairs(b@);
    for i in 0..a.len()
        invariant
            av == pairs(a@),
            bv == pairs(b@),
            forall|q: int| 0 <= q < i ==> lookup(av, #[trigger] a@[q].0@) == lookup(bv, a@[q].0@),
    {
        let ia = match last_key(a, a[i].0.as_str()) {
            Some(x) => x,
            None => {
                proof {
                    assert(a@[i as int].0@ != a@[i as int].0@);
                }
                return false;
            },
        };
        proof {
            assert forall|j: int| ia < j < av.len() implies (#[trigger] av[j]).0 != a@[i as int].0@ by {
                assert(av[j].0 == a@[j].0@);
            }
            lemma_lookup_last(av, a@[i as int].0@, ia as int);
        }
        match last_key(b, a[i].0.as_str()) {
            None => {
                proof {
                    assert forall|j: int| 0 <= j < bv.len() implies (#[trigger] bv[j]).0 != a@[i as int].0@ by {
                        assert(bv[j].0 == b@[j].0@);
                    }
                    lemma_lookup_none(bv, a@[i as int].0@);
                }
                return false;
            },
            Some(ib) => {
                proof {
                    assert forall|j: int| ib < j < bv.len() implies (#[trigger] bv[j]).0 != a@[i as int].0@ by {
                        assert(bv[j].0 == b@[j].0@);
                    }
                    lemma_lookup_last(bv, a@[i as int].0@, ib as int);
                }
                if !str_eq(a[ia].1.as_str(), b[ib].1.as_str()) {
                    return false;
                }
            },
        }
    }
    for j in 0..b.len()
        invariant
            av == pairs(a@),
            bv == pairs(b@),
            forall|q: int| 0 <= q < a@.len() ==> lookup(av, #[trigger] a@[q].0@) == lookup(bv, a@[q].0@),
            forall|q: int| 0 <= q < j ==> lookup(av, (#[trigger] b@[q]).0@) is Some,
    {
        match last_key(a, b[j].0.as_str()) {
            None => {
                proof {
                    assert forall|q: int| 0 <= q < av.len() implies (#[trigger] av[q]).0 != b@[j as int].0@ by {
                        assert(av[q].0 == a@[q].0@);
                    }
                    lemma_lookup_none(av, b@[j as int].0@);
                    lemma_lookup_found(bv, b@[j as int].0@);
                    assert(bv[j as int].0 == b@[j as int].0@);
                }
                return false;
            },
            Some(x) => {
                proof {
                    lemma_lookup_found(av, b@[j as int].0@);
                    assert(av[x as int].0 == b@[j as int].0@);
                }
            },
        }
    }
    proof {
        assert forall|k: Seq<char>| #[trigger] lookup(av, k) == lookup(bv, k) by {
            lemma_lookup_found(av, k);
            lemma_lookup_found(bv, k);
            if lookup(bv, k) is Some {
                let q = choose|q: int| 0 <= q < bv.len() && (#[trigger] bv[q]).0 == k;
                assert(bv[q].0 == b@[q].0@);
                assert(lookup(av, b@[q].0@) is Some);
            }
            if lookup(av, k) is Some {
                let q = choose|q: int| 0 <= q < av.len() && (#[trigger] av[q]).0 == k;
                assert(av[q].0 == a@[q].0@);
                assert(lookup(av, a@[q].0@) == lookup(bv, a@[q].0@));
            }
        }
    }
    true
}

fn spans_agree(a: &ExpectedBundle, b: &ExpectedBundle) -> (r: bool)
    ensures
        r == spans_same(*a, *b),
{
    str_eq(a.spans_sha256.as_str(), b.spans_sha256.as_str()) && same_digest_map(&a.scenario_spans_sha256, &b.scenario_spans_sha256)
}

fn bundles_agree(a: &ExpectedBundle, b: &ExpectedBundle) -> (r: bool)
    ensures
        r == bundle_same(*a, *b),
{
    str_eq(a.path.as_str(), b.path.as_str()) && str_eq(a.sha256.as_str(), b.sha256.as_str()) && same_opt(
        &a.source_map_sha256,
        &b.source_map_sha256,
    ) && same_strings(&a.verification, &b.verification) && a.counts == b.counts && spans_agree(a, b)
}

fn find_bundle(v: &Vec<ExpectedBundle>, path: &str) -> (r: Option<usize>)
    ensures
        match r {
            Some(i) => i < v@.len() && bundle_at(v@, path@) == Some(v@[i as int]),
            None => bundle_at(v@, path@) is None,
        },
{
    let mut i: usize = v.len();
    proof {
        assert(v@.take(v@.len() as int) =~= v@);
    }
    while i > 0
        invariant
            i <= v@.len(),
            bundle_at(v@, path@) == bundle_at(v@.take(i as int), path@),
        decreases i,
    {
        let ghost upto = v@.take(i as int);
        proof {
            assert(upto.drop_last() =~= v@.take(i - 1));
            assert(upto.last() == v@[i - 1]);
        }
        if str_eq(v[i - 1].path.as_str(), path) {
            return Some(i - 1);
        }
        i = i - 1;
    }
    None
}

impl Expected {
    /// Where a replay differs from these results; empty when it reproduced
    /// them. Bundles only the replay has come last, by path.
    pub fn differences(&self, actual: &Expected) -> (r: Vec<Difference>)
        ensures
            r@.len() >= head_differences(*self, *actual).len(),
            r@.take(head_differences(*self, *actual).len() as int) == head_differences(*self, *actual),
            replay_only_listed(self.bundles@, actual.bundles@, r@.skip(head_differences(*self, *actual).len() as int)),
    {
        let mut out: Vec<Difference> = Vec::new();
        if !same_strings(&self.scenarios, &actual.scenarios) {
            out.push(Difference::Scenarios);
        }
        if self.totals != actual.totals {
            out.push(Difference::Totals);
        }
        if !same_counts_map(&self.scenario_totals, &actual.scenario_totals) {
            out.push(Difference::ScenarioTotals);
        }
        if !same_strings(&self.excluded_bundles, &actual.excluded_bundles) {
            out.push(Difference::ExcludedBundles);
        }
        let ghost head = out@;
        proof {
            assert(head + bundle_differences(self.bundles@, actual.bundles@, 0) =~= head);
        }
        for i in 0..self.bundles.len()
            invariant
                out@ == head + bundle_differences(self.bundles@, actual.bundles@, i as int),
        {
            let b = &self.bundles[i];
            let ghost before = out@;
            match find_bundle(&actual.bundles, b.path.as_str()) {
                None => out.push(Difference::BundleMissing(b.path.clone())),
                Some(j) => {
                    if !bundles_agree(b, &actual.bundles[j]) {
                        out.push(Difference::BundleDiffers(b.path.clone(), !spans_agree(b, &actual.bundles[j])));
                    }
                },
            }
            proof {
                assert(out@ =~= head + bundle_differences(self.bundles@, actual.bundles@, i + 1));
            }
        }
        let ghost middle = out@;
        let ghost ev = self.bundles@;
        let ghost av = actual.bundles@;
        let mut extra: Vec<String> = Vec::new();
        for i in 0..actual.bundles.len()
            invariant
                ev == self.bundles@,
                av == actual.bundles@,
                ascending(extra@),
                forall|q: int| 0 <= q < extra@.len() ==> replay_only(ev, av, (#[trigger] extra@[q])@),
                forall|j: int|
                    0 <= j < i && bundle_at(ev, (#[trigger] av[j]).path@) is None ==> exists|q: int|
                        0 <= q < extra@.len() && (#[trigger] extra@[q])@ == av[j].path@,
        {
            if find_bundle(&self.bundles, actual.bundles[i].path.as_str()).is_none() {
                let ghost before = extra@;
                let name = actual.bundles[i].path.clone();
                assert(name@ == av[i as int].path@);
                insert_name(&mut extra, name);
                proof {
                    assert(replay_only(ev, av, av[i as int].path@));
                    assert forall|q: int| 0 <= q < extra@.len() implies replay_only(ev, av, (#[trigger] extra@[q])@) by {
                        let y = extra@[q]@;
                        assert(names_has(extra@, y));
                        if y != av[i as int].path@ {
                            assert(names_has(before, y));
                            let q2 = choose|q2: int| 0 <= q2 < before.len() && (#[trigger] before[q2])@ == y;
                            assert(replay_only(ev, av, before[q2]@));
                        }
                    }
                    assert forall|j: int|
                        0 <= j < i + 1 && bundle_at(ev, (#[trigger] av[j]).path@) is None implies exists|q: int|
                            0 <= q < extra@.len() && (#[trigger] extra@[q])@ == av[j].path@ by {
                        if j < i {
                            let q = choose|q: int| 0 <= q < before.len() && (#[trigger] before[q])@ == av[j].path@;
                            assert(names_has(before, av[j].path@));
                        } else {
                            assert(names_has(extra@, name@));
                        }
                        assert(names_has(extra@, av[j].path@));
                    }
                }
            }
        }
        let ghost listed = extra@;
        for q in 0..extra.len()
            invariant
                extra@ == listed,
                out@.len() == middle.len() + q,
                out@.take(middle.len() as int) == middle,
                forall|t: int| 0 <= t < q ==> out@[middle.len() + t] == Difference::BundleOnlyInReplay(#[trigger] listed[t]),
        {
            out.push(Difference::BundleOnlyInReplay(extra[q].clone()));
            proof {
                assert(out@.take(middle.len() as int) =~= middle);
            }
        }
        proof {
            let tail = out@.skip(middle.len() as int);
            assert(out@.take(middle.len() as int) =~= middle);
            assert(tail.len() == listed.len());
            assert forall|t: int| 0 <= t < tail.len() implies (#[trigger] tail[t]) is BundleOnlyInReplay && only_path(tail[t]) == listed[t]@ by {
                assert(tail[t] == out@[middle.len() + t]);
                assert(out@[middle.len() + t] == Difference::BundleOnlyInReplay(listed[t]));
            }
            assert forall|p: Seq<char>| #[trigger] replay_only(ev, av, p) implies exists|t: int| 0 <= t < tail.len() && only_path(#[trigger] tail[t]) == p by {
                let j = choose|j: int| 0 <= j < av.len() && #[trigger] av[j].path@ == p;
                let q = choose|q: int| 0 <= q < listed.len() && (#[trigger] listed[q])@ == av[j].path@;
                assert(only_path(tail[q]) == p);
            }
            assert forall|t: int, u: int| 0 <= t < u < tail.len() implies name_less(only_path(#[trigger] tail[t]), only_path(#[trigger] tail[u])) by {
                assert(only_path(tail[t]) == listed[t]@);
                assert(only_path(tail[u]) == listed[u]@);
            }
            assert forall|t: int| 0 <= t < tail.len() implies (#[trigger] tail[t]) is BundleOnlyInReplay && replay_only(ev, av, only_path(tail[t])) by {
                assert(only_path(tail[t]) == listed[t]@);
            }
        }
        out
    }
}


/// What `serde_json` writes for these span rows (start, end, source, status).
pub uninterp spec fn span_rows_json(rows: Seq<(usize, usize, Seq<char>, Seq<char>)>) -> Seq<u8>;

pub open spec fn rows_view(rows: Seq<(usize, usize, String, String)>) -> Seq<(usize, usize, Seq<char>, Seq<char>)> {
    rows.map_values(|r: (usize, usize, String, String)| (r.0, r.1, r.2@, r.3@))
}

/// `serde_json::to_vec` of plain rows: named, a function of the rows.
#[verifier::external_body]
fn rows_json(rows: &Vec<(usize, usize, String, String)>) -> (r: Vec<u8>)
    ensures
        r@ == span_rows_json(rows_view(rows@)),
{
    serde_json::to_vec(rows).unwrap_or_default()
}

/// Why evidence could not be produced or used.
#[derive(Debug, Clone, PartialEq, Eq)]
pub enum EvidenceError {
    /// Evidence requires a detailed report.
    NotDetailed,
    /// A path outside the evidence tree.
    OutsideTree(String),
}

pub open spec fn status_name(s: Status) -> Seq<char> {
    match s {
        Status::Observed => "observed"@,
        Status::Unobserved => "unobserved"@,
        Status::Unmeasured => "unmeasured"@,
    }
}

/// The span rows of a bundle: boundaries, source name and status.
pub open spec fn span_rows(bundle: BundleRow) -> Seq<(usize, usize, Seq<char>, Seq<char>)> {
    bundle.spans@.map_values(
        |s: Span| (s.start, s.end, bundle.sources@[s.source as int].source@, status_name(s.status)),
    )
}

/// Every span names one of its bundle's sources.
pub open spec fn spans_indexed(report: Report) -> bool {
    forall|i: int, k: int|
        0 <= i < report.bundles@.len() && 0 <= k < report.bundles@[i].spans@.len() ==> (#[trigger] report.bundles@[i].spans@[k]).source
            < report.bundles@[i].sources@.len()
}

/// `scenario: source/source-map`.
pub open spec fn verification_line(v: crate::input::Verification) -> Seq<char> {
    v.scenario@ + ": "@ + v.source@ + "/"@ + v.source_map@
}

fn status_text(s: Status) -> (r: String)
    ensures
        r@ == status_name(s),
{
    match s {
        Status::Observed => "observed".to_string(),
        Status::Unobserved => "unobserved".to_string(),
        Status::Unmeasured => "unmeasured".to_string(),
    }
}

/// The expected results of one bundle row: its identity and counts, its
/// verification lines, and the digest of its span rows.
pub open spec fn expected_from(r: ExpectedBundle, b: BundleRow) -> bool {
    &&& r.path == b.path
    &&& r.sha256 == b.sha256
    &&& r.source_map_sha256 == b.source_map_sha256
    &&& r.counts == b.counts
    &&& strs(r.verification@) == b.verification@.map_values(|v: crate::input::Verification| verification_line(v))
    &&& r.spans_sha256@ == sha256_hex(span_rows_json(span_rows(b)))
    &&& r.scenario_spans_sha256@.len() == 0
}

fn expected_bundle(b: &BundleRow) -> (r: ExpectedBundle)
    requires
        forall|k: int| 0 <= k < b.spans@.len() ==> (#[trigger] b.spans@[k]).source < b.sources@.len(),
    ensures
        expected_from(r, *b),
{
    let mut verification: Vec<String> = Vec::new();
    for i in 0..b.verification.len()
        invariant
            strs(verification@) == b.verification@.take(i as int).map_values(|v: crate::input::Verification| verification_line(v)),
    {
        let v = &b.verification[i];
        let mut line = chars_of(v.scenario.as_str());
        extend_chars(&mut line, &chars_of(": "));
        extend_chars(&mut line, &chars_of(v.source.as_str()));
        extend_chars(&mut line, &chars_of("/"));
        extend_chars(&mut line, &chars_of(v.source_map.as_str()));
        let ghost before = strs(verification@);
        verification.push(string_of(&line));
        proof {
            assert(strs(verification@) =~= before.push(verification_line(*v)));
            assert(b.verification@.take(i + 1) =~= b.verification@.take(i as int).push(*v));
        }
    }
    proof {
        assert(b.verification@.take(b.verification@.len() as int) =~= b.verification@);
    }
    let mut rows: Vec<(usize, usize, String, String)> = Vec::new();
    for k in 0..b.spans.len()
        invariant
            forall|q: int| 0 <= q < b.spans@.len() ==> (#[trigger] b.spans@[q]).source < b.sources@.len(),
            rows_view(rows@) == span_rows(*b).take(k as int),
    {
        let span = b.spans[k];
        let ghost before = rows_view(rows@);
        rows.push((span.start, span.end, b.sources[span.source].source.clone(), status_text(span.status)));
        proof {
            assert(rows_view(rows@) =~= before.push(span_rows(*b)[k as int]));
            assert(span_rows(*b).take(k + 1) =~= span_rows(*b).take(k as int).push(span_rows(*b)[k as int]));
        }
    }
    proof {
        assert(span_rows(*b).take(b.spans@.len() as int) =~= span_rows(*b));
    }
    let json = rows_json(&rows);
    ExpectedBundle {
        path: b.path.clone(),
        sha256: b.sha256.clone(),
        source_map_sha256: match &b.source_map_sha256 {
            Some(h) => Some(h.clone()),
            None => None,
        },
        verification,
        counts: b.counts,
        spans_sha256: sha256(json.as_slice()),
        scenario_spans_sha256: Vec::new(),
    }
}

impl Expected {
    /// The results of a detailed report: span digests are the evidence of
    /// interval boundaries.
    pub fn from_report(report: &Report) -> (r: Result<Expected, EvidenceError>)
        requires
            spans_indexed(*report),
        ensures
            !report.details ==> r == Err::<Expected, EvidenceError>(EvidenceError::NotDetailed),
            report.details ==> r is Ok,
            r matches Ok(e) ==> {
                &&& report.details
                &&& strs(e.scenarios@) == strs(report.scenarios@)
                &&& e.totals == report.totals
                &&& strs(e.excluded_bundles@) == strs(report.excluded_bundles@)
                &&& named_counts(e.scenario_totals@) == report.scenario_reports@.map_values(
                    |s: crate::scenario::ScenarioReport| (s.scenario@, s.totals),
                )
                &&& e.bundles@.len() == report.bundles@.len()
                &&& forall|i: int| 0 <= i < e.bundles@.len() ==> expected_from(#[trigger] e.bundles@[i], report.bundles@[i])
            },
    {
        if !report.details {
            return Err(EvidenceError::NotDetailed);
        }
        let scenarios = crate::annotations::copy_strings(&report.scenarios);
        let excluded = crate::annotations::copy_strings(&report.excluded_bundles);
        let mut scenario_totals: Vec<(String, Counts)> = Vec::new();
        for i in 0..report.scenario_reports.len()
            invariant
                named_counts(scenario_totals@) == report.scenario_reports@.take(i as int).map_values(
                    |s: crate::scenario::ScenarioReport| (s.scenario@, s.totals),
                ),
        {
            let s = &report.scenario_reports[i];
            let ghost before = named_counts(scenario_totals@);
            scenario_totals.push((s.scenario.clone(), s.totals));
            proof {
                assert(named_counts(scenario_totals@) =~= before.push((s.scenario@, s.totals)));
                assert(report.scenario_reports@.take(i + 1) =~= report.scenario_reports@.take(i as int).push(*s));
            }
        }
        proof {
            assert(report.scenario_reports@.take(report.scenario_reports@.len() as int) =~= report.scenario_reports@);
        }
        let mut bundles: Vec<ExpectedBundle> = Vec::new();
        for i in 0..report.bundles.len()
            invariant
                spans_indexed(*report),
                bundles@.len() == i,
                forall|q: int| 0 <= q < i ==> expected_from(#[trigger] bundles@[q], report.bundles@[q]),
        {
            proof {
                assert forall|k: int| 0 <= k < report.bundles@[i as int].spans@.len() implies (#[trigger] report.bundles@[i as int].spans@[k]).source
                    < report.bundles@[i as int].sources@.len() by {
                }
            }
            bundles.push(expected_bundle(&report.bundles[i]));
        }
        proof {
            assert(strs(scenarios@) == crate::annotations::strs(scenarios@));
        }
        Ok(Expected {
            scenarios,
            totals: report.totals,
            scenario_totals,
            excluded_bundles: excluded,
            bundles,
        })
    }
}

/// Where copies of the inputs go: located files keep their layout below
/// the common ancestor of the located paths.
#[derive(Debug)]
pub struct Writer {
    pub out: String,
    pub ancestor: String,
    pub files: Vec<(String, FileEntry)>,
    pub inputs: usize,
}

/// The evidence-relative path of a located path: `tree` and its components below the ancestor.
pub open spec fn tree_path_of(ancestor: Seq<char>, path: Seq<char>) -> Option<Seq<char>> {
    match crate::input::under_root(ancestor, path) {
        Some(rel) => Some(if rel.len() == 0 { "tree"@ } else { "tree/"@ + rel }),
        None => None,
    }
}

impl Writer {
    /// The evidence-relative path of a located path.
    pub fn tree_path(&self, path: &str) -> (r: Result<String, EvidenceError>)
        ensures
            match r {
                Ok(p) => tree_path_of(self.ancestor@, path@) == Some(p@),
                Err(e) => tree_path_of(self.ancestor@, path@) is None && (e matches EvidenceError::OutsideTree(p) && p@ == path@),
            },
    {
        match crate::input::under_root_exec(&chars_of(self.ancestor.as_str()), &chars_of(path)) {
            None => Err(EvidenceError::OutsideTree(path.to_string())),
            Some(rel) => {
                if rel.len() == 0 {
                    Ok("tree".to_string())
                } else {
                    let mut out = chars_of("tree/");
                    extend_chars(&mut out, &rel);
                    Ok(string_of(&out))
                }
            },
        }
    }
}

} // verus!
