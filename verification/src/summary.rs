//! Rows over all bundles: counts merged by name and ordered by size.
use vstd::prelude::*;

use crate::analysis::{Counts, PackageRow, SourceRow, Tally, plus, tally_of, zero_tally};
use crate::attribution::{package, package_name};
use crate::strings::{chars_of, same_chars};
use crate::accounting::{
    first_names, lemma_first_names_contains, lemma_first_names_distinct, lemma_first_names_step, position_of, string_views,
};

verus! {

/// Code-point order on character sequences, as `str`'s `Ord` orders UTF-8 text.
pub open spec fn name_less(a: Seq<char>, b: Seq<char>) -> bool
    decreases a.len(),
{
    if a.len() == 0 {
        b.len() > 0
    } else if b.len() == 0 {
        false
    } else if a[0] < b[0] {
        true
    } else if a[0] > b[0] {
        false
    } else {
        name_less(a.drop_first(), b.drop_first())
    }
}

pub proof fn lemma_name_less_transitive(a: Seq<char>, b: Seq<char>, c: Seq<char>)
    requires
        name_less(a, b),
        name_less(b, c),
    ensures
        name_less(a, c),
    decreases a.len(),
{
    if a.len() > 0 && b.len() > 0 && c.len() > 0 && a[0] == b[0] && b[0] == c[0] {
        lemma_name_less_transitive(a.drop_first(), b.drop_first(), c.drop_first());
    }
}

pub proof fn lemma_name_less_irreflexive(a: Seq<char>)
    ensures
        !name_less(a, a),
    decreases a.len(),
{
    if a.len() > 0 {
        lemma_name_less_irreflexive(a.drop_first());
    }
}

/// Any two names are equal or ordered one way.
pub proof fn lemma_name_less_total(a: Seq<char>, b: Seq<char>)
    ensures
        a == b || name_less(a, b) || name_less(b, a),
    decreases a.len(),
{
    if a.len() == 0 && b.len() == 0 {
        assert(a =~= b);
    } else if a.len() > 0 && b.len() > 0 && a[0] == b[0] {
        lemma_name_less_total(a.drop_first(), b.drop_first());
        if a.drop_first() == b.drop_first() {
            assert(a.len() == b.len());
            assert(a =~= b) by {
                assert forall|i: int| 0 <= i < a.len() implies a[i] == b[i] by {
                    if i > 0 {
                        assert(a[i] == a.drop_first()[i - 1]);
                        assert(b[i] == b.drop_first()[i - 1]);
                    }
                }
            }
        }
    }
}

/// Whether `a` comes before `b` in code-point order.
pub fn chars_less(a: &Vec<char>, b: &Vec<char>) -> (r: bool)
    ensures
        r == name_less(a@, b@),
{
    let mut i: usize = 0;
    proof {
        assert(a@.subrange(0, a@.len() as int) =~= a@);
        assert(b@.subrange(0, b@.len() as int) =~= b@);
    }
    while i < a.len() && i < b.len() && a[i] == b[i]
        invariant
            i <= a@.len(),
            i <= b@.len(),
            name_less(a@, b@) == name_less(a@.subrange(i as int, a@.len() as int), b@.subrange(i as int, b@.len() as int)),
        decreases a@.len() - i,
    {
        proof {
            let sa = a@.subrange(i as int, a@.len() as int);
            let sb = b@.subrange(i as int, b@.len() as int);
            assert(sa.drop_first() =~= a@.subrange(i + 1, a@.len() as int));
            assert(sb.drop_first() =~= b@.subrange(i + 1, b@.len() as int));
            assert(sa[0] == sb[0]);
        }
        i = i + 1;
    }
    proof {
        let sa = a@.subrange(i as int, a@.len() as int);
        let sb = b@.subrange(i as int, b@.len() as int);
        if i < a.len() && i < b.len() {
            assert(sa[0] == a@[i as int] && sb[0] == b@[i as int]);
        }
    }
    if i == a.len() {
        i < b.len()
    } else if i == b.len() {
        false
    } else {
        a[i] < b[i]
    }
}

/// Rows by size, largest first; equal sizes by name.
pub open spec fn row_before(a: (Seq<char>, Tally), b: (Seq<char>, Tally)) -> bool {
    a.1.bytes > b.1.bytes || (a.1.bytes == b.1.bytes && name_less(a.0, b.0))
}

/// Rows by size, largest first; with `second`, equal sizes by the observed
/// count, largest first; then by name.
pub open spec fn rank_before(second: bool, a: (Seq<char>, Tally), b: (Seq<char>, Tally)) -> bool {
    if second {
        a.1.bytes > b.1.bytes || (a.1.bytes == b.1.bytes && (a.1.observed > b.1.observed || (a.1.observed
            == b.1.observed && name_less(a.0, b.0))))
    } else {
        row_before(a, b)
    }
}

proof fn lemma_rank_before_transitive(second: bool, a: (Seq<char>, Tally), b: (Seq<char>, Tally), c: (Seq<char>, Tally))
    requires
        rank_before(second, a, b),
        rank_before(second, b, c),
    ensures
        rank_before(second, a, c),
{
    if a.1.bytes == b.1.bytes && b.1.bytes == c.1.bytes {
        if !second || (a.1.observed == b.1.observed && b.1.observed == c.1.observed) {
            if name_less(a.0, b.0) && name_less(b.0, c.0) {
                lemma_name_less_transitive(a.0, b.0, c.0);
            }
        }
    }
}

/// Named counts as contracts see them.
pub open spec fn pair_view(p: (String, Counts)) -> (Seq<char>, Tally) {
    (p.0@, tally_of(p.1))
}

pub open spec fn pairs_view(v: Seq<(String, Counts)>) -> Seq<(Seq<char>, Tally)> {
    v.map_values(|p: (String, Counts)| pair_view(p))
}

/// No row comes after one that should follow it.
pub open spec fn ordered(v: Seq<(Seq<char>, Tally)>) -> bool {
    ordered_by(false, v)
}

/// No row comes after one that should follow it, in the order `rank_before(second, ..)`.
pub open spec fn ordered_by(second: bool, v: Seq<(Seq<char>, Tally)>) -> bool {
    forall|i: int, j: int| 0 <= i < j < v.len() ==> !rank_before(second, #[trigger] v[j], #[trigger] v[i])
}

fn pair_before(second: bool, a: &(String, Counts), b: &(String, Counts)) -> (r: bool)
    ensures
        r == rank_before(second, pair_view(*a), pair_view(*b)),
{
    if a.1.bytes != b.1.bytes {
        return a.1.bytes > b.1.bytes;
    }
    if second && a.1.observed_bytes != b.1.observed_bytes {
        return a.1.observed_bytes > b.1.observed_bytes;
    }
    chars_less(&chars_of(a.0.as_str()), &chars_of(b.0.as_str()))
}

/// Orders named counts: largest first, equal sizes by name.
pub fn sort_rows(rows: Vec<(String, Counts)>) -> (r: Vec<(String, Counts)>)
    ensures
        pairs_view(r@).to_multiset() == pairs_view(rows@).to_multiset(),
        ordered(pairs_view(r@)),
{
    sort_rows_by(rows, false)
}

/// Orders named counts by `rank_before(second, ..)`.
pub fn sort_rows_by(rows: Vec<(String, Counts)>, second: bool) -> (r: Vec<(String, Counts)>)
    ensures
        pairs_view(r@).to_multiset() == pairs_view(rows@).to_multiset(),
        ordered_by(second, pairs_view(r@)),
{
    broadcast use vstd::seq_lib::group_to_multiset_ensures;

    let mut rest = rows;
    let mut out: Vec<(String, Counts)> = Vec::new();
    let ghost all = pairs_view(rows@);
    proof {
        assert(pairs_view(out@) =~= Seq::<(Seq<char>, Tally)>::empty());
        assert(pairs_view(out@) + pairs_view(rest@) =~= all);
    }
    while rest.len() > 0
        invariant
            (pairs_view(out@) + pairs_view(rest@)).to_multiset() == all.to_multiset(),
            ordered_by(second, pairs_view(out@)),
            forall|i: int, j: int|
                0 <= i < out@.len() && 0 <= j < rest@.len() ==> !rank_before(second, 
                    #[trigger] pairs_view(rest@)[j],
                    #[trigger] pairs_view(out@)[i],
                ),
        decreases rest@.len(),
    {
        let ghost rv = pairs_view(rest@);
        let mut best: usize = 0;
        let mut k: usize = 1;
        proof {
            lemma_name_less_irreflexive(rv[0].0);
            assert(!rank_before(second, rv[0], rv[0]));
        }
        while k < rest.len()
            invariant
                rv == pairs_view(rest@),
                rest@.len() > 0,
                best < k <= rest@.len(),
                forall|j: int| 0 <= j < k ==> !rank_before(second, #[trigger] rv[j], rv[best as int]),
            decreases rest@.len() - k,
        {
            if pair_before(second, &rest[k], &rest[best]) {
                proof {
                    assert forall|j: int| 0 <= j < k implies !rank_before(second, #[trigger] rv[j], rv[k as int]) by {
                        if rank_before(second, rv[j], rv[k as int]) {
                            lemma_rank_before_transitive(second, rv[j], rv[k as int], rv[best as int]);
                        }
                    }
                    lemma_name_less_irreflexive(rv[k as int].0);
                }
                best = k;
            }
            k = k + 1;
        }
        let ghost ov = pairs_view(out@);
        let row = rest.remove(best);
        proof {
            assert(pairs_view(rest@) =~= rv.remove(best as int));
        }
        out.push(row);
        proof {
            assert(pairs_view(out@) =~= ov.push(rv[best as int]));
            let nv = pairs_view(out@);
            assert forall|i: int, j: int| 0 <= i < j < nv.len() implies !rank_before(second, #[trigger] nv[j], #[trigger] nv[i]) by {
                if j == nv.len() - 1 {
                    assert(nv[j] == rv[best as int]);
                    assert(nv[i] == ov[i]);
                } else {
                    assert(nv[j] == ov[j] && nv[i] == ov[i]);
                }
            }
            assert forall|i: int, j: int|
                0 <= i < out@.len() && 0 <= j < rest@.len() implies !rank_before(second, 
                    #[trigger] pairs_view(rest@)[j],
                    #[trigger] pairs_view(out@)[i],
                ) by {
                let jj = if j < best { j } else { j + 1 };
                assert(pairs_view(rest@)[j] == rv[jj]);
                if i < ov.len() {
                    assert(pairs_view(out@)[i] == ov[i]);
                } else {
                    assert(pairs_view(out@)[i] == rv[best as int]);
                }
            }
            let x = rv[best as int];
            let base = ov + rv.remove(best as int);
            assert(ov + rv =~= base.insert(ov.len() + best, x));
            assert(ov.push(x) + rv.remove(best as int) =~= base.insert(ov.len() as int, x));
            vstd::seq_lib::to_multiset_insert(base, ov.len() + best, x);
            vstd::seq_lib::to_multiset_insert(base, ov.len() as int, x);
            assert(pairs_view(out@) + pairs_view(rest@) =~= ov.push(x) + rv.remove(best as int));
        }
    }
    proof {
        assert(pairs_view(out@) + pairs_view(rest@) =~= pairs_view(out@));
    }
    out
}


/// The counts of all rows named `name`.
pub open spec fn name_total(v: Seq<(Seq<char>, Tally)>, name: Seq<char>) -> Tally
    decreases v.len(),
{
    if v.len() == 0 {
        zero_tally()
    } else if v.last().0 == name {
        plus(name_total(v.drop_last(), name), v.last().1)
    } else {
        name_total(v.drop_last(), name)
    }
}

/// The counts of all rows.
pub open spec fn grand_total(v: Seq<(Seq<char>, Tally)>) -> Tally
    decreases v.len(),
{
    if v.len() == 0 {
        zero_tally()
    } else {
        plus(grand_total(v.drop_last()), v.last().1)
    }
}

pub open spec fn names_of(v: Seq<(Seq<char>, Tally)>) -> Seq<Seq<char>> {
    v.map_values(|p: (Seq<char>, Tally)| p.0)
}

/// Each distinct name once, in order of first appearance, with its total.
pub open spec fn merged_rows(v: Seq<(Seq<char>, Tally)>) -> Seq<(Seq<char>, Tally)> {
    first_names(names_of(v)).map_values(|n: Seq<char>| (n, name_total(v, n)))
}

/// Totals fit the counters.
pub open spec fn fits(t: Tally) -> bool {
    0 <= t.bytes <= usize::MAX && 0 <= t.observed <= usize::MAX && 0 <= t.unobserved <= usize::MAX && 0 <= t.unmeasured
        <= usize::MAX
}

proof fn lemma_totals_step(v: Seq<(Seq<char>, Tally)>, name: Seq<char>, k: int)
    requires
        0 <= k < v.len(),
    ensures
        grand_total(v.take(k + 1)) == plus(grand_total(v.take(k)), v[k].1),
        name_total(v.take(k + 1), name) == if v[k].0 == name {
            plus(name_total(v.take(k), name), v[k].1)
        } else {
            name_total(v.take(k), name)
        },
        names_of(v.take(k + 1)) == names_of(v.take(k)).push(v[k].0),
{
    assert(v.take(k + 1).drop_last() =~= v.take(k));
    assert(names_of(v.take(k + 1)) =~= names_of(v.take(k)).push(v[k].0));
}

/// Nonnegative rows: a name's total stays within the grand total, which
/// only grows.
pub proof fn lemma_totals_bounded(v: Seq<(Seq<char>, Tally)>, name: Seq<char>, k: int, m: int)
    requires
        0 <= k <= m <= v.len(),
        forall|i: int| 0 <= i < v.len() ==> #[trigger] fits(v[i].1),
    ensures
        fits(name_total(v.take(k), name)) || !fits(grand_total(v.take(m))),
        name_total(v.take(k), name).bytes <= grand_total(v.take(m)).bytes,
        name_total(v.take(k), name).observed <= grand_total(v.take(m)).observed,
        name_total(v.take(k), name).unobserved <= grand_total(v.take(m)).unobserved,
        name_total(v.take(k), name).unmeasured <= grand_total(v.take(m)).unmeasured,
        name_total(v.take(k), name).bytes >= 0 && name_total(v.take(k), name).observed >= 0
            && name_total(v.take(k), name).unobserved >= 0 && name_total(v.take(k), name).unmeasured >= 0,
        grand_total(v.take(k)).bytes <= grand_total(v.take(m)).bytes,
        grand_total(v.take(k)).observed <= grand_total(v.take(m)).observed,
        grand_total(v.take(k)).unobserved <= grand_total(v.take(m)).unobserved,
        grand_total(v.take(k)).unmeasured <= grand_total(v.take(m)).unmeasured,
    decreases m,
{
    if m > k {
        lemma_totals_bounded(v, name, k, m - 1);
        lemma_totals_step(v, name, m - 1);
        assert(fits(v[m - 1].1));
    } else if k > 0 {
        lemma_totals_bounded(v, name, k - 1, k - 1);
        lemma_totals_step(v, name, k - 1);
        assert(fits(v[k - 1].1));
    } else {
        assert(v.take(0) =~= Seq::<(Seq<char>, Tally)>::empty());
    }
}


proof fn lemma_name_total_absent(v: Seq<(Seq<char>, Tally)>, name: Seq<char>)
    requires
        !names_of(v).contains(name),
    ensures
        name_total(v, name) == zero_tally(),
    decreases v.len(),
{
    if v.len() > 0 {
        assert(names_of(v)[v.len() - 1] == v.last().0);
        assert forall|i: int| 0 <= i < names_of(v.drop_last()).len() implies names_of(v.drop_last())[i] != name by {
            assert(names_of(v.drop_last())[i] == names_of(v)[i]);
        }
        lemma_name_total_absent(v.drop_last(), name);
    }
}

/// Merges rows of equal name, keeping the order in which names first appear.
pub fn merge_by_name(entries: &Vec<(String, Counts)>) -> (r: Vec<(String, Counts)>)
    requires
        fits(grand_total(pairs_view(entries@))),
    ensures
        pairs_view(r@) == merged_rows(pairs_view(entries@)),
{
    let ghost v = pairs_view(entries@);
    let n = entries.len();
    let mut names: Vec<String> = Vec::new();
    let mut totals: Vec<Counts> = Vec::new();
    proof {
        assert(v.take(0) =~= Seq::<(Seq<char>, Tally)>::empty());
        assert(names_of(v.take(0)) =~= Seq::<Seq<char>>::empty());
        assert(string_views(names@) =~= Seq::<Seq<char>>::empty());
        assert forall|i: int| 0 <= i < v.len() implies #[trigger] fits(v[i].1) by {
            assert(v[i] == pair_view(entries@[i]));
        }
    }
    for k in 0..n
        invariant
            n == v.len(),
            v == pairs_view(entries@),
            fits(grand_total(v)),
            forall|i: int| 0 <= i < v.len() ==> #[trigger] fits(v[i].1),
            string_views(names@) == first_names(names_of(v.take(k as int))),
            totals@.len() == names@.len(),
            forall|i: int| 0 <= i < names@.len() ==> tally_of(#[trigger] totals@[i]) == name_total(v.take(k as int), names@[i]@),
    {
        let name = &entries[k].0;
        let row = entries[k].1;
        let ghost nm = name@;
        proof {
            assert(v[k as int] == (nm, tally_of(row)));
            lemma_totals_step(v, nm, k as int);
            lemma_first_names_step(names_of(v), k as int);
            assert(names_of(v).take(k as int) =~= names_of(v.take(k as int)));
            assert(names_of(v).take(k + 1) =~= names_of(v.take(k + 1)));
            assert(names_of(v)[k as int] == nm);
            lemma_totals_bounded(v, nm, k + 1, n as int);
            assert(v.take(n as int) =~= v);
        }
        let id = position_of(&names, name);
        if id == names.len() {
            proof {
                lemma_first_names_contains(names_of(v.take(k as int)), nm);
                lemma_name_total_absent(v.take(k as int), nm);
            }
            names.push(name.clone());
            totals.push(Counts::zero());
            proof {
                assert(string_views(names@) =~= first_names(names_of(v.take(k as int))).push(nm));
            }
        } else {
            proof {
                assert(string_views(names@)[id as int] == nm);
                assert(first_names(names_of(v.take(k as int))).contains(nm));
            }
        }
        let ghost mid = totals@;
        proof {
            assert(string_views(names@) == first_names(names_of(v.take(k + 1))));
            assert(tally_of(mid[id as int]) == name_total(v.take(k as int), nm));
        }
        let mut c = totals[id];
        c.add(&row);
        totals.set(id, c);
        proof {
            lemma_first_names_distinct(names_of(v.take(k + 1)));
            assert forall|i: int| 0 <= i < names@.len() implies tally_of(#[trigger] totals@[i]) == name_total(v.take(k + 1), names@[i]@) by {
                lemma_totals_step(v, names@[i]@, k as int);
                if i != id {
                    assert(string_views(names@)[i] != string_views(names@)[id as int]);
                    assert(totals@[i] == mid[i]);
                    if k as int + 1 > 0 {
                    }
                }
            }
        }
    }
    proof {
        assert(v.take(n as int) =~= v);
    }
    let mut r: Vec<(String, Counts)> = Vec::new();
    for i in 0..names.len()
        invariant
            totals@.len() == names@.len(),
            r@.len() == i,
            forall|j: int| 0 <= j < i ==> #[trigger] pair_view(r@[j]) == (names@[j]@, tally_of(totals@[j])),
    {
        r.push((names[i].clone(), totals[i]));
    }
    proof {
        assert(pairs_view(r@) =~= merged_rows(v));
    }
    r
}


/// Rows renamed to their packages.
pub open spec fn by_package(v: Seq<(Seq<char>, Tally)>) -> Seq<(Seq<char>, Tally)> {
    v.map_values(|p: (Seq<char>, Tally)| (package_name(p.0), p.1))
}

pub open spec fn source_rows_view(v: Seq<SourceRow>) -> Seq<(Seq<char>, Tally)> {
    v.map_values(|r: SourceRow| (r.source@, tally_of(r.counts)))
}

pub open spec fn package_rows_view(v: Seq<PackageRow>) -> Seq<(Seq<char>, Tally)> {
    v.map_values(|r: PackageRow| (r.package@, tally_of(r.counts)))
}

proof fn lemma_grand_total_by_package(v: Seq<(Seq<char>, Tally)>)
    ensures
        grand_total(by_package(v)) == grand_total(v),
    decreases v.len(),
{
    if v.len() > 0 {
        lemma_grand_total_by_package(v.drop_last());
        assert(by_package(v).drop_last() =~= by_package(v.drop_last()));
    }
}

/// One row per source and one per package, each with its bytes over all
/// bundles, largest first and equal sizes by name.
pub fn aggregate_sources(entries: &Vec<(String, Counts)>) -> (r: (Vec<SourceRow>, Vec<PackageRow>))
    requires
        fits(grand_total(pairs_view(entries@))),
    ensures
        source_rows_view(r.0@).to_multiset() == merged_rows(pairs_view(entries@)).to_multiset(),
        ordered(source_rows_view(r.0@)),
        forall|i: int| 0 <= i < r.0@.len() ==> (#[trigger] r.0@[i]).package@ == package_name(r.0@[i].source@),
        package_rows_view(r.1@).to_multiset() == merged_rows(by_package(pairs_view(entries@))).to_multiset(),
        ordered(package_rows_view(r.1@)),
{
    let merged = merge_by_name(entries);
    let sorted = sort_rows(merged);
    let mut sources: Vec<SourceRow> = Vec::new();
    for i in 0..sorted.len()
        invariant
            sources@.len() == i,
            forall|j: int|
                0 <= j < i ==> (#[trigger] sources@[j]).source@ == sorted@[j].0@ && sources@[j].counts == sorted@[j].1
                    && sources@[j].package@ == package_name(sorted@[j].0@),
    {
        sources.push(
            SourceRow {
                source: sorted[i].0.clone(),
                package: package(sorted[i].0.as_str()),
                counts: sorted[i].1,
                label: None,
            },
        );
    }
    proof {
        assert(source_rows_view(sources@) =~= pairs_view(sorted@));
    }
    let mut renamed: Vec<(String, Counts)> = Vec::new();
    for i in 0..entries.len()
        invariant
            renamed@.len() == i,
            forall|j: int| 0 <= j < i ==> #[trigger] pair_view(renamed@[j]) == (package_name(entries@[j].0@), tally_of(entries@[j].1)),
    {
        renamed.push((package(entries[i].0.as_str()), entries[i].1));
    }
    proof {
        assert(pairs_view(renamed@) =~= by_package(pairs_view(entries@)));
        lemma_grand_total_by_package(pairs_view(entries@));
    }
    let packages_merged = merge_by_name(&renamed);
    let packages_sorted = sort_rows(packages_merged);
    let mut packages: Vec<PackageRow> = Vec::new();
    for i in 0..packages_sorted.len()
        invariant
            packages@.len() == i,
            forall|j: int|
                0 <= j < i ==> (#[trigger] packages@[j]).package@ == packages_sorted@[j].0@ && packages@[j].counts
                    == packages_sorted@[j].1,
    {
        packages.push(PackageRow { package: packages_sorted[i].0.clone(), counts: packages_sorted[i].1 });
    }
    proof {
        assert(package_rows_view(packages@) =~= pairs_view(packages_sorted@));
    }
    (sources, packages)
}

} // verus!
