//! esbuild metafiles: each input's bytes in JavaScript outputs and one
//! shortest import path from an entry point.
use vstd::prelude::*;

use crate::graph::ImportStep;
use crate::strings::{chars_of, str_eq};
use crate::analysis::{Counts, Tally};
use crate::summary::{fits, grand_total, merge_by_name, merged_rows, ordered, pair_view, pairs_view, sort_rows};

verus! {

/// An esbuild metafile, as parsed: inputs with their imports (path,
/// external), and outputs with their entry point and input contributions.
#[derive(Debug, Clone)]
pub struct Metafile {
    pub inputs: Vec<(String, Vec<(String, bool)>)>,
    pub outputs: Vec<(String, Option<String>, Vec<(String, usize)>)>,
}

/// How a source is reached from an entry point.
#[derive(Debug, Clone)]
pub struct ImportPath {
    pub source: String,
    /// Source-map identity after binding the build working directory.
    pub resolved_source: Option<String>,
    pub bytes_in_output: usize,
    /// One shortest path in the input graph; not a runtime call graph.
    pub path: Option<Vec<String>>,
    pub graph_format: String,
    pub edges: Vec<ImportStep>,
}


/// Why a metafile was refused.
#[derive(Debug, Clone, Copy, PartialEq, Eq)]
pub enum MetadataError {
    /// The metafile lists no inputs.
    NoInputs,
    /// An input's bytes do not fit a `usize`.
    TooLarge,
}

/// A JavaScript output file.
pub open spec fn javascript_output(path: Seq<char>) -> bool {
    let n = path.len() as int;
    (n >= 3 && path.subrange(n - 3, n) == ".js"@) || (n >= 4 && path.subrange(n - 4, n) == ".mjs"@) || (n >= 4
        && path.subrange(n - 4, n) == ".cjs"@)
}

/// Every (input, bytes) contribution of the JavaScript outputs, in order.
pub open spec fn js_entries(outputs: Seq<(String, Option<String>, Vec<(String, usize)>)>) -> Seq<(Seq<char>, Tally)>
    decreases outputs.len(),
{
    if outputs.len() == 0 {
        Seq::empty()
    } else {
        js_entries(outputs.drop_last()) + if javascript_output(outputs.last().0@) {
            outputs.last().2@.map_values(|p: (String, usize)| (p.0@, Tally { bytes: p.1 as int, observed: 0, unobserved: 0, unmeasured: 0 }))
        } else {
            Seq::empty()
        }
    }
}

/// The imports of the first input record named `name`.
pub open spec fn imports_of(inputs: Seq<(String, Vec<(String, bool)>)>, name: Seq<char>) -> Seq<(String, bool)>
    decreases inputs.len(),
{
    if inputs.len() == 0 {
        Seq::empty()
    } else if inputs[0].0@ == name {
        inputs[0].1@
    } else {
        imports_of(inputs.drop_first(), name)
    }
}

/// `b` is a bundled (non-external) import of `a`.
pub open spec fn imports(meta: Metafile, a: Seq<char>, b: Seq<char>) -> bool {
    exists|k: int| 0 <= k < imports_of(meta.inputs@, a).len() && #[trigger] imports_of(meta.inputs@, a)[k].0@ == b
        && !imports_of(meta.inputs@, a)[k].1
}

/// An entry point of a JavaScript output.
pub open spec fn entry_point(meta: Metafile, name: Seq<char>) -> bool {
    exists|o: int|
        0 <= o < meta.outputs@.len() && javascript_output(meta.outputs@[o].0@) && ((#[trigger] meta.outputs@[o]).1 matches Some(
            e,
        ) && e@ == name)
}

/// A chain of bundled imports from an entry point.
pub open spec fn import_chain(meta: Metafile, path: Seq<Seq<char>>) -> bool {
    &&& path.len() > 0
    &&& entry_point(meta, path[0])
    &&& forall|i: int| 0 <= i < path.len() - 1 ==> imports(meta, #[trigger] path[i], path[i + 1])
}


/// Some chain of bundled imports from an entry point ends at `name`.
pub open spec fn reachable(meta: Metafile, name: Seq<char>) -> bool {
    exists|p: Seq<Seq<char>>| #[trigger] import_chain(meta, p) && p.last() == name
}

/// The import targets of the first `n` input records, in order.
pub open spec fn targets(inputs: Seq<(String, Vec<(String, bool)>)>, n: int) -> Seq<Seq<char>>
    decreases n,
{
    if n <= 0 {
        Seq::empty()
    } else {
        targets(inputs, n - 1) + inputs[n - 1].1@.map_values(|p: (String, bool)| p.0@)
    }
}

proof fn lemma_target_listed(inputs: Seq<(String, Vec<(String, bool)>)>, n: int, r: int, k: int)
    requires
        0 <= r < n <= inputs.len(),
        0 <= k < inputs[r].1@.len(),
    ensures
        targets(inputs, n).contains(inputs[r].1@[k].0@),
    decreases n,
{
    let prev = targets(inputs, n - 1);
    let last = inputs[n - 1].1@.map_values(|p: (String, bool)| p.0@);
    assert(targets(inputs, n) == prev + last);
    if r < n - 1 {
        lemma_target_listed(inputs, n - 1, r, k);
        let i = choose|i: int| 0 <= i < prev.len() && prev[i] == inputs[r].1@[k].0@;
        assert((prev + last)[i] == prev[i]);
    } else {
        assert((prev + last)[prev.len() + k] == last[k]);
    }
}

proof fn lemma_imports_listed(inputs: Seq<(String, Vec<(String, bool)>)>, name: Seq<char>, k: int)
    requires
        0 <= k < imports_of(inputs, name).len(),
    ensures
        targets(inputs, inputs.len() as int).contains(imports_of(inputs, name)[k].0@),
    decreases inputs.len(),
{
    if inputs.len() > 0 {
        if inputs[0].0@ == name {
            lemma_target_listed(inputs, inputs.len() as int, 0, k);
        } else {
            let rest = inputs.drop_first();
            lemma_imports_listed(rest, name, k);
            lemma_targets_shift(inputs, rest.len() as int);
            let t = targets(rest, rest.len() as int);
            let i = choose|i: int| 0 <= i < t.len() && t[i] == imports_of(inputs, name)[k].0@;
            let first = inputs[0].1@.map_values(|p: (String, bool)| p.0@);
            assert((first + t)[first.len() + i] == t[i]);
        }
    }
}

/// The targets of all records are those of the first, then those of the rest.
proof fn lemma_targets_shift(inputs: Seq<(String, Vec<(String, bool)>)>, n: int)
    requires
        0 <= n < inputs.len(),
    ensures
        targets(inputs, n + 1) == inputs[0].1@.map_values(|p: (String, bool)| p.0@) + targets(inputs.drop_first(), n),
    decreases n,
{
    if n > 0 {
        lemma_targets_shift(inputs, n - 1);
        assert(inputs.drop_first()[n - 1] == inputs[n]);
        let first = inputs[0].1@.map_values(|p: (String, bool)| p.0@);
        assert(first + targets(inputs.drop_first(), n - 1) + inputs[n].1@.map_values(|p: (String, bool)| p.0@) =~= first + (
        targets(inputs.drop_first(), n - 1) + inputs[n].1@.map_values(|p: (String, bool)| p.0@)));
    } else {
        assert(targets(inputs, 0) =~= Seq::<Seq<char>>::empty());
        assert(targets(inputs.drop_first(), 0) =~= Seq::<Seq<char>>::empty());
        assert(Seq::<Seq<char>>::empty() + inputs[0].1@.map_values(|p: (String, bool)| p.0@) =~= inputs[0].1@.map_values(
            |p: (String, bool)| p.0@,
        ) + Seq::<Seq<char>>::empty());
    }
}

/// Distinct names all drawn from `t` are no more than `t`'s length.
proof fn lemma_distinct_bound(v: Seq<Seq<char>>, t: Seq<Seq<char>>)
    requires
        v.no_duplicates(),
        forall|i: int| 0 <= i < v.len() ==> t.contains(#[trigger] v[i]),
    ensures
        v.len() <= t.len(),
{
    broadcast use vstd::seq_lib::seq_to_set_is_finite;

    v.unique_seq_to_set();
    assert(v.to_set().subset_of(t.to_set())) by {
        assert forall|x: Seq<char>| v.to_set().contains(x) implies t.to_set().contains(x) by {
            let i = choose|i: int| 0 <= i < v.len() && v[i] == x;
            assert(t.contains(v[i]));
        }
    }
    vstd::set_lib::lemma_len_subset(v.to_set(), t.to_set());
    t.lemma_cardinality_of_set();
}

/// A chain's end is visited where the visited names hold every entry and
/// every bundled import of a visited name.
proof fn lemma_chain_visited(meta: Metafile, v: Seq<Seq<char>>, p: Seq<Seq<char>>)
    requires
        forall|x: Seq<char>| #[trigger] entry_point(meta, x) ==> v.contains(x),
        forall|x: Seq<char>, y: Seq<char>| v.contains(x) && #[trigger] imports(meta, x, y) ==> v.contains(y),
        import_chain(meta, p),
    ensures
        v.contains(p.last()),
    decreases p.len(),
{
    if p.len() == 1 {
        assert(p.last() == p[0]);
    } else {
        let q = p.drop_last();
        assert forall|i: int| 0 <= i < q.len() - 1 implies imports(meta, #[trigger] q[i], q[i + 1]) by {
            assert(q[i] == p[i] && q[i + 1] == p[i + 1]);
        }
        assert(q[0] == p[0]);
        lemma_chain_visited(meta, v, q);
        let j = p.len() - 2;
        assert(imports(meta, p[j], p[j + 1]));
        assert(q.last() == p[j]);
    }
}

fn ends_with(s: &Vec<char>, suffix: &str) -> (r: bool)
    ensures
        r == (suffix@.len() <= s@.len() && s@.subrange(s@.len() - suffix@.len(), s@.len() as int) == suffix@),
{
    let t = chars_of(suffix);
    if t.len() > s.len() {
        return false;
    }
    crate::maps::matches_at(s, &t, s.len() - t.len())
}

fn is_js_output(path: &str) -> (r: bool)
    ensures
        r == javascript_output(path@),
{
    let s = chars_of(path);
    proof {
        reveal_strlit(".js");
        reveal_strlit(".mjs");
        reveal_strlit(".cjs");
    }
    ends_with(&s, ".js") || ends_with(&s, ".mjs") || ends_with(&s, ".cjs")
}

/// The contributions of the JavaScript outputs as named counts.
fn contributions(outputs: &Vec<(String, Option<String>, Vec<(String, usize)>)>) -> (r: Vec<(String, Counts)>)
    ensures
        pairs_view(r@) == js_entries(outputs@),
{
    let mut out: Vec<(String, Counts)> = Vec::new();
    proof {
        assert(pairs_view(out@) =~= js_entries(outputs@.take(0)));
    }
    for o in 0..outputs.len()
        invariant
            pairs_view(out@) == js_entries(outputs@.take(o as int)),
    {
        proof {
            assert(outputs@.take(o + 1).drop_last() =~= outputs@.take(o as int));
            assert(outputs@.take(o + 1).last() == outputs@[o as int]);
        }
        if is_js_output(outputs[o].0.as_str()) {
            let inputs = &outputs[o].2;
            let ghost base = pairs_view(out@);
            let ghost all = inputs@.map_values(|p: (String, usize)| (p.0@, Tally { bytes: p.1 as int, observed: 0, unobserved: 0, unmeasured: 0 }));
            for k in 0..inputs.len()
                invariant
                    all == inputs@.map_values(|p: (String, usize)| (p.0@, Tally { bytes: p.1 as int, observed: 0, unobserved: 0, unmeasured: 0 })),
                    pairs_view(out@) == base + all.take(k as int),
            {
                let ghost before = pairs_view(out@);
                out.push((inputs[k].0.clone(), Counts { bytes: inputs[k].1, observed_bytes: 0, unobserved_bytes: 0, unmeasured_bytes: 0 }));
                proof {
                    assert(pairs_view(out@) =~= before.push(all[k as int]));
                    assert(all.take(k + 1) =~= all.take(k as int).push(all[k as int]));
                }
            }
            proof {
                assert(all.take(all.len() as int) =~= all);
            }
        } else {
            proof {
                assert(js_entries(outputs@.take(o + 1)) =~= js_entries(outputs@.take(o as int)));
            }
        }
    }
    proof {
        assert(outputs@.take(outputs@.len() as int) =~= outputs@);
    }
    out
}


pub open spec fn names(v: Seq<String>) -> Seq<Seq<char>> {
    v.map_values(|s: String| s@)
}

fn imports_exec<'a>(inputs: &'a Vec<(String, Vec<(String, bool)>)>, name: &str) -> (r: Option<&'a Vec<(String, bool)>>)
    ensures
        match r {
            Some(v) => v@ == imports_of(inputs@, name@),
            None => imports_of(inputs@, name@).len() == 0,
        },
{
    let mut i: usize = 0;
    proof {
        assert(inputs@.subrange(0, inputs@.len() as int) =~= inputs@);
    }
    while i < inputs.len()
        invariant
            i <= inputs@.len(),
            imports_of(inputs@, name@) == imports_of(inputs@.subrange(i as int, inputs@.len() as int), name@),
        decreases inputs@.len() - i,
    {
        let ghost rest = inputs@.subrange(i as int, inputs@.len() as int);
        proof {
            assert(rest.drop_first() =~= inputs@.subrange(i + 1, inputs@.len() as int));
            assert(rest[0] == inputs@[i as int]);
        }
        if str_eq(inputs[i].0.as_str(), name) {
            return Some(&inputs[i].1);
        }
        i = i + 1;
    }
    None
}

fn contains_name(v: &Vec<String>, name: &str) -> (r: bool)
    ensures
        r == names(v@).contains(name@),
{
    for i in 0..v.len()
        invariant
            forall|j: int| 0 <= j < i ==> v@[j]@ != name@,
    {
        if str_eq(v[i].as_str(), name) {
            proof {
                assert(names(v@)[i as int] == name@);
            }
            return true;
        }
    }
    proof {
        if names(v@).contains(name@) {
            let j = choose|j: int| 0 <= j < names(v@).len() && names(v@)[j] == name@;
            assert(v@[j]@ == name@);
        }
    }
    false
}

/// One import chain from an entry point to each module reached by bundled
/// imports, breadth first; each module once.
fn chains(meta: &Metafile) -> (r: Vec<(String, Vec<String>)>)
    ensures
        forall|i: int|
            0 <= i < r@.len() ==> import_chain(*meta, names((#[trigger] r@[i]).1@)) && names(r@[i].1@).last() == r@[i].0@,
        forall|x: Seq<char>| #[trigger] reachable(*meta, x) ==> exists|i: int| 0 <= i < r@.len() && r@[i].0@ == x,
{
    let mut visited: Vec<String> = Vec::new();
    let mut queue: Vec<Vec<String>> = Vec::new();
    for o in 0..meta.outputs.len()
        invariant
            forall|q: int| 0 <= q < queue@.len() ==> import_chain(*meta, names(#[trigger] queue@[q]@)),
            queue@.len() == visited@.len(),
            forall|q: int| 0 <= q < queue@.len() ==> names(#[trigger] queue@[q]@).last() == names(visited@)[q],
            names(visited@).no_duplicates(),
            forall|o2: int|
                0 <= o2 < o && javascript_output((#[trigger] meta.outputs@[o2]).0@) && meta.outputs@[o2].1 is Some
                    ==> names(visited@).contains(meta.outputs@[o2].1->0@),
    {
        let ghost before = names(visited@);
        if is_js_output(meta.outputs[o].0.as_str()) {
            if let Some(e) = &meta.outputs[o].1 {
                if !contains_name(&visited, e.as_str()) {
                    visited.push(e.clone());
                    let mut start: Vec<String> = Vec::new();
                    start.push(e.clone());
                    proof {
                        assert(names(start@) =~= seq![e@]);
                        assert(entry_point(*meta, e@));
                        assert(names(visited@) =~= before.push(e@));
                    }
                    queue.push(start);
                    proof {
                        assert forall|o2: int|
                            0 <= o2 < o + 1 && javascript_output((#[trigger] meta.outputs@[o2]).0@) && meta.outputs@[o2].1 is Some
                                implies names(visited@).contains(meta.outputs@[o2].1->0@) by {
                            if o2 < o {
                                let i = choose|i: int| 0 <= i < before.len() && before[i] == meta.outputs@[o2].1->0@;
                                assert(names(visited@)[i] == before[i]);
                            } else {
                                assert(names(visited@)[before.len() as int] == e@);
                            }
                        }
                    }
                }
            }
        }
    }
    let ghost init = queue@.len();
    let ghost all_targets = targets(meta.inputs@, meta.inputs@.len() as int);
    let mut limit: usize = queue.len();
    for k in 0..meta.inputs.len()
        invariant
            limit >= queue@.len(),
            limit == usize::MAX || limit == queue@.len() + targets(meta.inputs@, k as int).len(),
    {
        proof {
            assert(targets(meta.inputs@, k + 1).len() == targets(meta.inputs@, k as int).len() + meta.inputs@[k as int].1@.len());
        }
        limit = limit.saturating_add(meta.inputs[k].1.len());
    }
    let mut head: usize = 0;
    let mut paths: Vec<(String, Vec<String>)> = Vec::new();
    while head < queue.len() && head < limit
        invariant
            forall|q: int| 0 <= q < queue@.len() ==> import_chain(*meta, names(#[trigger] queue@[q]@)),
            forall|i: int|
                0 <= i < paths@.len() ==> import_chain(*meta, names((#[trigger] paths@[i]).1@)) && names(paths@[i].1@).last()
                    == paths@[i].0@,
            queue@.len() == visited@.len(),
            forall|q: int| 0 <= q < queue@.len() ==> names(#[trigger] queue@[q]@).last() == names(visited@)[q],
            names(visited@).no_duplicates(),
            forall|x: Seq<char>| #[trigger] entry_point(*meta, x) ==> names(visited@).contains(x),
            init <= queue@.len(),
            forall|q: int| init <= q < visited@.len() ==> all_targets.contains(#[trigger] names(visited@)[q]),
            all_targets == targets(meta.inputs@, meta.inputs@.len() as int),
            limit == usize::MAX || limit == init + all_targets.len(),
            head <= queue@.len(),
            paths@.len() == head,
            forall|q: int| 0 <= q < head ==> (#[trigger] paths@[q]).0@ == names(visited@)[q],
            forall|q: int, k: int|
                0 <= q < head && 0 <= k < imports_of(meta.inputs@, names(visited@)[q]).len() && !imports_of(
                    meta.inputs@,
                    names(visited@)[q],
                )[k].1 ==> names(visited@).contains(#[trigger] imports_of(meta.inputs@, names(visited@)[q])[k].0@),
        decreases limit - head,
    {
        let path = crate::annotations::copy_strings(&queue[head]);
        proof {
            assert(names(path@) == names(queue@[head as int]@)) by {
                assert(names(path@) =~= crate::annotations::strs(path@));
                assert(names(queue@[head as int]@) =~= crate::annotations::strs(queue@[head as int]@));
            }
        }
        let current = path[path.len() - 1].clone();
        proof {
            assert(names(path@).last() == current@);
            assert(current@ == names(visited@)[head as int]);
        }
        let ghost vis0 = names(visited@);
        if let Some(list) = imports_exec(&meta.inputs, current.as_str()) {
            for k in 0..list.len()
                invariant
                    list@ == imports_of(meta.inputs@, current@),
                    import_chain(*meta, names(path@)),
                    names(path@).last() == current@,
                    forall|q: int| 0 <= q < queue@.len() ==> import_chain(*meta, names(#[trigger] queue@[q]@)),
                    queue@.len() == visited@.len(),
                    forall|q: int| 0 <= q < queue@.len() ==> names(#[trigger] queue@[q]@).last() == names(visited@)[q],
                    names(visited@).no_duplicates(),
                    init <= queue@.len(),
                    head < queue@.len(),
                    forall|q: int| init <= q < visited@.len() ==> all_targets.contains(#[trigger] names(visited@)[q]),
                    all_targets == targets(meta.inputs@, meta.inputs@.len() as int),
                    vis0.len() <= visited@.len(),
                    forall|q: int| 0 <= q < vis0.len() ==> #[trigger] names(visited@)[q] == vis0[q],
                    forall|j: int|
                        0 <= j < k && !list@[j].1 ==> names(visited@).contains(#[trigger] list@[j].0@),
            {
                let (target, external) = (&list[k].0, list[k].1);
                let ghost vb = names(visited@);
                if !external && !contains_name(&visited, target.as_str()) {
                    visited.push(target.clone());
                    let mut next = crate::annotations::copy_strings(&path);
                    let ghost before = names(next@);
                    next.push(target.clone());
                    proof {
                        assert(names(visited@) =~= vb.push(target@));
                        assert(names(next@) =~= before.push(target@));
                        assert(before =~= names(path@)) by {
                            assert(names(next@.drop_last()) =~= crate::annotations::strs(next@.drop_last()));
                        }
                        assert(imports(*meta, current@, target@)) by {
                            assert(imports_of(meta.inputs@, current@)[k as int].0@ == target@);
                        }
                        let np = names(next@);
                        assert forall|i: int| 0 <= i < np.len() - 1 implies imports(*meta, #[trigger] np[i], np[i + 1]) by {
                            if i < np.len() - 2 {
                                assert(np[i] == names(path@)[i] && np[i + 1] == names(path@)[i + 1]);
                            } else {
                                assert(np[i] == current@);
                            }
                        }
                        assert(np[0] == names(path@)[0]);
                        lemma_imports_listed(meta.inputs@, current@, k as int);
                        assert(names(visited@).no_duplicates()) by {
                            assert forall|a: int, b: int| 0 <= a < b < names(visited@).len() implies names(visited@)[a]
                                != names(visited@)[b] by {
                                if b == vb.len() {
                                    assert(names(visited@)[a] == vb[a]);
                                } else {
                                    assert(names(visited@)[a] == vb[a] && names(visited@)[b] == vb[b]);
                                }
                            }
                        }
                        assert forall|j: int| 0 <= j < k + 1 && !list@[j].1 implies names(visited@).contains(#[trigger] list@[j].0@) by {
                            if j < k {
                                let i = choose|i: int| 0 <= i < vb.len() && vb[i] == list@[j].0@;
                                assert(names(visited@)[i] == vb[i]);
                            } else {
                                assert(names(visited@)[vb.len() as int] == target@);
                            }
                        }
                        assert forall|q: int| init <= q < visited@.len() implies all_targets.contains(#[trigger] names(visited@)[q]) by {
                            if q < vb.len() {
                                assert(names(visited@)[q] == vb[q]);
                            }
                        }
                    }
                    queue.push(next);
                    proof {
                        assert forall|q: int| 0 <= q < queue@.len() implies names(#[trigger] queue@[q]@).last() == names(visited@)[q] by {
                            if q < vb.len() {
                                assert(names(visited@)[q] == vb[q]);
                            }
                        }
                    }
                } else {
                    proof {
                        if !external {
                            assert(names(visited@).contains(target@));
                        }
                    }
                }
            }
            proof {
                assert forall|kk: int|
                    0 <= kk < imports_of(meta.inputs@, current@).len() && !imports_of(meta.inputs@, current@)[kk].1 implies names(
                    visited@,
                ).contains(#[trigger] imports_of(meta.inputs@, current@)[kk].0@) by {
                    assert(list@[kk] == imports_of(meta.inputs@, current@)[kk]);
                }
            }
        }
        paths.push((current, path));
        proof {
            assert(vis0.len() <= names(visited@).len());
            assert(forall|q: int| 0 <= q < vis0.len() ==> #[trigger] names(visited@)[q] == vis0[q]);
            assert forall|x: Seq<char>| #[trigger] entry_point(*meta, x) implies names(visited@).contains(x) by {
                assert(vis0.contains(x));
                let i = choose|i: int| 0 <= i < vis0.len() && vis0[i] == x;
                assert(names(visited@)[i] == vis0[i]);
            }
            assert forall|q: int, k: int|
                0 <= q < head + 1 && 0 <= k < imports_of(meta.inputs@, names(visited@)[q]).len() && !imports_of(
                    meta.inputs@,
                    names(visited@)[q],
                )[k].1 implies names(visited@).contains(#[trigger] imports_of(meta.inputs@, names(visited@)[q])[k].0@) by {
                assert(names(visited@)[q] == vis0[q]);
                if q < head {
                    let y = imports_of(meta.inputs@, vis0[q])[k].0@;
                    assert(vis0.contains(y));
                    let i = choose|i: int| 0 <= i < vis0.len() && vis0[i] == y;
                    assert(names(visited@)[i] == vis0[i]);
                }
            }
        }
        head = head + 1;
        proof {
            let tail = names(visited@).subrange(init as int, visited@.len() as int);
            assert(tail.no_duplicates()) by {
                assert forall|a: int, b: int| 0 <= a < b < tail.len() implies tail[a] != tail[b] by {
                    assert(tail[a] == names(visited@)[a + init] && tail[b] == names(visited@)[b + init]);
                }
            }
            assert forall|i: int| 0 <= i < tail.len() implies all_targets.contains(#[trigger] tail[i]) by {
                assert(tail[i] == names(visited@)[i + init]);
            }
            lemma_distinct_bound(tail, all_targets);
        }
    }
    proof {
        let v = names(visited@);
        if head < queue@.len() {
            let tail = v.subrange(init as int, v.len() as int);
            assert(tail.no_duplicates()) by {
                assert forall|a: int, b: int| 0 <= a < b < tail.len() implies tail[a] != tail[b] by {
                    assert(tail[a] == v[a + init] && tail[b] == v[b + init]);
                }
            }
            assert forall|i: int| 0 <= i < tail.len() implies all_targets.contains(#[trigger] tail[i]) by {
                assert(tail[i] == v[i + init]);
            }
            lemma_distinct_bound(tail, all_targets);
        }
        assert(head == queue@.len());
        assert forall|x: Seq<char>, y: Seq<char>| v.contains(x) && #[trigger] imports(*meta, x, y) implies v.contains(y) by {
            let q = choose|q: int| 0 <= q < v.len() && v[q] == x;
            let k = choose|k: int|
                0 <= k < imports_of(meta.inputs@, x).len() && #[trigger] imports_of(meta.inputs@, x)[k].0@ == y && !imports_of(
                    meta.inputs@,
                    x,
                )[k].1;
            assert(imports_of(meta.inputs@, v[q])[k].0@ == y);
        }
        assert forall|x: Seq<char>| #[trigger] reachable(*meta, x) implies exists|i: int| 0 <= i < paths@.len() && paths@[i].0@ == x by {
            let p = choose|p: Seq<Seq<char>>| #[trigger] import_chain(*meta, p) && p.last() == x;
            lemma_chain_visited(*meta, v, p);
            let i = choose|i: int| 0 <= i < v.len() && v[i] == x;
            assert(paths@[i].0@ == x);
        }
    }
    paths
}


proof fn lemma_js_entries_zero(outputs: Seq<(String, Option<String>, Vec<(String, usize)>)>)
    ensures
        forall|i: int| 0 <= i < js_entries(outputs).len() ==> (#[trigger] js_entries(outputs)[i]).1.observed == 0
            && js_entries(outputs)[i].1.unobserved == 0 && js_entries(outputs)[i].1.unmeasured == 0,
    decreases outputs.len(),
{
    if outputs.len() > 0 {
        lemma_js_entries_zero(outputs.drop_last());
        let prefix = js_entries(outputs.drop_last());
        let tail = if javascript_output(outputs.last().0@) {
            outputs.last().2@.map_values(|p: (String, usize)| (p.0@, Tally { bytes: p.1 as int, observed: 0, unobserved: 0, unmeasured: 0 }))
        } else {
            Seq::empty()
        };
        assert(js_entries(outputs) == prefix + tail);
        assert forall|i: int| 0 <= i < js_entries(outputs).len() implies (#[trigger] js_entries(outputs)[i]).1.observed == 0
            && js_entries(outputs)[i].1.unobserved == 0 && js_entries(outputs)[i].1.unmeasured == 0 by {
            if i < prefix.len() {
                assert(js_entries(outputs)[i] == prefix[i]);
            } else {
                assert(js_entries(outputs)[i] == tail[i - prefix.len()]);
            }
        }
    }
}

proof fn lemma_name_total_zero(v: Seq<(Seq<char>, Tally)>, name: Seq<char>)
    requires
        forall|i: int| 0 <= i < v.len() ==> (#[trigger] v[i]).1.observed == 0 && v[i].1.unobserved == 0 && v[i].1.unmeasured == 0,
    ensures
        crate::summary::name_total(v, name).observed == 0,
        crate::summary::name_total(v, name).unobserved == 0,
        crate::summary::name_total(v, name).unmeasured == 0,
    decreases v.len(),
{
    if v.len() > 0 {
        assert forall|i: int| 0 <= i < v.drop_last().len() implies (#[trigger] v.drop_last()[i]).1.observed == 0
            && v.drop_last()[i].1.unobserved == 0 && v.drop_last()[i].1.unmeasured == 0 by {
            assert(v.drop_last()[i] == v[i]);
        }
        lemma_name_total_zero(v.drop_last(), name);
        assert(v[v.len() - 1].1.observed == 0);
    }
}

/// Rows with some bytes.
pub open spec fn positive() -> spec_fn((Seq<char>, Tally)) -> bool {
    |p: (Seq<char>, Tally)| p.1.bytes > 0
}

pub open spec fn path_rows(v: Seq<ImportPath>) -> Seq<(Seq<char>, Tally)> {
    v.map_values(|p: ImportPath| (p.source@, Tally { bytes: p.bytes_in_output as int, observed: 0, unobserved: 0, unmeasured: 0 }))
}

/// The bytes each input contributes to the JavaScript outputs, largest
/// first, each with one import chain from an entry point where the graph
/// reaches it.
pub fn import_paths(meta: &Metafile) -> (r: Result<Vec<ImportPath>, MetadataError>)
    ensures
        (r == Err::<Vec<ImportPath>, MetadataError>(MetadataError::NoInputs)) <==> meta.inputs@.len() == 0,
        r matches Err(e) ==> e == MetadataError::NoInputs || e == MetadataError::TooLarge,
        r == Err::<Vec<ImportPath>, MetadataError>(MetadataError::TooLarge) ==> !fits(grand_total(js_entries(meta.outputs@))),
        r matches Ok(rows) ==> {
            &&& path_rows(rows@).to_multiset() == merged_rows(js_entries(meta.outputs@)).filter(positive()).to_multiset()
            &&& ordered(path_rows(rows@))
            &&& forall|i: int|
                0 <= i < rows@.len() ==> {
                    &&& (#[trigger] rows@[i]).graph_format@ == "esbuild"@
                    &&& rows@[i].resolved_source is None
                    &&& rows@[i].edges@.len() == 0
                    &&& rows@[i].path matches Some(p) ==> import_chain(*meta, names(p@)) && names(p@).last()
                        == rows@[i].source@
                    &&& rows@[i].path is Some <==> reachable(*meta, rows@[i].source@)
                }
        },
{
    if meta.inputs.len() == 0 {
        return Err(MetadataError::NoInputs);
    }
    let entries = contributions(&meta.outputs);
    let mut total = Counts::zero();
    for i in 0..entries.len()
        invariant
            crate::analysis::tally_of(total) == grand_total(pairs_view(entries@).take(i as int)),
            fits(crate::analysis::tally_of(total)),
            meta.inputs@.len() > 0,
            pairs_view(entries@) == js_entries(meta.outputs@),
    {
        proof {
            assert(pairs_view(entries@).take(i + 1).drop_last() =~= pairs_view(entries@).take(i as int));
        }
        total = match crate::analyze::checked_add_counts(total, entries[i].1) {
            Some(t) => t,
            None => {
                proof {
                    let all = pairs_view(entries@);
                    let head = all.take(i + 1);
                    let tail = all.skip(i + 1);
                    assert(head.drop_last() =~= all.take(i as int));
                    assert(head.last() == pair_view(entries@[i as int]));
                    crate::scenario::lemma_grand_total_append(head, tail);
                    assert(head + tail =~= all);
                    assert(crate::scenario::nonnegative_entries(tail)) by {
                        assert forall|j: int| 0 <= j < tail.len() implies {
                            let t = (#[trigger] tail[j]).1;
                            t.bytes >= 0 && t.observed >= 0 && t.unobserved >= 0 && t.unmeasured >= 0
                        } by {
                            assert(tail[j] == pair_view(entries@[j + i + 1]));
                        }
                    }
                    crate::scenario::lemma_grand_total_nonnegative(tail);
                }
                return Err(MetadataError::TooLarge);
            },
        };
    }
    proof {
        assert(pairs_view(entries@).take(entries@.len() as int) =~= pairs_view(entries@));
    }
    let merged = merge_by_name(&entries);
    let mut kept: Vec<(String, Counts)> = Vec::new();
    let ghost m = pairs_view(merged@);
    proof {
        reveal(Seq::filter);
        assert(m.take(0) =~= Seq::<(Seq<char>, Tally)>::empty());
        assert(pairs_view(kept@) =~= m.take(0).filter(positive()));
    }
    proof {
        lemma_js_entries_zero(meta.outputs@);
        assert forall|t: int| 0 <= t < m.len() implies (#[trigger] m[t]).1.observed == 0 && m[t].1.unobserved == 0
            && m[t].1.unmeasured == 0 by {
            lemma_name_total_zero(js_entries(meta.outputs@), m[t].0);
        }
    }
    for i in 0..merged.len()
        invariant
            m == pairs_view(merged@),
            pairs_view(kept@) == m.take(i as int).filter(positive()),
            forall|t: int| 0 <= t < m.len() ==> (#[trigger] m[t]).1.observed == 0 && m[t].1.unobserved == 0 && m[t].1.unmeasured == 0,
            forall|q: int| 0 <= q < kept@.len() ==> (#[trigger] kept@[q]).1.observed_bytes == 0 && kept@[q].1.unobserved_bytes == 0 && kept@[q].1.unmeasured_bytes == 0,
    {
        proof {
            reveal(Seq::filter);
            assert(m.take(i + 1).drop_last() =~= m.take(i as int));
            assert(m[i as int] == pair_view(merged@[i as int]));
        }
        if merged[i].1.bytes > 0 {
            let ghost before = pairs_view(kept@);
            proof {
                assert(m[i as int].1.observed == 0);
            }
            kept.push((merged[i].0.clone(), merged[i].1));
            proof {
                assert(pairs_view(kept@) =~= before.push(m[i as int]));
            }
        }
    }
    proof {
        assert(m.take(m.len() as int) =~= m);
    }
    let sorted = sort_rows(kept);
    proof {
        broadcast use vstd::seq_lib::group_to_multiset_ensures;

        let mk = pairs_view(kept@);
        assert forall|q: int| 0 <= q < sorted@.len() implies (#[trigger] sorted@[q]).1.observed_bytes == 0
            && sorted@[q].1.unobserved_bytes == 0 && sorted@[q].1.unmeasured_bytes == 0 by {
            let x = pairs_view(sorted@)[q];
            assert(x == pair_view(sorted@[q]));
            assert(pairs_view(sorted@).to_multiset().count(x) > 0);
            assert(mk.to_multiset().count(x) > 0);
            assert(mk.contains(x));
            let j = choose|j: int| 0 <= j < mk.len() && mk[j] == x;
            assert(mk[j] == pair_view(kept@[j]));
        }
    }
    let found = chains(meta);
    let mut rows: Vec<ImportPath> = Vec::new();
    for i in 0..sorted.len()
        invariant
            rows@.len() == i,
            forall|q: int| 0 <= q < found@.len() ==> import_chain(*meta, names((#[trigger] found@[q]).1@)) && names(found@[q].1@).last() == found@[q].0@,
            forall|q: int| 0 <= q < i ==> pair_view(sorted@[q]).0 == (#[trigger] rows@[q]).source@ && pair_view(sorted@[q]).1 == (Tally { bytes: rows@[q].bytes_in_output as int, observed: 0, unobserved: 0, unmeasured: 0 }),
            forall|q: int|
                0 <= q < i ==> {
                    &&& (#[trigger] rows@[q]).graph_format@ == "esbuild"@
                    &&& rows@[q].resolved_source is None
                    &&& rows@[q].edges@.len() == 0
                    &&& rows@[q].path matches Some(p) ==> import_chain(*meta, names(p@)) && names(p@).last() == rows@[q].source@
                    &&& rows@[q].path is Some <==> reachable(*meta, rows@[q].source@)
                },
            forall|x: Seq<char>| #[trigger] reachable(*meta, x) ==> exists|k: int| 0 <= k < found@.len() && found@[k].0@ == x,
            forall|q: int| 0 <= q < sorted@.len() ==> (#[trigger] sorted@[q]).1.observed_bytes == 0 && sorted@[q].1.unobserved_bytes == 0 && sorted@[q].1.unmeasured_bytes == 0,
    {
        let name = &sorted[i].0;
        let mut path: Option<Vec<String>> = None;
        let mut k: usize = 0;
        while k < found.len()
            invariant
                k <= found@.len(),
                path matches Some(p) ==> import_chain(*meta, names(p@)) && names(p@).last() == name@,
                forall|q: int| 0 <= q < found@.len() ==> import_chain(*meta, names((#[trigger] found@[q]).1@)) && names(found@[q].1@).last() == found@[q].0@,
                path is None ==> forall|q: int| 0 <= q < k ==> (#[trigger] found@[q]).0@ != name@,
            ensures
                path matches Some(p) ==> import_chain(*meta, names(p@)) && names(p@).last() == name@,
                path is None ==> forall|q: int| 0 <= q < found@.len() ==> (#[trigger] found@[q]).0@ != name@,
            decreases found@.len() - k,
        {
            if str_eq(found[k].0.as_str(), name.as_str()) {
                let copy = crate::annotations::copy_strings(&found[k].1);
                proof {
                    assert(names(copy@) =~= crate::annotations::strs(copy@));
                    assert(names(found@[k as int].1@) =~= crate::annotations::strs(found@[k as int].1@));
                }
                path = Some(copy);
                break;
            }
            k = k + 1;
        }
        proof {
            if path is Some {
                let p = path->0;
                assert(import_chain(*meta, names(p@)) && names(p@).last() == name@);
                assert(reachable(*meta, name@));
            } else {
                if reachable(*meta, name@) {
                    let q = choose|q: int| 0 <= q < found@.len() && found@[q].0@ == name@;
                    assert(found@[q].0@ != name@);
                }
            }
        }
        rows.push(
            ImportPath {
                source: name.clone(),
                resolved_source: None,
                bytes_in_output: sorted[i].1.bytes,
                path,
                graph_format: "esbuild".to_string(),
                edges: Vec::new(),
            },
        );
    }
    proof {
        assert(path_rows(rows@) =~= pairs_view(sorted@));
    }
    Ok(rows)
}


/// Binds each row's source to its identity as the report shows it, from
/// the build's working directory.
pub fn bind_sources(paths: &mut Vec<ImportPath>, analysis_root: &str, build_root: &str)
    ensures
        final(paths)@.len() == old(paths)@.len(),
        forall|i: int|
            0 <= i < final(paths)@.len() ==> (#[trigger] final(paths)@[i]).source == old(paths)@[i].source
                && final(paths)@[i].bytes_in_output == old(paths)@[i].bytes_in_output && (final(paths)@[i].resolved_source matches Some(
                r,
            ) && r@ == crate::source_path::resolved_source(analysis_root@, build_root@, old(paths)@[i].source@)),
{
    let resolver = crate::source_path::SourcePaths { root: analysis_root.to_string(), directory: build_root.to_string() };
    let mut rest: Vec<ImportPath> = Vec::new();
    std::mem::swap(&mut rest, paths);
    let ghost all = rest@;
    let n = rest.len();
    for i in 0..n
        invariant
            n == all.len(),
            all == old(paths)@,
            rest@ == all.subrange(i as int, n as int),
            paths@.len() == i,
            resolver.root@ == analysis_root@,
            resolver.directory@ == build_root@,
            forall|q: int|
                0 <= q < i ==> (#[trigger] paths@[q]).source == all[q].source && paths@[q].bytes_in_output == all[q].bytes_in_output
                    && (paths@[q].resolved_source matches Some(r) && r@ == crate::source_path::resolved_source(
                    analysis_root@,
                    build_root@,
                    all[q].source@,
                )),
    {
        let row = rest.remove(0);
        proof {
            assert(row == all[i as int]);
            assert(rest@ =~= all.subrange(i + 1, n as int));
        }
        let resolved = resolver.resolve(row.source.as_str());
        paths.push(
            ImportPath {
                source: row.source,
                resolved_source: Some(resolved),
                bytes_in_output: row.bytes_in_output,
                path: row.path,
                graph_format: row.graph_format,
                edges: row.edges,
            },
        );
    }
}

} // verus!
