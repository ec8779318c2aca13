//! V8 block coverage: nested ranges where a child overrides its parent.
use vstd::prelude::*;

use crate::sort::{Key, key_le, sort_keys, sorted_keys};
use crate::text::{TextError, TextIndex, is_unit_boundary};

verus! {

/// A half-open range `[start, end)`.
#[derive(Debug, Clone, Copy, PartialEq, Eq, Structural)]
pub struct Interval {
    pub start: usize,
    pub end: usize,
}

/// A hash-bound coverage envelope.
#[derive(Debug)]
pub struct CoverageFile {
    pub schema_version: u32,
    pub scenario: String,
    pub scripts: Vec<ScriptCoverage>,
}

/// One script of a coverage envelope.
#[derive(Debug)]
pub struct ScriptCoverage {
    pub path: String,
    pub sha256: String,
    pub source_map_sha256: Option<String>,
    pub functions: Vec<FunctionCoverage>,
}

/// One V8 function: its first range is the whole function.
#[derive(Debug, Clone)]
pub struct FunctionCoverage {
    pub is_block_coverage: bool,
    pub ranges: Vec<CoverageRange>,
}

/// A V8 range with its execution count.
#[derive(Debug, Clone, Copy)]
pub struct CoverageRange {
    pub start_offset: usize,
    pub end_offset: usize,
    pub count: u64,
}

/// Some interval of `s` contains point `p`.
pub open spec fn covers(s: Seq<Interval>, p: int) -> bool {
    exists|i: int| 0 <= i < s.len() && (#[trigger] s[i]).start <= p < s[i].end
}

/// Sorted, each well-formed, and separated by gaps (touching intervals are merged).
pub open spec fn separated(s: Seq<Interval>) -> bool {
    &&& forall|i: int| 0 <= i < s.len() ==> #[trigger] s[i].start <= s[i].end
    &&& forall|i: int, j: int| 0 <= i < j < s.len() ==> #[trigger] s[i].end < #[trigger] s[j].start
}

pub open spec fn well_formed(s: Seq<Interval>) -> bool {
    forall|i: int| 0 <= i < s.len() ==> #[trigger] s[i].start <= s[i].end
}

pub open spec fn all_nonempty(s: Seq<Interval>) -> bool {
    forall|i: int| 0 <= i < s.len() ==> #[trigger] s[i].start < s[i].end
}

/// The canonical form of a point set: separated, nonempty intervals.
pub open spec fn normalized(s: Seq<Interval>) -> bool {
    separated(s) && all_nonempty(s)
}

pub open spec fn key_covers(s: Seq<Key>, p: int) -> bool {
    exists|i: int| 0 <= i < s.len() && (#[trigger] s[i]).0 <= p < s[i].1
}

/// Merges overlapping and touching intervals into a sorted, separated list
/// covering exactly the same points.
pub fn union(ranges: Vec<Interval>) -> (merged: Vec<Interval>)
    requires
        well_formed(ranges@),
    ensures
        forall|p: int| covers(merged@, p) <==> covers(ranges@, p),
        separated(merged@),
        all_nonempty(ranges@) ==> all_nonempty(merged@),
{
    broadcast use vstd::seq_lib::group_to_multiset_ensures;

    let n = ranges.len();
    let mut keys: Vec<Key> = Vec::new();
    for i in 0..n
        invariant
            n == ranges@.len(),
            keys@.len() == i,
            forall|k: int|
                0 <= k < i ==> #[trigger] keys@[k] == (ranges@[k].start, ranges@[k].end, 0usize),
    {
        keys.push((ranges[i].start, ranges[i].end, 0));
    }
    let ghost unsorted = keys@;
    let sorted = sort_keys(keys);
    proof {
        assert forall|p: int| key_covers(sorted@, p) <==> covers(ranges@, p) by {
            if key_covers(sorted@, p) {
                let i = choose|i: int| 0 <= i < sorted@.len() && (#[trigger] sorted@[i]).0 <= p < sorted@[i].1;
                assert(sorted@.contains(sorted@[i]));
                assert(unsorted.to_multiset().count(sorted@[i]) > 0);
                assert(unsorted.contains(sorted@[i]));
                let k = choose|k: int| 0 <= k < unsorted.len() && (#[trigger] unsorted[k]) == sorted@[i];
                assert(ranges@[k].start <= p < ranges@[k].end);
            }
            if covers(ranges@, p) {
                let k = choose|k: int| 0 <= k < ranges@.len() && (#[trigger] ranges@[k]).start <= p < ranges@[k].end;
                assert(unsorted.contains(unsorted[k]));
                assert(sorted@.to_multiset().count(unsorted[k]) > 0);
                assert(sorted@.contains(unsorted[k]));
            }
        }
        assert forall|i: int| 0 <= i < sorted@.len() implies #[trigger] sorted@[i].0 <= sorted@[i].1
            && (all_nonempty(ranges@) ==> sorted@[i].0 < sorted@[i].1) by {
            assert(sorted@.contains(sorted@[i]));
            assert(unsorted.to_multiset().count(sorted@[i]) > 0);
            assert(unsorted.contains(sorted@[i]));
        }
    }
    let mut merged: Vec<Interval> = Vec::new();
    let m = sorted.len();
    for k in 0..m
        invariant
            m == sorted@.len(),
            sorted_keys(sorted@),
            forall|i: int| 0 <= i < sorted@.len() ==> #[trigger] sorted@[i].0 <= sorted@[i].1 && (
            all_nonempty(ranges@) ==> sorted@[i].0 < sorted@[i].1),
            forall|p: int| covers(merged@, p) <==> key_covers(sorted@.subrange(0, k as int), p),
            separated(merged@),
            all_nonempty(ranges@) ==> all_nonempty(merged@),
            k == 0 <==> merged@.len() == 0,
            k > 0 ==> merged@.last().start <= sorted@[k - 1].0,
            forall|i: int| 0 <= i < k ==> #[trigger] sorted@[i].1 <= merged@.last().end,
    {
        let (start, end, _) = sorted[k];
        let ghost prev = sorted@.subrange(0, k as int);
        let ghost next = sorted@.subrange(0, k + 1);
        proof {
            assert(next == prev.push(sorted@[k as int]));
            if k > 0 {
                assert(key_le(sorted@[k - 1], sorted@[k as int]));
            }
        }
        let len = merged.len();
        if len > 0 && start <= merged[len - 1].end {
            let last = merged[len - 1];
            let new_end = if end > last.end {
                end
            } else {
                last.end
            };
            let ghost old_merged = merged@;
            merged.set(len - 1, Interval { start: last.start, end: new_end });
            proof {
                assert forall|p: int| covers(merged@, p) <==> key_covers(next, p) by {
                    if covers(merged@, p) {
                        let i = choose|i: int| 0 <= i < merged@.len() && (#[trigger] merged@[i]).start <= p < merged@[i].end;
                        if i < len - 1 {
                            assert(merged@[i] == old_merged[i]);
                            assert(covers(old_merged, p));
                        } else if p < last.end {
                            assert(old_merged[len - 1] == last);
                            assert(covers(old_merged, p));
                        } else {
                            assert(next[k as int].0 <= p < next[k as int].1);
                        }
                    }
                    if key_covers(next, p) {
                        let i = choose|i: int| 0 <= i < next.len() && (#[trigger] next[i]).0 <= p < next[i].1;
                        if i < k {
                            assert(prev[i] == next[i]);
                            assert(key_covers(prev, p));
                            assert(covers(old_merged, p));
                            let j = choose|j: int| 0 <= j < old_merged.len() && (#[trigger] old_merged[j]).start <= p < old_merged[j].end;
                            if j < len - 1 {
                                assert(merged@[j] == old_merged[j]);
                            }
                            assert(merged@[j].start <= p < merged@[j].end);
                        } else {
                            assert(merged@[len - 1].start <= p < merged@[len - 1].end);
                        }
                    }
                }
                assert forall|i: int, j: int| 0 <= i < j < merged@.len() implies #[trigger] merged@[i].end
                    < #[trigger] merged@[j].start by {
                    assert(old_merged[i].end < old_merged[j].start);
                }
            }
        } else {
            let ghost old_merged = merged@;
            merged.push(Interval { start, end });
            proof {
                assert forall|p: int| covers(merged@, p) <==> key_covers(next, p) by {
                    if covers(merged@, p) {
                        let i = choose|i: int| 0 <= i < merged@.len() && (#[trigger] merged@[i]).start <= p < merged@[i].end;
                        if i < len {
                            assert(merged@[i] == old_merged[i]);
                            assert(covers(old_merged, p));
                            let j = choose|j: int| 0 <= j < prev.len() && (#[trigger] prev[j]).0 <= p < prev[j].1;
                            assert(next[j] == prev[j]);
                        } else {
                            assert(next[k as int].0 <= p < next[k as int].1);
                        }
                    }
                    if key_covers(next, p) {
                        let i = choose|i: int| 0 <= i < next.len() && (#[trigger] next[i]).0 <= p < next[i].1;
                        if i < k {
                            assert(prev[i] == next[i]);
                            assert(key_covers(prev, p));
                            assert(covers(old_merged, p));
                            let j = choose|j: int| 0 <= j < old_merged.len() && (#[trigger] old_merged[j]).start <= p < old_merged[j].end;
                            assert(merged@[j] == old_merged[j]);
                            assert(merged@[j].start <= p < merged@[j].end);
                        } else {
                            assert(merged@[len as int].start <= p < merged@[len as int].end);
                        }
                    }
                }
                assert forall|i: int, j: int| 0 <= i < j < merged@.len() implies #[trigger] merged@[i].end
                    < #[trigger] merged@[j].start by {
                    if j < len {
                        assert(old_merged[i].end < old_merged[j].start);
                    } else if i < len - 1 {
                        assert(old_merged[i].end < old_merged[len - 1].start);
                    }
                }
            }
        }
    }
    proof {
        assert(sorted@.subrange(0, m as int) == sorted@);
    }
    merged
}


/// Why coverage input was rejected.
#[derive(Debug, Clone, Copy, PartialEq, Eq)]
pub enum CoverageError {
    /// A coverage path is empty or holds a backslash.
    PathNotRelative,
    /// A coverage path is absolute or holds a leading `.` or a `..` component.
    PathNotNormal,
    /// A function lists no ranges.
    NoRanges,
    /// A range ends before it starts.
    ReversedRange,
    /// A block range leaves its function's first range.
    OutsideFunction,
    /// A range offset is not a UTF-16 boundary of the source.
    Offset(TextError),
    /// Two ranges partly overlap.
    CrossingRanges,
}

/// `..` is a whole component starting at character `i`.
pub open spec fn parent_component_at(p: Seq<char>, i: int) -> bool {
    &&& 0 <= i && i + 1 < p.len()
    &&& p[i] == '.' && p[i + 1] == '.'
    &&& (i == 0 || p[i - 1] == '/')
    &&& (i + 2 == p.len() || p[i + 2] == '/')
}

/// The path has only normal components: not absolute, no leading `.`, no `..`.
pub open spec fn normal_components(p: Seq<char>) -> bool {
    &&& !(p.len() > 0 && p[0] == '/')
    &&& !(p.len() > 0 && p[0] == '.' && (p.len() == 1 || p[1] == '/'))
    &&& forall|i: int| !#[trigger] parent_component_at(p, i)
}

/// A coverage path: a nonempty slash-separated relative path without `\`,
/// absolute roots, or `.`/`..` components.
pub open spec fn valid_coverage_path(p: Seq<char>) -> bool {
    p.len() > 0 && !p.contains('\\') && normal_components(p)
}

/// Checks a bundle path taken from coverage or from an explicit mapping.
pub fn validate_path(path: &str) -> (r: Result<(), CoverageError>)
    ensures
        r is Ok <==> valid_coverage_path(path@),
        r matches Err(e) ==> if path@.len() == 0 || path@.contains('\\') {
            e == CoverageError::PathNotRelative
        } else {
            e == CoverageError::PathNotNormal
        },
{
    let p = crate::strings::chars_of(path);
    let n = p.len();
    if n == 0 {
        return Err(CoverageError::PathNotRelative);
    }
    for i in 0..n
        invariant
            n == p@.len(),
            p@ == path@,
            forall|k: int| 0 <= k < i ==> p@[k] != '\\',
    {
        if p[i] == '\\' {
            proof {
                assert(p@.contains(p@[i as int]));
            }
            return Err(CoverageError::PathNotRelative);
        }
    }
    proof {
        assert(!p@.contains('\\'));
    }
    if p[0] == '/' || (p[0] == '.' && (n == 1 || p[1] == '/')) {
        return Err(CoverageError::PathNotNormal);
    }
    for i in 0..n
        invariant
            n == p@.len(),
            p@ == path@,
            forall|k: int| 0 <= k < i ==> !#[trigger] parent_component_at(p@, k),
            forall|k: int| 0 <= k < n ==> p@[k] != '\\',
            n > 0,
    {
        if i + 1 < n && p[i] == '.' && p[i + 1] == '.' && (i == 0 || p[i - 1] == '/') && (i + 2
            == n || p[i + 2] == '/') {
            proof {
                assert(parent_component_at(p@, i as int));
            }
            return Err(CoverageError::PathNotNormal);
        }
    }
    proof {
        assert forall|i: int| !#[trigger] parent_component_at(p@, i) by {
            if 0 <= i < n {
            }
        }
    }
    Ok(())
}

/// Why one range is rejected against its function's first range, if it is.
pub open spec fn range_error(root: CoverageRange, r: CoverageRange, s: Seq<char>) -> Option<
    CoverageError,
> {
    if r.start_offset > r.end_offset {
        Some(CoverageError::ReversedRange)
    } else if !(r.start_offset >= root.start_offset && r.end_offset <= root.end_offset) {
        Some(CoverageError::OutsideFunction)
    } else if !is_unit_boundary(s, r.start_offset as int) {
        Some(CoverageError::Offset(TextError::InvalidUtf16Offset(r.start_offset)))
    } else if !is_unit_boundary(s, r.end_offset as int) {
        Some(CoverageError::Offset(TextError::InvalidUtf16Offset(r.end_offset)))
    } else {
        None
    }
}

/// The first error among the first `k` ranges of a function.
pub open spec fn ranges_error(rs: Seq<CoverageRange>, k: int, s: Seq<char>) -> Option<CoverageError>
    decreases k,
{
    if k <= 0 {
        None
    } else {
        match ranges_error(rs, k - 1, s) {
            Some(e) => Some(e),
            None => range_error(rs[0], rs[k - 1], s),
        }
    }
}

/// The first error of a function's ranges.
pub open spec fn function_error(rs: Seq<CoverageRange>, s: Seq<char>) -> Option<CoverageError> {
    if rs.len() == 0 {
        Some(CoverageError::NoRanges)
    } else {
        ranges_error(rs, rs.len() as int, s)
    }
}

/// The first error over the functions in order.
pub open spec fn functions_error(fs: Seq<FunctionCoverage>, s: Seq<char>) -> Option<CoverageError>
    decreases fs.len(),
{
    if fs.len() == 0 {
        None
    } else {
        match functions_error(fs.drop_last(), s) {
            Some(e) => Some(e),
            None => function_error(fs.last().ranges@, s),
        }
    }
}

/// The nonempty ranges of a list, in order.
pub open spec fn nonempty_ranges(rs: Seq<CoverageRange>) -> Seq<CoverageRange>
    decreases rs.len(),
{
    if rs.len() == 0 {
        Seq::empty()
    } else if rs.last().start_offset < rs.last().end_offset {
        nonempty_ranges(rs.drop_last()).push(rs.last())
    } else {
        nonempty_ranges(rs.drop_last())
    }
}

/// All nonempty ranges of all functions, in input order.
pub open spec fn flat_ranges(fs: Seq<FunctionCoverage>) -> Seq<CoverageRange>
    decreases fs.len(),
{
    if fs.len() == 0 {
        Seq::empty()
    } else {
        flat_ranges(fs.drop_last()) + nonempty_ranges(fs.last().ranges@)
    }
}

pub open spec fn contains_point(r: CoverageRange, p: int) -> bool {
    r.start_offset <= p < r.end_offset
}

/// Range `a` precedes range `b` in nesting order: outer ranges first, then input order.
pub open spec fn nests_before(f: Seq<CoverageRange>, a: int, b: int) -> bool {
    ||| f[a].start_offset < f[b].start_offset
    ||| f[a].start_offset == f[b].start_offset && f[a].end_offset > f[b].end_offset
    ||| f[a].start_offset == f[b].start_offset && f[a].end_offset == f[b].end_offset && a < b
}

/// Range `j` is the innermost range containing `p`: it overrides every other one.
pub open spec fn innermost(f: Seq<CoverageRange>, j: int, p: int) -> bool {
    &&& 0 <= j < f.len()
    &&& contains_point(f[j], p)
    &&& forall|k: int|
        0 <= k < f.len() && k != j && #[trigger] contains_point(f[k], p) ==> nests_before(f, k, j)
}

/// Point `p` executed: the innermost range containing it has a positive count.
pub open spec fn executed(f: Seq<CoverageRange>, p: int) -> bool {
    exists|j: int| #[trigger] innermost(f, j, p) && f[j].count > 0
}

/// Two ranges partly overlap.
pub open spec fn has_crossing(f: Seq<CoverageRange>) -> bool {
    exists|a: int, b: int|
        0 <= a < f.len() && 0 <= b < f.len() && #[trigger] f[a].start_offset < #[trigger] f[b].start_offset
            < f[a].end_offset < f[b].end_offset
}


proof fn lemma_ranges_error_prefix(rs: Seq<CoverageRange>, k: int, k2: int, s: Seq<char>)
    requires
        0 <= k <= k2,
        ranges_error(rs, k, s) is Some,
    ensures
        ranges_error(rs, k2, s) == ranges_error(rs, k, s),
    decreases k2,
{
    if k2 > k {
        lemma_ranges_error_prefix(rs, k, k2 - 1, s);
    }
}

proof fn lemma_functions_error_prefix(fs: Seq<FunctionCoverage>, k: int, s: Seq<char>)
    requires
        0 <= k <= fs.len(),
        functions_error(fs.take(k), s) is Some,
    ensures
        functions_error(fs, s) == functions_error(fs.take(k), s),
    decreases fs.len(),
{
    if k < fs.len() {
        assert(fs.drop_last().take(k) == fs.take(k));
        lemma_functions_error_prefix(fs.drop_last(), k, s);
    } else {
        assert(fs.take(k) == fs);
    }
}

/// Validates every range and collects the nonempty ones in input order.
fn collect_ranges(functions: &Vec<FunctionCoverage>, text: &TextIndex) -> (r: Result<
    Vec<CoverageRange>,
    CoverageError,
>)
    requires
        text.wf(),
    ensures
        r is Ok <==> functions_error(functions@, text@) is None,
        r matches Ok(v) ==> v@ == flat_ranges(functions@),
        r matches Err(e) ==> functions_error(functions@, text@) == Some(e),
{
    let ghost s = text@;
    let mut flat: Vec<CoverageRange> = Vec::new();
    let nf = functions.len();
    for fi in 0..nf
        invariant
            nf == functions@.len(),
            text.wf(),
            s == text@,
            functions_error(functions@.take(fi as int), s) is None,
            flat@ == flat_ranges(functions@.take(fi as int)),
    {
        let ghost fs1 = functions@.take(fi + 1);
        proof {
            assert(fs1.drop_last() == functions@.take(fi as int));
            assert(fs1.last() == functions@[fi as int]);
        }
        let nr = functions[fi].ranges.len();
        if nr == 0 {
            proof {
                lemma_functions_error_prefix(functions@, fi + 1, s);
            }
            return Err(CoverageError::NoRanges);
        }
        let root = functions[fi].ranges[0];
        let ghost rs = functions@[fi as int].ranges@;
        let ghost base = flat@;
        for ri in 0..nr
            invariant
                nf == functions@.len(),
                0 <= fi < nf,
                nr == rs.len(),
                rs == functions@[fi as int].ranges@,
                root == rs[0],
                text.wf(),
                s == text@,
                fs1 == functions@.take(fi + 1),
                fs1.drop_last() == functions@.take(fi as int),
                fs1.last() == functions@[fi as int],
                functions_error(functions@.take(fi as int), s) is None,
                base == flat_ranges(functions@.take(fi as int)),
                ranges_error(rs, ri as int, s) is None,
                flat@ == base + nonempty_ranges(rs.take(ri as int)),
        {
            let range = functions[fi].ranges[ri];
            let ghost rs1 = rs.take(ri + 1);
            proof {
                assert(rs1.drop_last() == rs.take(ri as int));
                assert(rs1.last() == range);
            }
            let bad = if range.start_offset > range.end_offset {
                Some(CoverageError::ReversedRange)
            } else if !(range.start_offset >= root.start_offset && range.end_offset
                <= root.end_offset) {
                Some(CoverageError::OutsideFunction)
            } else {
                match text.byte(range.start_offset) {
                    Err(e) => Some(CoverageError::Offset(e)),
                    Ok(_) => match text.byte(range.end_offset) {
                        Err(e) => Some(CoverageError::Offset(e)),
                        Ok(_) => None,
                    },
                }
            };
            if let Some(e) = bad {
                proof {
                    assert(ranges_error(rs, ri + 1, s) == Some(e));
                    lemma_ranges_error_prefix(rs, ri + 1, nr as int, s);
                    assert(functions_error(fs1, s) == Some(e));
                    lemma_functions_error_prefix(functions@, fi + 1, s);
                }
                return Err(e);
            }
            if range.start_offset != range.end_offset {
                flat.push(range);
            }
            proof {
                assert(ranges_error(rs, ri + 1, s) is None);
            }
        }
        proof {
            assert(rs.take(nr as int) == rs);
            assert(functions_error(fs1, s) is None);
            assert(flat_ranges(fs1) == base + nonempty_ranges(rs));
        }
    }
    proof {
        assert(functions@.take(nf as int) == functions@);
    }
    Ok(flat)
}


/// Ranges in nesting order: by start, then longest first.
pub open spec fn nest_sorted(g: Seq<CoverageRange>) -> bool {
    forall|a: int, b: int|
        0 <= a < b < g.len() ==> #[trigger] g[a].start_offset < #[trigger] g[b].start_offset || (
        g[a].start_offset == g[b].start_offset && g[a].end_offset >= g[b].end_offset)
}

pub open spec fn all_nonempty_ranges(g: Seq<CoverageRange>) -> bool {
    forall|a: int| 0 <= a < g.len() ==> #[trigger] g[a].start_offset < g[a].end_offset
}

/// Every later range is nested in or after every earlier one.
pub open spec fn laminar_sorted(g: Seq<CoverageRange>, upto: int) -> bool {
    forall|a: int, b: int|
        0 <= a < b < upto ==> (#[trigger] g[a].start_offset <= #[trigger] g[b].start_offset
            && g[b].end_offset <= g[a].end_offset) || g[b].start_offset >= g[a].end_offset
}

/// `p` executed in nesting order: the last range containing it has a positive count.
pub open spec fn executed_sorted(g: Seq<CoverageRange>, p: int) -> bool {
    exists|t: int|
        0 <= t < g.len() && contains_point(#[trigger] g[t], p) && g[t].count > 0 && forall|t2: int|
            t < t2 < g.len() ==> !contains_point(#[trigger] g[t2], p)
}

pub open spec fn on_stack(sp: Seq<int>, t: int) -> bool {
    exists|i: int| 0 <= i < sp.len() && sp[i] == t
}

pub open spec fn touching_sorted(u: Seq<Interval>, cursor: int) -> bool {
    &&& forall|k: int| 0 <= k < u.len() ==> #[trigger] u[k].start < u[k].end <= cursor
    &&& forall|k1: int, k2: int| 0 <= k1 < k2 < u.len() ==> #[trigger] u[k1].end <= #[trigger] u[k2].start
}

pub open spec fn stack_shape(g: Seq<CoverageRange>, stack: Seq<CoverageRange>, sp: Seq<int>, t: int) -> bool {
    &&& stack.len() == sp.len()
    &&& forall|i: int| 0 <= i < sp.len() ==> 0 <= #[trigger] sp[i] < t && stack[i] == g[sp[i]]
    &&& forall|i: int, j: int| 0 <= i < j < sp.len() ==> #[trigger] sp[i] < #[trigger] sp[j]
    &&& forall|i: int, j: int|
        0 <= i < j < sp.len() ==> #[trigger] g[sp[i]].start_offset <= #[trigger] g[sp[j]].start_offset
            && g[sp[j]].end_offset <= g[sp[i]].end_offset
}

/// Points before `cursor` are covered exactly when executed.
pub open spec fn settled(g: Seq<CoverageRange>, u: Seq<Interval>, cursor: int) -> bool {
    forall|p: int| p < cursor ==> (covers(u, p) <==> #[trigger] executed_sorted(g, p))
}

proof fn lemma_emit(
    g: Seq<CoverageRange>,
    u: Seq<Interval>,
    u2: Seq<Interval>,
    cursor: int,
    next: int,
    owner: Option<int>,
    sp: Seq<int>,
    t: int,
)
    requires
        0 <= cursor <= next,
        0 <= t <= g.len(),
        settled(g, u, cursor),
        touching_sorted(u, cursor),
        forall|t2: int| t <= t2 < g.len() ==> #[trigger] g[t2].start_offset >= next,
        forall|t2: int| 0 <= t2 < t && #[trigger] g[t2].end_offset > cursor ==> on_stack(sp, t2),
        forall|i: int| 0 <= i < sp.len() ==> 0 <= #[trigger] sp[i] < t,
        forall|i: int, j: int| 0 <= i < j < sp.len() ==> #[trigger] sp[i] < #[trigger] sp[j],
        owner matches Some(o) ==> sp.len() > 0 && o == sp.last() && g[o].start_offset <= cursor
            && next <= g[o].end_offset,
        owner is None ==> sp.len() == 0,
        u2 == (if owner matches Some(o) && g[o].count > 0 && next > cursor {
            u.push(Interval { start: cursor as usize, end: next as usize })
        } else {
            u
        }),
        next <= usize::MAX,
    ensures
        settled(g, u2, next),
        touching_sorted(u2, next),
{
    let pushed = owner matches Some(o) && g[o].count > 0 && next > cursor;
    let item = Interval { start: cursor as usize, end: next as usize };
    if pushed {
        assert(u2 == u.push(item));
        assert forall|k: int| 0 <= k < u2.len() implies #[trigger] u2[k].start < u2[k].end <= next by {
            if k < u.len() {
                assert(u2[k] == u[k]);
            }
        }
        assert forall|k1: int, k2: int| 0 <= k1 < k2 < u2.len() implies #[trigger] u2[k1].end
            <= #[trigger] u2[k2].start by {
            assert(u2[k1] == u[k1]);
            assert(u[k1].start < u[k1].end <= cursor);
            if k2 < u.len() {
                assert(u2[k2] == u[k2]);
            }
        }
    } else {
        assert(u2 == u);
    }
    assert forall|p: int| p < next implies (covers(u2, p) <==> #[trigger] executed_sorted(g, p)) by {
        if p < cursor {
            if covers(u2, p) {
                let k = choose|k: int| 0 <= k < u2.len() && (#[trigger] u2[k]).start <= p < u2[k].end;
                if k < u.len() {
                    assert(u2[k] == u[k]);
                }
            }
            if covers(u, p) {
                let k = choose|k: int| 0 <= k < u.len() && (#[trigger] u[k]).start <= p < u[k].end;
                assert(u2[k] == u[k]);
            }
        } else {
            if covers(u, p) {
                let k = choose|k: int| 0 <= k < u.len() && (#[trigger] u[k]).start <= p < u[k].end;
            }
            assert(!covers(u, p));
            if let Some(o) = owner {
                if g[o].count > 0 {
                    assert(u2.last().start <= p < u2.last().end);
                    assert(covers(u2, p));
                    assert forall|t2: int| o < t2 < g.len() implies !contains_point(#[trigger] g[t2], p) by {
                        if t2 < t && contains_point(g[t2], p) {
                            assert(on_stack(sp, t2));
                            let i = choose|i: int| 0 <= i < sp.len() && sp[i] == t2;
                            if i < sp.len() - 1 {
                                assert(sp[i] < sp[sp.len() - 1]);
                            }
                        }
                    }
                    assert(contains_point(g[o], p));
                    assert(executed_sorted(g, p));
                } else {
                    if covers(u2, p) {
                        let k = choose|k: int| 0 <= k < u2.len() && (#[trigger] u2[k]).start <= p < u2[k].end;
                        assert(u2[k] == u[k]);
                    }
                    if executed_sorted(g, p) {
                        let t0 = choose|t0: int|
                            0 <= t0 < g.len() && contains_point(#[trigger] g[t0], p) && g[t0].count > 0
                                && forall|t2: int| t0 < t2 < g.len() ==> !contains_point(#[trigger] g[t2], p);
                        if t0 < o {
                            assert(contains_point(g[o], p));
                        } else if t0 > o {
                            if t0 < t {
                                assert(on_stack(sp, t0));
                                let i = choose|i: int| 0 <= i < sp.len() && sp[i] == t0;
                                if i < sp.len() - 1 {
                                    assert(sp[i] < sp[sp.len() - 1]);
                                }
                            }
                        }
                    }
                }
            } else {
                if executed_sorted(g, p) {
                    let t0 = choose|t0: int|
                        0 <= t0 < g.len() && contains_point(#[trigger] g[t0], p) && g[t0].count > 0
                            && forall|t2: int| t0 < t2 < g.len() ==> !contains_point(#[trigger] g[t2], p);
                    if t0 < t {
                        assert(on_stack(sp, t0));
                    }
                }
            }
        }
    }
}


proof fn lemma_chain(g: Seq<CoverageRange>, stack: Seq<CoverageRange>, sp: Seq<int>, t: int, i: int)
    requires
        stack_shape(g, stack, sp, t),
        0 <= i < sp.len(),
    ensures
        g[sp[i]].end_offset >= g[sp.last()].end_offset,
        g[sp[i]].start_offset <= g[sp.last()].start_offset,
{
    if i < sp.len() - 1 {
        assert(g[sp[i]].start_offset <= g[sp[sp.len() - 1]].start_offset);
    }
}

proof fn lemma_after_pop(g: Seq<CoverageRange>, old_stack: Seq<CoverageRange>, sp_old: Seq<int>, t: int, cursor: int)
    requires
        stack_shape(g, old_stack, sp_old, t),
        sp_old.len() > 0,
        forall|i: int| 0 <= i < sp_old.len() ==> #[trigger] g[sp_old[i]].start_offset <= cursor <= g[sp_old[i]].end_offset,
        forall|t2: int| 0 <= t2 < t && #[trigger] g[t2].end_offset > cursor ==> on_stack(sp_old, t2),
    ensures
        ({
            let sp = sp_old.drop_last();
            let c2 = g[sp_old.last()].end_offset as int;
            &&& stack_shape(g, old_stack.drop_last(), sp, t)
            &&& forall|i: int| 0 <= i < sp.len() ==> #[trigger] g[sp[i]].start_offset <= c2 <= g[sp[i]].end_offset
            &&& forall|t2: int| 0 <= t2 < t && #[trigger] g[t2].end_offset > c2 ==> on_stack(sp, t2)
            &&& cursor <= c2
        }),
{
    let sp = sp_old.drop_last();
    let top = sp_old.last();
    let c2 = g[top].end_offset as int;
    assert(g[sp_old[sp_old.len() - 1]].start_offset <= cursor <= g[sp_old[sp_old.len() - 1]].end_offset);
    assert forall|t2: int| 0 <= t2 < t && #[trigger] g[t2].end_offset > c2 implies on_stack(sp, t2) by {
        assert(on_stack(sp_old, t2));
        let i = choose|i: int| 0 <= i < sp_old.len() && sp_old[i] == t2;
        assert(i < sp_old.len() - 1);
        assert(sp[i] == t2);
    }
    assert forall|i: int| 0 <= i < sp.len() implies 0 <= #[trigger] sp[i] < t && old_stack.drop_last()[i] == g[sp[i]] by {
        assert(sp[i] == sp_old[i]);
    }
    assert forall|i: int, j: int| 0 <= i < j < sp.len() implies #[trigger] sp[i] < #[trigger] sp[j] by {
        assert(sp[i] == sp_old[i] && sp[j] == sp_old[j]);
    }
    assert forall|i: int, j: int|
        0 <= i < j < sp.len() implies #[trigger] g[sp[i]].start_offset <= #[trigger] g[sp[j]].start_offset
            && g[sp[j]].end_offset <= g[sp[i]].end_offset by {
        assert(sp[i] == sp_old[i] && sp[j] == sp_old[j]);
        assert(g[sp_old[i]].start_offset <= g[sp_old[j]].start_offset);
    }
    assert forall|i: int|
        0 <= i < sp.len() implies #[trigger] g[sp[i]].start_offset <= c2 <= g[sp[i]].end_offset by {
        assert(sp[i] == sp_old[i]);
        lemma_chain(g, old_stack, sp_old, t, i);
    }
}

proof fn lemma_after_push(
    g: Seq<CoverageRange>,
    old_stack: Seq<CoverageRange>,
    sp_old: Seq<int>,
    t: int,
    old_cursor: int,
)
    requires
        0 <= t < g.len(),
        nest_sorted(g),
        all_nonempty_ranges(g),
        stack_shape(g, old_stack, sp_old, t),
        forall|i: int|
            0 <= i < sp_old.len() ==> #[trigger] g[sp_old[i]].start_offset <= old_cursor <= g[sp_old[i]].end_offset,
        forall|t2: int| 0 <= t2 < t && #[trigger] g[t2].end_offset > old_cursor ==> on_stack(sp_old, t2),
        old_cursor <= g[t].start_offset,
        sp_old.len() > 0 ==> g[sp_old.last()].end_offset > g[t].start_offset && g[t].end_offset
            <= g[sp_old.last()].end_offset,
        laminar_sorted(g, t),
    ensures
        ({
            let sp = sp_old.push(t);
            let c2 = g[t].start_offset as int;
            &&& stack_shape(g, old_stack.push(g[t]), sp, t + 1)
            &&& forall|i: int| 0 <= i < sp.len() ==> #[trigger] g[sp[i]].start_offset <= c2 < g[sp[i]].end_offset
            &&& forall|t2: int| 0 <= t2 < t + 1 && #[trigger] g[t2].end_offset > c2 ==> on_stack(sp, t2)
            &&& laminar_sorted(g, t + 1)
        }),
{
    let sp = sp_old.push(t);
    let stack = old_stack.push(g[t]);
    let c2 = g[t].start_offset as int;
    let n = sp_old.len();
    assert forall|i: int| 0 <= i < sp.len() implies 0 <= #[trigger] sp[i] < t + 1 && stack[i] == g[sp[i]] by {
        if i < n {
            assert(sp[i] == sp_old[i]);
        }
    }
    assert forall|i: int, j: int| 0 <= i < j < sp.len() implies #[trigger] sp[i] < #[trigger] sp[j] by {
        assert(sp[i] == sp_old[i]);
        if j < n {
            assert(sp[j] == sp_old[j]);
        }
    }
    assert forall|i: int, j: int|
        0 <= i < j < sp.len() implies #[trigger] g[sp[i]].start_offset <= #[trigger] g[sp[j]].start_offset
            && g[sp[j]].end_offset <= g[sp[i]].end_offset by {
        assert(sp[i] == sp_old[i]);
        if j < n {
            assert(sp[j] == sp_old[j]);
            assert(g[sp_old[i]].start_offset <= g[sp_old[j]].start_offset);
        } else {
            assert(sp_old[i] < t);
            assert(g[sp_old[i]].start_offset < g[t].start_offset || (g[sp_old[i]].start_offset
                == g[t].start_offset && g[sp_old[i]].end_offset >= g[t].end_offset));
            lemma_chain(g, old_stack, sp_old, t, i);
        }
    }
    assert forall|i: int| 0 <= i < sp.len() implies #[trigger] g[sp[i]].start_offset <= c2 < g[sp[i]].end_offset by {
        if i < n {
            assert(sp[i] == sp_old[i]);
            assert(sp_old[i] < t);
            assert(g[sp_old[i]].start_offset < g[t].start_offset || (g[sp_old[i]].start_offset
                == g[t].start_offset && g[sp_old[i]].end_offset >= g[t].end_offset));
            lemma_chain(g, old_stack, sp_old, t, i);
        }
    }
    assert forall|t2: int| 0 <= t2 < t + 1 && #[trigger] g[t2].end_offset > c2 implies on_stack(sp, t2) by {
        if t2 < t {
            assert(on_stack(sp_old, t2));
            let i = choose|i: int| 0 <= i < sp_old.len() && sp_old[i] == t2;
            assert(sp[i] == t2);
        } else {
            assert(sp[n as int] == t2);
        }
    }
    assert forall|a: int, b: int|
        0 <= a < b < t + 1 implies (#[trigger] g[a].start_offset <= #[trigger] g[b].start_offset
            && g[b].end_offset <= g[a].end_offset) || g[b].start_offset >= g[a].end_offset by {
        if b == t {
            assert(g[a].start_offset < g[t].start_offset || (g[a].start_offset == g[t].start_offset
                && g[a].end_offset >= g[t].end_offset));
            if g[a].end_offset > old_cursor {
                assert(on_stack(sp_old, a));
                let i = choose|i: int| 0 <= i < sp_old.len() && sp_old[i] == a;
                lemma_chain(g, old_stack, sp_old, t, i);
            }
        }
    }
}

/// Resolves nesting over ranges in nesting order: each point takes the count
/// of the last range containing it.
#[verifier::spinoff_prover]
fn apply_nesting(g: &Vec<CoverageRange>) -> (r: Result<Vec<Interval>, CoverageError>)
    requires
        nest_sorted(g@),
        all_nonempty_ranges(g@),
    ensures
        r is Ok <==> laminar_sorted(g@, g@.len() as int),
        r matches Ok(u) ==> all_nonempty(u@) && well_formed(u@) && forall|p: int|
            covers(u@, p) <==> executed_sorted(g@, p),
        r matches Err(e) ==> e == CoverageError::CrossingRanges,
{
    let m = g.len();
    let mut stack: Vec<CoverageRange> = Vec::new();
    let ghost mut sp: Seq<int> = Seq::empty();
    let mut used: Vec<Interval> = Vec::new();
    let mut cursor: usize = 0;
    for t in 0..m
        invariant
            m == g@.len(),
            nest_sorted(g@),
            all_nonempty_ranges(g@),
            stack_shape(g@, stack@, sp, t as int),
            forall|i: int|
                0 <= i < sp.len() ==> #[trigger] g@[sp[i]].start_offset <= cursor < g@[sp[i]].end_offset,
            forall|t2: int| 0 <= t2 < t && #[trigger] g@[t2].end_offset > cursor ==> on_stack(sp, t2),
            forall|t2: int| t <= t2 < m ==> #[trigger] g@[t2].start_offset >= cursor,
            touching_sorted(used@, cursor as int),
            settled(g@, used@, cursor as int),
            laminar_sorted(g@, t as int),
    {
        let range = g[t];
        proof {
            assert forall|t2: int| t <= t2 < m implies #[trigger] g@[t2].start_offset >= range.start_offset by {
                if t2 > t {
                    assert(g@[t as int].start_offset < g@[t2].start_offset || g@[t as int].start_offset
                        == g@[t2].start_offset);
                }
            }
        }
        while stack.len() > 0 && stack[stack.len() - 1].end_offset <= range.start_offset
            invariant
                m == g@.len(),
                nest_sorted(g@),
                all_nonempty_ranges(g@),
                0 <= t < m,
                range == g@[t as int],
                stack_shape(g@, stack@, sp, t as int),
                forall|i: int|
                    0 <= i < sp.len() ==> #[trigger] g@[sp[i]].start_offset <= cursor
                        <= g@[sp[i]].end_offset,
                forall|t2: int|
                    0 <= t2 < t && #[trigger] g@[t2].end_offset > cursor ==> on_stack(sp, t2),
                cursor <= range.start_offset,
                forall|t2: int| t <= t2 < m ==> #[trigger] g@[t2].start_offset >= range.start_offset,
                touching_sorted(used@, cursor as int),
                settled(g@, used@, cursor as int),
                laminar_sorted(g@, t as int),
            decreases stack.len(),
        {
            let ghost old_stack = stack@;
            let top = stack.pop().unwrap();
            let ghost sp_old = sp;
            let ghost o = sp.last();
            let ghost u_old = used@;
            if top.count > 0 && top.end_offset > cursor {
                used.push(Interval { start: cursor, end: top.end_offset });
            }
            proof {
                assert(top == g@[o]);
                assert(g@[sp_old[sp_old.len() - 1]].start_offset <= cursor <= g@[sp_old[sp_old.len() - 1]].end_offset);
                lemma_emit(g@, u_old, used@, cursor as int, top.end_offset as int, Some(o), sp_old, t as int);
                lemma_after_pop(g@, old_stack, sp_old, t as int, cursor as int);
                sp = sp.drop_last();
                assert(stack@ == old_stack.drop_last());
            }
            cursor = top.end_offset;
        }
        let n = stack.len();
        if n > 0 && range.end_offset > stack[n - 1].end_offset {
            proof {
                let a = sp.last();
                assert(g@[a] == stack@[n - 1]);
                assert(a < t);
                assert(!((g@[a].start_offset <= g@[t as int].start_offset && g@[t as int].end_offset
                    <= g@[a].end_offset) || g@[t as int].start_offset >= g@[a].end_offset));
                assert(!laminar_sorted(g@, m as int));
            }
            return Err(CoverageError::CrossingRanges);
        }
        let ghost u_old = used@;
        let ghost owner: Option<int> = if n > 0 {
            Some(sp.last())
        } else {
            None
        };
        if n > 0 && stack[n - 1].count > 0 && range.start_offset > cursor {
            used.push(Interval { start: cursor, end: range.start_offset });
        }
        proof {
            if n > 0 {
                assert(stack@[n - 1] == g@[sp.last()]);
            }
            lemma_emit(g@, u_old, used@, cursor as int, range.start_offset as int, owner, sp, t as int);
            if n > 0 {
                assert(stack@[n - 1] == g@[sp.last()]);
            }
            lemma_after_push(g@, stack@, sp, t as int, cursor as int);
        }
        let ghost old_stack = stack@;
        cursor = range.start_offset;
        stack.push(range);
        proof {
            sp = sp.push(t as int);
            assert(stack@ == old_stack.push(g@[t as int]));
            assert forall|t2: int| t + 1 <= t2 < m implies #[trigger] g@[t2].start_offset >= cursor by {
                assert(g@[t as int].start_offset < g@[t2].start_offset || g@[t as int].start_offset
                    == g@[t2].start_offset);
            }
        }
    }
    while stack.len() > 0
        invariant
            m == g@.len(),
            stack_shape(g@, stack@, sp, m as int),
            forall|i: int|
                0 <= i < sp.len() ==> #[trigger] g@[sp[i]].start_offset <= cursor <= g@[sp[i]].end_offset,
            forall|t2: int| 0 <= t2 < m && #[trigger] g@[t2].end_offset > cursor ==> on_stack(sp, t2),
            touching_sorted(used@, cursor as int),
            settled(g@, used@, cursor as int),
            laminar_sorted(g@, m as int),
        decreases stack.len(),
    {
        let ghost old_stack = stack@;
        let top = stack.pop().unwrap();
        let ghost sp_old = sp;
        let ghost o = sp.last();
        let ghost u_old = used@;
        if top.count > 0 && top.end_offset > cursor {
            used.push(Interval { start: cursor, end: top.end_offset });
        }
        proof {
            assert(top == g@[o]);
            assert(g@[sp_old[sp_old.len() - 1]].start_offset <= cursor <= g@[sp_old[sp_old.len() - 1]].end_offset);
            lemma_emit(g@, u_old, used@, cursor as int, top.end_offset as int, Some(o), sp_old, m as int);
            lemma_after_pop(g@, old_stack, sp_old, m as int, cursor as int);
            sp = sp.drop_last();
            assert(stack@ == old_stack.drop_last());
        }
        cursor = top.end_offset;
    }
    proof {
        assert forall|p: int| covers(used@, p) <==> executed_sorted(g@, p) by {
            if p >= cursor {
                if covers(used@, p) {
                    let k = choose|k: int| 0 <= k < used@.len() && (#[trigger] used@[k]).start <= p < used@[k].end;
                    assert(used@[k].end <= cursor);
                }
                if executed_sorted(g@, p) {
                    let t0 = choose|t0: int|
                        0 <= t0 < g@.len() && contains_point(#[trigger] g@[t0], p) && g@[t0].count > 0
                            && forall|t2: int| t0 < t2 < g@.len() ==> !contains_point(#[trigger] g@[t2], p);
                    assert(g@[t0].end_offset > cursor);
                    assert(on_stack(sp, t0));
                }
            }
        }
        assert forall|k: int| 0 <= k < used@.len() implies #[trigger] used@[k].start < used@[k].end by {
            assert(used@[k].start < used@[k].end <= cursor);
        }
    }
    Ok(used)
}

/// A permutation of `f` into nesting order.
pub open spec fn nesting_permutation(f: Seq<CoverageRange>, g: Seq<CoverageRange>, perm: Seq<int>) -> bool {
    &&& g.len() == f.len()
    &&& perm.len() == f.len()
    &&& forall|t: int| 0 <= t < perm.len() ==> 0 <= #[trigger] perm[t] < f.len() && g[t] == f[perm[t]]
    &&& forall|a: int, b: int|
        0 <= a < b < perm.len() ==> nests_before(f, #[trigger] perm[a], #[trigger] perm[b])
    &&& forall|j: int| 0 <= j < f.len() ==> #[trigger] hits(perm, j)
}

/// Some position of `perm` holds `j`.
pub open spec fn hits(perm: Seq<int>, j: int) -> bool {
    exists|t: int| 0 <= t < perm.len() && #[trigger] perm[t] == j
}

/// Orders ranges outer-first: by start, longer first, then input order.
fn nesting_order(flat: &Vec<CoverageRange>) -> (r: (Vec<CoverageRange>, Ghost<Seq<int>>))
    ensures
        nesting_permutation(flat@, r.0@, r.1@),
{
    broadcast use vstd::seq_lib::group_to_multiset_ensures;

    let m = flat.len();
    let mut keys: Vec<Key> = Vec::new();
    for j in 0..m
        invariant
            m == flat@.len(),
            keys@.len() == j,
            forall|k: int|
                0 <= k < j ==> #[trigger] keys@[k] == (
                    flat@[k].start_offset,
                    (usize::MAX - flat@[k].end_offset) as usize,
                    k as usize,
                ),
    {
        keys.push((flat[j].start_offset, usize::MAX - flat[j].end_offset, j));
    }
    let ghost unsorted = keys@;
    let sorted = sort_keys(keys);
    proof {
        assert(unsorted.no_duplicates());
        unsorted.lemma_multiset_has_no_duplicates();
        sorted@.lemma_multiset_has_no_duplicates_conv();
        assert forall|t: int| 0 <= t < sorted@.len() implies #[trigger] sorted@[t].2 < m && sorted@[t]
            == unsorted[sorted@[t].2 as int] by {
            assert(sorted@.contains(sorted@[t]));
            assert(unsorted.to_multiset().count(sorted@[t]) > 0);
            assert(unsorted.contains(sorted@[t]));
        }
    }
    let mut g: Vec<CoverageRange> = Vec::new();
    let ghost mut perm: Seq<int> = Seq::empty();
    let n = sorted.len();
    for t in 0..n
        invariant
            n == sorted@.len(),
            m == flat@.len(),
            n == m,
            g@.len() == t,
            perm.len() == t,
            forall|k: int| 0 <= k < sorted@.len() ==> #[trigger] sorted@[k].2 < m && sorted@[k]
                == unsorted[sorted@[k].2 as int],
            forall|k: int| 0 <= k < t ==> #[trigger] perm[k] == sorted@[k].2 as int && g@[k] == flat@[perm[k]],
    {
        let j = sorted[t].2;
        g.push(flat[j]);
        proof {
            perm = perm.push(j as int);
        }
    }
    proof {
        assert forall|a: int, b: int| 0 <= a < b < perm.len() implies nests_before(
            flat@,
            #[trigger] perm[a],
            #[trigger] perm[b],
        ) by {
            assert(key_le(sorted@[a], sorted@[b]));
            assert(sorted@[a] != sorted@[b]);
        }
        assert forall|j: int| 0 <= j < flat@.len() implies #[trigger] hits(perm, j) by {
            assert(unsorted.contains(unsorted[j]));
            assert(sorted@.to_multiset().count(unsorted[j]) > 0);
            assert(sorted@.contains(unsorted[j]));
            let t = choose|t: int| 0 <= t < sorted@.len() && sorted@[t] == unsorted[j];
            assert(perm[t] == j);
        }
    }
    (g, Ghost(perm))
}

proof fn lemma_nesting_bridge(f: Seq<CoverageRange>, g: Seq<CoverageRange>, perm: Seq<int>)
    requires
        nesting_permutation(f, g, perm),
    ensures
        nest_sorted(g),
        laminar_sorted(g, g.len() as int) <==> !has_crossing(f),
        forall|p: int| executed_sorted(g, p) <==> #[trigger] executed(f, p),
{
    assert forall|a: int, b: int| 0 <= a < b < g.len() implies #[trigger] g[a].start_offset
        < #[trigger] g[b].start_offset || (g[a].start_offset == g[b].start_offset
        && g[a].end_offset >= g[b].end_offset) by {
        assert(nests_before(f, perm[a], perm[b]));
    }
    if laminar_sorted(g, g.len() as int) && has_crossing(f) {
        let (a, b) = choose|a: int, b: int|
            0 <= a < f.len() && 0 <= b < f.len() && #[trigger] f[a].start_offset
                < #[trigger] f[b].start_offset < f[a].end_offset < f[b].end_offset;
        assert(hits(perm, a) && hits(perm, b));
        let ta = choose|t: int| 0 <= t < perm.len() && #[trigger] perm[t] == a;
        let tb = choose|t: int| 0 <= t < perm.len() && #[trigger] perm[t] == b;
        if ta < tb {
            assert(g[ta].start_offset <= g[tb].start_offset);
        } else if tb < ta {
            assert(nests_before(f, perm[tb], perm[ta]));
        }
    }
    if !has_crossing(f) {
        assert forall|a: int, b: int| 0 <= a < b < g.len() implies (#[trigger] g[a].start_offset
            <= #[trigger] g[b].start_offset && g[b].end_offset <= g[a].end_offset)
            || g[b].start_offset >= g[a].end_offset by {
            assert(nests_before(f, perm[a], perm[b]));
            let x = perm[a];
            let y = perm[b];
            if f[x].start_offset < f[y].start_offset && f[y].start_offset < f[x].end_offset
                && f[x].end_offset < f[y].end_offset {
                assert(f[x].start_offset < f[y].start_offset);
            }
        }
    }
    assert forall|p: int| executed_sorted(g, p) <==> #[trigger] executed(f, p) by {
        if executed_sorted(g, p) {
            let t = choose|t: int|
                0 <= t < g.len() && contains_point(#[trigger] g[t], p) && g[t].count > 0 && forall|t2: int|
                    t < t2 < g.len() ==> !contains_point(#[trigger] g[t2], p);
            let j = perm[t];
            assert forall|k: int|
                0 <= k < f.len() && k != j && #[trigger] contains_point(f[k], p) implies nests_before(f, k, j) by {
                assert(hits(perm, k));
                let tk = choose|tk: int| 0 <= tk < perm.len() && #[trigger] perm[tk] == k;
                if tk > t {
                    assert(contains_point(g[tk], p));
                } else if tk < t {
                    assert(nests_before(f, perm[tk], perm[t]));
                }
            }
            assert(innermost(f, j, p));
        }
        if executed(f, p) {
            let j = choose|j: int| #[trigger] innermost(f, j, p) && f[j].count > 0;
            assert(hits(perm, j));
            let t = choose|t: int| 0 <= t < perm.len() && #[trigger] perm[t] == j;
            assert forall|t2: int| t < t2 < g.len() implies !contains_point(#[trigger] g[t2], p) by {
                if contains_point(g[t2], p) {
                    assert(nests_before(f, perm[t], perm[t2]));
                    assert(perm[t2] != j);
                    assert(contains_point(f[perm[t2]], p));
                    assert(nests_before(f, perm[t2], j));
                }
            }
            assert(contains_point(g[t], p));
        }
    }
}

/// Used ranges of one recording's functions, in UTF-16 offsets: a child range
/// overrides its parent, so an executed child inside an unexecuted function
/// counts, and an unexecuted block inside an executed function does not.
pub fn used_ranges(functions: &Vec<FunctionCoverage>, text: &TextIndex) -> (r: Result<
    Vec<Interval>,
    CoverageError,
>)
    requires
        text.wf(),
    ensures
        r is Ok <==> functions_error(functions@, text@) is None && !has_crossing(
            flat_ranges(functions@),
        ),
        r matches Ok(v) ==> normalized(v@) && forall|p: int|
            covers(v@, p) <==> #[trigger] executed(flat_ranges(functions@), p),
        r matches Err(e) ==> match functions_error(functions@, text@) {
            Some(first) => e == first,
            None => e == CoverageError::CrossingRanges,
        },
{
    let flat = match collect_ranges(functions, text) {
        Ok(flat) => flat,
        Err(e) => return Err(e),
    };
    let (g, Ghost(perm)) = nesting_order(&flat);
    proof {
        lemma_nesting_bridge(flat@, g@, perm);
        assert forall|a: int| 0 <= a < g@.len() implies #[trigger] g@[a].start_offset < g@[a].end_offset by {
            lemma_flat_nonempty(functions@);
            assert(g@[a] == flat@[perm[a]]);
        }
    }
    let used = match apply_nesting(&g) {
        Ok(used) => used,
        Err(e) => return Err(e),
    };
    let merged = union(used);
    proof {
        assert forall|p: int| covers(merged@, p) <==> #[trigger] executed(flat_ranges(functions@), p) by {
            assert(covers(merged@, p) <==> covers(used@, p));
            assert(executed_sorted(g@, p) <==> executed(flat@, p));
        }
    }
    Ok(merged)
}

proof fn lemma_nonempty_ranges(rs: Seq<CoverageRange>)
    ensures
        all_nonempty_ranges(nonempty_ranges(rs)),
    decreases rs.len(),
{
    if rs.len() > 0 {
        lemma_nonempty_ranges(rs.drop_last());
    }
}

proof fn lemma_flat_nonempty(fs: Seq<FunctionCoverage>)
    ensures
        all_nonempty_ranges(flat_ranges(fs)),
    decreases fs.len(),
{
    if fs.len() > 0 {
        lemma_flat_nonempty(fs.drop_last());
        lemma_nonempty_ranges(fs.last().ranges@);
        let a = flat_ranges(fs.drop_last());
        let b = nonempty_ranges(fs.last().ranges@);
        assert forall|k: int| 0 <= k < (a + b).len() implies #[trigger] (a + b)[k].start_offset
            < (a + b)[k].end_offset by {
            if k < a.len() {
                assert((a + b)[k] == a[k]);
            } else {
                assert((a + b)[k] == b[k - a.len()]);
            }
        }
    }
}

} // verus!
