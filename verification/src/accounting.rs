//! One bundle's bytes: per segment, per source, and as status spans.
use vstd::prelude::*;

use crate::analysis::{BundleSource, Counts, Span, Status, Tally, balanced, plus, tally_of, zero_tally};
use crate::attribution::{package, package_name, unmapped_chars, unmapped_name};
use crate::coverage::{Interval, covers, normalized};
use crate::decoding::Segment;
use crate::scenario::{covered_in, lemma_overlap_counts_bytes, overlap};
use crate::strings::{chars_of, same_chars};
use crate::text::{TextError, TextIndex, byte_at, is_byte_boundary, unit_at};
use crate::attribution::OriginalPosition;

verus! {

/// Segments that cut `[0, len)` into consecutive, possibly empty, pieces.
pub open spec fn contiguous(segs: Seq<Segment>, len: int) -> bool {
    &&& segs.len() == 0 ==> len == 0
    &&& segs.len() > 0 ==> segs[0].start == 0 && segs.last().end == len
    &&& forall|k: int| 0 <= k < segs.len() ==> #[trigger] segs[k].start <= segs[k].end
    &&& forall|k: int| 0 <= k < segs.len() - 1 ==> #[trigger] segs[k].end == segs[k + 1].start
}

/// What coverage says of byte `p`: unmeasured without a recording.
pub open spec fn status_at(used: Option<Seq<Interval>>, p: int) -> Status {
    match used {
        None => Status::Unmeasured,
        Some(u) => if covers(u, p) {
            Status::Observed
        } else {
            Status::Unobserved
        },
    }
}

/// The counts of one segment.
pub open spec fn segment_tally(seg: Segment, used: Option<Seq<Interval>>) -> Tally {
    let b = seg.end - seg.start;
    match used {
        None => Tally { bytes: b, observed: 0, unobserved: 0, unmeasured: b },
        Some(u) => {
            let o = covered_in(seg.start as int, seg.end as int, u);
            Tally { bytes: b, observed: o, unobserved: b - o, unmeasured: 0 }
        },
    }
}

/// The counts of all segments.
pub open spec fn tally_sum(segs: Seq<Segment>, used: Option<Seq<Interval>>) -> Tally
    decreases segs.len(),
{
    if segs.len() == 0 {
        zero_tally()
    } else {
        plus(tally_sum(segs.drop_last(), used), segment_tally(segs.last(), used))
    }
}

/// The counts of the segments attributed to `name`.
pub open spec fn source_tally(segs: Seq<Segment>, used: Option<Seq<Interval>>, name: Seq<char>) -> Tally
    decreases segs.len(),
{
    if segs.len() == 0 {
        zero_tally()
    } else if segs.last().source@ == name {
        plus(source_tally(segs.drop_last(), used, name), segment_tally(segs.last(), used))
    } else {
        source_tally(segs.drop_last(), used, name)
    }
}

/// Bytes attributed to some source other than `[unmapped]`.
pub open spec fn mapped_sum(segs: Seq<Segment>) -> int
    decreases segs.len(),
{
    if segs.len() == 0 {
        0
    } else {
        mapped_sum(segs.drop_last()) + if segs.last().source@ == unmapped_name() {
            0int
        } else {
            segs.last().end - segs.last().start
        }
    }
}

/// Source names in order of first appearance.
pub open spec fn first_names(names: Seq<Seq<char>>) -> Seq<Seq<char>>
    decreases names.len(),
{
    if names.len() == 0 {
        Seq::empty()
    } else {
        let r = first_names(names.drop_last());
        if r.contains(names.last()) {
            r
        } else {
            r.push(names.last())
        }
    }
}

pub open spec fn segment_names(segs: Seq<Segment>) -> Seq<Seq<char>> {
    segs.map_values(|s: Segment| s.source@)
}

/// The content given for `name`, if any: the first pair that names it.
pub open spec fn content_for(contents: Seq<(String, String)>, name: Seq<char>) -> Option<Seq<char>>
    decreases contents.len(),
{
    if contents.len() == 0 {
        None
    } else if contents[0].0@ == name {
        Some(contents[0].1@)
    } else {
        content_for(contents.drop_first(), name)
    }
}

proof fn lemma_tally_step(segs: Seq<Segment>, used: Option<Seq<Interval>>, name: Seq<char>, k: int)
    requires
        0 <= k < segs.len(),
    ensures
        tally_sum(segs.take(k + 1), used) == plus(tally_sum(segs.take(k), used), segment_tally(segs[k], used)),
        source_tally(segs.take(k + 1), used, name) == if segs[k].source@ == name {
            plus(source_tally(segs.take(k), used, name), segment_tally(segs[k], used))
        } else {
            source_tally(segs.take(k), used, name)
        },
        mapped_sum(segs.take(k + 1)) == mapped_sum(segs.take(k)) + if segs[k].source@ == unmapped_name() {
            0int
        } else {
            segs[k].end - segs[k].start
        },
{
    assert(segs.take(k + 1).drop_last() =~= segs.take(k));
}

pub proof fn lemma_first_names_step(names: Seq<Seq<char>>, k: int)
    requires
        0 <= k < names.len(),
    ensures
        first_names(names.take(k + 1)) == if first_names(names.take(k)).contains(names[k]) {
            first_names(names.take(k))
        } else {
            first_names(names.take(k)).push(names[k])
        },
{
    assert(names.take(k + 1).drop_last() =~= names.take(k));
}

/// A name is listed exactly when some segment carries it.
pub proof fn lemma_first_names_contains(names: Seq<Seq<char>>, x: Seq<char>)
    ensures
        first_names(names).contains(x) <==> names.contains(x),
    decreases names.len(),
{
    if names.len() > 0 {
        let r = first_names(names.drop_last());
        lemma_first_names_contains(names.drop_last(), x);
        if names.drop_last().contains(x) {
            let i = choose|i: int| 0 <= i < names.drop_last().len() && names.drop_last()[i] == x;
            assert(names[i] == x);
        }
        if names.contains(x) {
            let i = choose|i: int| 0 <= i < names.len() && names[i] == x;
            if i < names.len() - 1 {
                assert(names.drop_last()[i] == x);
            }
        }
        if !r.contains(names.last()) {
            if r.push(names.last()).contains(x) {
                let i = choose|i: int| 0 <= i < r.push(names.last()).len() && r.push(names.last())[i] == x;
                if i < r.len() {
                    assert(r[i] == x);
                }
            }
            if r.contains(x) {
                let i = choose|i: int| 0 <= i < r.len() && r[i] == x;
                assert(r.push(names.last())[i] == x);
            }
            if x == names.last() {
                assert(r.push(names.last())[r.len() as int] == x);
            }
        }
    }
}

/// A name that no segment carries has no bytes.
pub proof fn lemma_source_tally_absent(segs: Seq<Segment>, used: Option<Seq<Interval>>, name: Seq<char>)
    requires
        !segment_names(segs).contains(name),
    ensures
        source_tally(segs, used, name) == zero_tally(),
    decreases segs.len(),
{
    if segs.len() > 0 {
        assert(segment_names(segs)[segs.len() - 1] == segs.last().source@);
        assert forall|i: int| 0 <= i < segment_names(segs.drop_last()).len() implies segment_names(segs.drop_last())[i]
            != name by {
            assert(segment_names(segs.drop_last())[i] == segment_names(segs)[i]);
        }
        lemma_source_tally_absent(segs.drop_last(), used, name);
    }
}

/// Per-segment counts balance, and contiguous segments count `[0, end)`.
pub proof fn lemma_tally_bounds(segs: Seq<Segment>, used: Option<Seq<Interval>>, name: Seq<char>, k: int, len: int)
    requires
        contiguous(segs, len),
        0 <= k <= segs.len(),
        used matches Some(u) ==> normalized(u),
    ensures
        balanced(tally_sum(segs.take(k), used)),
        tally_sum(segs.take(k), used).bytes == if k == 0 { 0 } else { segs[k - 1].end as int },
        balanced(source_tally(segs.take(k), used, name)),
        source_tally(segs.take(k), used, name).bytes <= tally_sum(segs.take(k), used).bytes,
        source_tally(segs.take(k), used, name).observed <= tally_sum(segs.take(k), used).observed,
        source_tally(segs.take(k), used, name).unobserved <= tally_sum(segs.take(k), used).unobserved,
        source_tally(segs.take(k), used, name).unmeasured <= tally_sum(segs.take(k), used).unmeasured,
        0 <= mapped_sum(segs.take(k)) <= tally_sum(segs.take(k), used).bytes,
    decreases k,
{
    if k == 0 {
        assert(segs.take(0) =~= Seq::<Segment>::empty());
    } else {
        lemma_tally_bounds(segs, used, name, k - 1, len);
        lemma_tally_step(segs, used, name, k - 1);
        lemma_segment_balanced(segs[k - 1], used);
        if k >= 2 {
            assert(segs[k - 2].end == segs[k - 1].start);
        }
    }
}

/// Without a recording every byte is unmeasured; with one, none is.
pub proof fn lemma_tally_measured(segs: Seq<Segment>, used: Option<Seq<Interval>>)
    ensures
        used is None ==> tally_sum(segs, used).unmeasured == tally_sum(segs, used).bytes && tally_sum(segs, used).observed == 0
            && tally_sum(segs, used).unobserved == 0,
        used is Some ==> tally_sum(segs, used).unmeasured == 0,
    decreases segs.len(),
{
    if segs.len() > 0 {
        lemma_tally_measured(segs.drop_last(), used);
    }
}

proof fn lemma_segment_balanced(seg: Segment, used: Option<Seq<Interval>>)
    requires
        seg.start <= seg.end,
        used matches Some(u) ==> normalized(u),
    ensures
        balanced(segment_tally(seg, used)),
        segment_tally(seg, used).bytes == seg.end - seg.start,
{
    if let Some(u) = used {
        lemma_overlap_counts_bytes(seg.start as int, seg.end as int, u);
        lemma_covered_bound(seg.start as int, seg.end as int, u);
    }
}

proof fn lemma_covered_bound(s: int, e: int, u: Seq<Interval>)
    requires
        s <= e,
    ensures
        0 <= covered_in(s, e, u) <= e - s,
    decreases e - s,
{
    if e > s {
        lemma_covered_bound(s, e - 1, u);
    }
}


proof fn lemma_ends_bounded(segs: Seq<Segment>, len: int, k: int)
    requires
        contiguous(segs, len),
        0 <= k < segs.len(),
    ensures
        segs[k].end <= len,
    decreases segs.len() - k,
{
    if k + 1 < segs.len() {
        lemma_ends_bounded(segs, len, k + 1);
    }
}

pub proof fn lemma_first_names_distinct(names: Seq<Seq<char>>)
    ensures
        first_names(names).no_duplicates(),
    decreases names.len(),
{
    if names.len() > 0 {
        lemma_first_names_distinct(names.drop_last());
        let r = first_names(names.drop_last());
        if !r.contains(names.last()) {
            let t = r.push(names.last());
            assert forall|i: int, j: int| 0 <= i < t.len() && 0 <= j < t.len() && i != j implies t[i] != t[j] by {
                if i < r.len() && j < r.len() {
                    assert(t[i] == r[i] && t[j] == r[j]);
                } else if i < r.len() {
                    assert(t[i] == r[i]);
                } else if j < r.len() {
                    assert(t[j] == r[j]);
                }
            }
        }
    }
}

pub open spec fn string_views(v: Seq<String>) -> Seq<Seq<char>> {
    v.map_values(|s: String| s@)
}

pub open spec fn used_view(used: Option<&Vec<Interval>>) -> Option<Seq<Interval>> {
    match used {
        Some(u) => Some(u@),
        None => None,
    }
}

/// The position of `name` in `names`, or the length.
pub fn position_of(names: &Vec<String>, name: &String) -> (r: usize)
    ensures
        r <= names@.len(),
        r < names@.len() ==> names@[r as int]@ == name@,
        r == names@.len() ==> !string_views(names@).contains(name@),
{
    let target = chars_of(name.as_str());
    let mut i: usize = 0;
    while i < names.len()
        invariant
            i <= names@.len(),
            target@ == name@,
            forall|j: int| 0 <= j < i ==> names@[j]@ != name@,
        decreases names@.len() - i,
    {
        if same_chars(&chars_of(names[i].as_str()), &target) {
            return i;
        }
        i = i + 1;
    }
    proof {
        if string_views(names@).contains(name@) {
            let j = choose|j: int| 0 <= j < string_views(names@).len() && string_views(names@)[j] == name@;
            assert(names@[j]@ == name@);
        }
    }
    i
}

/// The content given for `name`.
fn find_content(contents: &Vec<(String, String)>, name: &String) -> (r: Option<String>)
    ensures
        match r {
            Some(c) => content_for(contents@, name@) == Some(c@),
            None => content_for(contents@, name@) is None,
        },
{
    let target = chars_of(name.as_str());
    let mut i: usize = 0;
    proof {
        assert(contents@.subrange(0, contents@.len() as int) =~= contents@);
    }
    while i < contents.len()
        invariant
            i <= contents@.len(),
            target@ == name@,
            content_for(contents@, name@) == content_for(contents@.subrange(i as int, contents@.len() as int), name@),
        decreases contents@.len() - i,
    {
        let ghost rest = contents@.subrange(i as int, contents@.len() as int);
        proof {
            assert(rest.drop_first() =~= contents@.subrange(i + 1, contents@.len() as int));
            assert(rest[0] == contents@[i as int]);
        }
        if same_chars(&chars_of(contents[i].0.as_str()), &target) {
            return Some(contents[i].1.clone());
        }
        i = i + 1;
    }
    None
}

/// One bundle's counts, by source and in total.
#[derive(Debug)]
pub struct SourceAccount {
    pub counts: Counts,
    pub mapped_bytes: usize,
    pub sources: Vec<BundleSource>,
    /// For each segment, the index of its source.
    pub ids: Vec<usize>,
}

/// What `account_sources` promises of its result.
pub open spec fn accounted(
    segs: Seq<Segment>,
    used: Option<Seq<Interval>>,
    contents: Seq<(String, String)>,
    counts: Counts,
    mapped_bytes: usize,
    sources: Seq<BundleSource>,
    ids: Seq<usize>,
) -> bool {
    let names = first_names(segment_names(segs));
    &&& tally_of(counts) == tally_sum(segs, used)
    &&& mapped_bytes == mapped_sum(segs)
    &&& sources.len() == names.len()
    &&& forall|i: int|
        0 <= i < names.len() ==> {
            &&& (#[trigger] sources[i]).source@ == names[i]
            &&& sources[i].package@ == package_name(names[i])
            &&& match sources[i].content {
                Some(c) => content_for(contents, names[i]) == Some(c@),
                None => content_for(contents, names[i]) is None,
            }
            &&& tally_of(sources[i].counts) == source_tally(segs, used, names[i])
        }
    &&& ids.len() == segs.len()
    &&& forall|k: int| 0 <= k < segs.len() ==> #[trigger] ids[k] < names.len() && names[ids[k] as int] == segs[k].source@
}

/// Counts a bundle's segments: in total, as mapped bytes, and per source in
/// order of first appearance, each source with its package and content.
pub fn account_sources(
    segments: &Vec<Segment>,
    used: Option<&Vec<Interval>>,
    byte_len: usize,
    contents: &Vec<(String, String)>,
) -> (r: SourceAccount)
    requires
        contiguous(segments@, byte_len as int),
        used matches Some(u) ==> normalized(u@),
    ensures
        accounted(segments@, used_view(used), contents@, r.counts, r.mapped_bytes, r.sources@, r.ids@),
{
    let ghost segs = segments@;
    let ghost uv = used_view(used);
    let ghost seg_names = segment_names(segs);
    let empty: Vec<Interval> = Vec::new();
    let ranges: &Vec<Interval> = match used {
        Some(u) => u,
        None => &empty,
    };
    let unmapped_name_chars = unmapped_chars();
    let mut total = Counts::zero();
    let mut mapped: usize = 0;
    let mut names: Vec<String> = Vec::new();
    let mut tallies: Vec<Counts> = Vec::new();
    let mut ids: Vec<usize> = Vec::new();
    let mut cursor: usize = 0;
    let n = segments.len();
    proof {
        assert(segs.take(0) =~= Seq::<Segment>::empty());
        assert(seg_names.take(0) =~= Seq::<Seq<char>>::empty());
        assert(string_views(names@) =~= Seq::<Seq<char>>::empty());
    }
    for k in 0..n
        invariant
            n == segs.len(),
            segs == segments@,
            uv == used_view(used),
            seg_names == segment_names(segs),
            contiguous(segs, byte_len as int),
            used matches Some(u) ==> normalized(u@),
            ranges@ == (match used { Some(u) => u@, None => Seq::<Interval>::empty() }),
            unmapped_name_chars@ == unmapped_name(),
            cursor <= ranges@.len(),
            k < n ==> forall|i: int| 0 <= i < cursor ==> (#[trigger] ranges@[i]).end <= segs[k as int].start,
            tally_of(total) == tally_sum(segs.take(k as int), uv),
            mapped == mapped_sum(segs.take(k as int)),
            string_views(names@) == first_names(seg_names.take(k as int)),
            tallies@.len() == names@.len(),
            forall|i: int| 0 <= i < names@.len() ==> tally_of(#[trigger] tallies@[i]) == source_tally(segs.take(k as int), uv, names@[i]@),
            ids@.len() == k,
            forall|j: int| 0 <= j < k ==> #[trigger] ids@[j] < names@.len() && names@[ids@[j] as int]@ == segs[j].source@,
    {
        let seg = &segments[k];
        let ghost name = seg.source@;
        proof {
            lemma_tally_step(segs, uv, name, k as int);
            lemma_tally_bounds(segs, uv, name, k + 1, byte_len as int);
            lemma_tally_bounds(segs, uv, name, k as int, byte_len as int);
            lemma_segment_balanced(segs[k as int], uv);
            lemma_first_names_step(seg_names, k as int);
            assert(seg_names[k as int] == name);
            lemma_ends_bounded(segs, byte_len as int, k as int);
            lemma_first_names_distinct(seg_names.take(k as int));
            if let Some(u) = uv {
                lemma_overlap_counts_bytes(seg.start as int, seg.end as int, u);
            }
        }
        let bytes = seg.end - seg.start;
        let observed = overlap(seg.start, seg.end, ranges, &mut cursor);
        let row = match used {
            Some(_) => Counts { bytes, observed_bytes: observed, unobserved_bytes: bytes - observed, unmeasured_bytes: 0 },
            None => Counts { bytes, observed_bytes: 0, unobserved_bytes: 0, unmeasured_bytes: bytes },
        };
        proof {
            if used is None {
                assert(ranges@ =~= Seq::<Interval>::empty());
            }
            assert(tally_of(row) == crate::accounting::segment_tally(segs[k as int], uv));
        }
        let mut id = position_of(&names, &seg.source);
        if id == names.len() {
            proof {
                lemma_first_names_contains(seg_names.take(k as int), name);
                assert(!seg_names.take(k as int).contains(name));
                assert forall|j: int| 0 <= j < segment_names(segs.take(k as int)).len() implies segment_names(segs.take(k as int))[j] != name by {
                    assert(segment_names(segs.take(k as int))[j] == seg_names.take(k as int)[j]);
                }
                lemma_source_tally_absent(segs.take(k as int), uv, name);
            }
            names.push(seg.source.clone());
            tallies.push(Counts::zero());
            proof {
                assert(string_views(names@) =~= first_names(seg_names.take(k as int)).push(name));
            }
        } else {
            proof {
                assert(string_views(names@)[id as int] == name);
                assert(first_names(seg_names.take(k as int)).contains(name));
            }
        }
        let ghost mid_tallies = tallies@;
        proof {
            assert(string_views(names@) == first_names(seg_names.take(k + 1)));
            assert forall|i: int| 0 <= i < names@.len() implies tally_of(#[trigger] mid_tallies[i]) == source_tally(segs.take(k as int), uv, names@[i]@) by {
            }
        }
        let mut c = tallies[id];
        c.add(&row);
        tallies.set(id, c);
        total.add(&row);
        if !same_chars(&chars_of(seg.source.as_str()), &unmapped_name_chars) {
            mapped = mapped + bytes;
        }
        ids.push(id);
        proof {
            lemma_first_names_distinct(seg_names.take(k + 1));
            assert forall|i: int| 0 <= i < names@.len() implies tally_of(#[trigger] tallies@[i]) == source_tally(segs.take(k + 1), uv, names@[i]@) by {
                lemma_tally_step(segs, uv, names@[i]@, k as int);
                if i != id {
                    assert(string_views(names@)[i] != string_views(names@)[id as int]);
                    assert(tallies@[i] == mid_tallies[i]);
                }
            }
        }
    }
    proof {
        assert(segs.take(n as int) =~= segs);
        assert(seg_names.take(n as int) =~= seg_names);
    }
    let mut sources: Vec<BundleSource> = Vec::new();
    for i in 0..names.len()
        invariant
            tallies@.len() == names@.len(),
            sources@.len() == i,
            forall|j: int|
                0 <= j < i ==> {
                    &&& (#[trigger] sources@[j]).source@ == names@[j]@
                    &&& sources@[j].package@ == package_name(names@[j]@)
                    &&& match sources@[j].content {
                        Some(c) => content_for(contents@, names@[j]@) == Some(c@),
                        None => content_for(contents@, names@[j]@) is None,
                    }
                    &&& sources@[j].counts == tallies@[j]
                },
    {
        sources.push(BundleSource {
            source: names[i].clone(),
            package: package(names[i].as_str()),
            content: find_content(contents, &names[i]),
            counts: tallies[i],
            label: None,
        });
    }
    SourceAccount { counts: total, mapped_bytes: mapped, sources, ids }
}


/// The UTF-16 offset of the character boundary at UTF-8 offset `b`.
pub open spec fn utf16_at(text: Seq<char>, b: int) -> int {
    unit_at(text, choose|k: int| 0 <= k <= text.len() && byte_at(text, k) == b) as int
}

/// Span `sp` lies in segment `k`, carries its source index and anchor, and
/// has one status throughout.
pub open spec fn span_fits(
    text: Seq<char>,
    segs: Seq<Segment>,
    ids: Seq<usize>,
    used: Option<Seq<Interval>>,
    sp: Span,
    k: int,
) -> bool {
    &&& 0 <= k < segs.len()
    &&& segs[k].start <= sp.start < sp.end <= segs[k].end
    &&& sp.source == ids[k]
    &&& sp.original == segs[k].original
    &&& forall|p: int| sp.start <= p < sp.end ==> status_at(used, p) == sp.status
    &&& sp.start_utf16 == utf16_at(text, sp.start as int)
    &&& sp.end_utf16 == utf16_at(text, sp.end as int)
}

/// Span `sp` fits some segment.
pub open spec fn span_placed(
    text: Seq<char>,
    segs: Seq<Segment>,
    ids: Seq<usize>,
    used: Option<Seq<Interval>>,
    sp: Span,
) -> bool {
    exists|k: int| #[trigger] span_fits(text, segs, ids, used, sp, k)
}

/// A segment starts at `b`.
pub open spec fn segment_start(segs: Seq<Segment>, b: int) -> bool {
    exists|k: int| 0 <= k < segs.len() && #[trigger] segs[k].start == b
}

/// Spans cut `[0, f)` into consecutive nonempty runs, each inside one
/// segment with one status; two neighbours of one status meet only where a
/// segment starts.
pub open spec fn spans_upto(
    text: Seq<char>,
    segs: Seq<Segment>,
    ids: Seq<usize>,
    used: Option<Seq<Interval>>,
    spans: Seq<Span>,
    f: int,
) -> bool {
    &&& spans.len() == 0 ==> f == 0
    &&& spans.len() > 0 ==> spans[0].start == 0 && spans.last().end == f
    &&& forall|j: int| 0 <= j < spans.len() - 1 ==> #[trigger] spans[j].end == spans[j + 1].start
    &&& forall|j: int| 0 <= j < spans.len() ==> #[trigger] span_placed(text, segs, ids, used, spans[j])
    &&& forall|j: int|
        0 <= j < spans.len() - 1 && #[trigger] spans[j].status == spans[j + 1].status ==> segment_start(
            segs,
            spans[j].end as int,
        )
}

/// Every cut point, segment ends and recorded range ends, is a character boundary.
pub open spec fn cuts_on_boundaries(text: Seq<char>, segs: Seq<Segment>, used: Option<Seq<Interval>>) -> bool {
    &&& forall|k: int|
        0 <= k < segs.len() ==> is_byte_boundary(text, #[trigger] segs[k].start as int) && is_byte_boundary(
            text,
            segs[k].end as int,
        )
    &&& used matches Some(u) ==> forall|i: int|
        0 <= i < u.len() ==> is_byte_boundary(text, #[trigger] u[i].start as int) && is_byte_boundary(
            text,
            u[i].end as int,
        )
}

proof fn lemma_append_span(
    text: Seq<char>,
    segs: Seq<Segment>,
    ids: Seq<usize>,
    used: Option<Seq<Interval>>,
    spans: Seq<Span>,
    f: int,
    sp: Span,
    k: int,
)
    requires
        spans_upto(text, segs, ids, used, spans, f),
        sp.start == f,
        span_fits(text, segs, ids, used, sp, k),
        spans.len() > 0 && spans.last().status == sp.status ==> segment_start(segs, f),
    ensures
        spans_upto(text, segs, ids, used, spans.push(sp), sp.end as int),
{
    let t = spans.push(sp);
    assert forall|j: int| 0 <= j < t.len() implies #[trigger] span_placed(text, segs, ids, used, t[j]) by {
        if j < spans.len() {
            assert(t[j] == spans[j]);
        } else {
            assert(span_fits(text, segs, ids, used, t[j], k));
        }
    }
    assert forall|j: int| 0 <= j < t.len() - 1 implies #[trigger] t[j].end == t[j + 1].start by {
        if j < spans.len() - 1 {
            assert(t[j] == spans[j] && t[j + 1] == spans[j + 1]);
        }
    }
    assert forall|j: int|
        0 <= j < t.len() - 1 && #[trigger] t[j].status == t[j + 1].status implies segment_start(segs, t[j].end as int) by {
        if j < spans.len() - 1 {
            assert(t[j] == spans[j] && t[j + 1] == spans[j + 1]);
        }
    }
}

/// Appends the span `[start, end)` where it is nonempty.
fn append_span(
    spans: &mut Vec<Span>,
    text: &TextIndex,
    start: usize,
    end: usize,
    source: usize,
    status: Status,
    original: Option<OriginalPosition>,
) -> (r: Result<(), TextError>)
    requires
        text.wf(),
    ensures
        start >= end ==> r is Ok && final(spans)@ == old(spans)@,
        start < end && r is Ok ==> final(spans)@ == old(spans)@.push(
            Span {
                start,
                end,
                start_utf16: utf16_at(text@, start as int) as usize,
                end_utf16: utf16_at(text@, end as int) as usize,
                source,
                status,
                original,
            },
        ) && utf16_at(text@, start as int) == (utf16_at(text@, start as int) as usize) && utf16_at(text@, end as int)
            == (utf16_at(text@, end as int) as usize),
        start < end && is_byte_boundary(text@, start as int) && is_byte_boundary(text@, end as int) ==> r is Ok,
        r matches Err(e) ==> e matches TextError::InvalidUtf8Boundary(b) && !is_byte_boundary(text@, b as int),
{
    if start < end {
        let start_utf16 = match text.utf16(start) {
            Ok(u) => u,
            Err(e) => return Err(e),
        };
        let end_utf16 = match text.utf16(end) {
            Ok(u) => u,
            Err(e) => return Err(e),
        };
        proof {
            let ks = choose|k: int| 0 <= k <= text@.len() && byte_at(text@, k) == start;
            let ke = choose|k: int| 0 <= k <= text@.len() && byte_at(text@, k) == end;
            assert(start_utf16 == unit_at(text@, ks));
            assert(end_utf16 == unit_at(text@, ke));
        }
        spans.push(Span { start, end, start_utf16, end_utf16, source, status, original });
    }
    Ok(())
}


/// The spans of a bundle: each segment cut where coverage starts or stops,
/// every byte in exactly one span, unmeasured throughout without a recording.
#[verifier::spinoff_prover]
#[verifier::rlimit(80)]
pub fn spans(
    segments: &Vec<Segment>,
    ids: &Vec<usize>,
    used: Option<&Vec<Interval>>,
    text: &TextIndex,
    byte_len: usize,
) -> (r: Result<Vec<Span>, TextError>)
    requires
        text.wf(),
        contiguous(segments@, byte_len as int),
        ids@.len() == segments@.len(),
        used matches Some(u) ==> normalized(u@),
    ensures
        r matches Ok(spans) ==> spans_upto(text@, segments@, ids@, used_view(used), spans@, byte_len as int),
        cuts_on_boundaries(text@, segments@, used_view(used)) ==> r is Ok,
        r matches Err(e) ==> e matches TextError::InvalidUtf8Boundary(b) && !is_byte_boundary(text@, b as int),
{
    let ghost segs = segments@;
    let ghost uv = used_view(used);
    let ghost cuts = cuts_on_boundaries(text@, segs, uv);
    let n = segments.len();
    let mut spans: Vec<Span> = Vec::new();
    let mut index: usize = 0;
    let empty: Vec<Interval> = Vec::new();
    let u: &Vec<Interval> = match used {
        Some(u) => u,
        None => &empty,
    };
    let m = u.len();
    for k in 0..n
        invariant
            n == segs.len(),
            segs == segments@,
            uv == used_view(used),
            cuts == cuts_on_boundaries(text@, segs, uv),
            text.wf(),
            contiguous(segs, byte_len as int),
            ids@.len() == n,
            m == u@.len(),
            u@ == (match used { Some(x) => x@, None => Seq::<Interval>::empty() }),
            used matches Some(x) ==> normalized(x@),
            index <= m,
            k < n ==> forall|i: int| 0 <= i < index ==> (#[trigger] u@[i]).end <= segs[k as int].start,
            spans_upto(text@, segs, ids@, uv, spans@, if k == 0 { 0 } else { segs[k - 1].end as int }),
    {
        let seg_start = segments[k].start;
        let seg_end = segments[k].end;
        let source = ids[k];
        let original = segments[k].original;
        proof {
            if k > 0 {
                assert(segs[k - 1].end == segs[k as int].start);
            }
            assert(segment_start(segs, seg_start as int));
            if cuts {
                assert(is_byte_boundary(text@, seg_start as int) && is_byte_boundary(text@, seg_end as int));
            }
        }
        if used.is_none() {
            let ghost before = spans@;
            match append_span(&mut spans, text, seg_start, seg_end, source, Status::Unmeasured, original) {
                Err(e) => return Err(e),
                Ok(()) => {},
            }
            proof {
                if seg_start < seg_end {
                    lemma_append_span(text@, segs, ids@, uv, before, seg_start as int, spans@.last(), k as int);
                }
            }
        } else {
            while index < m && u[index].end <= seg_start
                invariant
                    m == u@.len(),
                    index <= m,
                    forall|i: int| 0 <= i < index ==> (#[trigger] u@[i]).end <= seg_start,
                decreases m - index,
            {
                index = index + 1;
            }
            let mut cursor = seg_start;
            let mut j = index;
            while j < m && u[j].start < seg_end
                invariant
                    n == segs.len(),
                    segs == segments@,
                    uv == used_view(used),
                    uv == Some(u@),
                    cuts == cuts_on_boundaries(text@, segs, uv),
                    text.wf(),
                    k < n,
                    seg_start == segs[k as int].start,
                    seg_end == segs[k as int].end,
                    seg_start <= seg_end,
                    source == ids@[k as int],
                    original == segs[k as int].original,
                    m == u@.len(),
                    normalized(u@),
                    index <= j <= m,
                    forall|i: int| 0 <= i < index ==> (#[trigger] u@[i]).end <= seg_start,
                    index < m ==> u@[index as int].end > seg_start,
                    seg_start <= cursor <= seg_end,
                    j == index ==> cursor == seg_start,
                    j > index ==> cursor <= u@[j - 1].end,
                    forall|i: int| 0 <= i < j ==> (#[trigger] u@[i]).end <= cursor || cursor == seg_end,
                    spans@.len() > 0 && cursor != seg_start ==> spans@.last().status == Status::Observed,
                    cuts ==> is_byte_boundary(text@, cursor as int),
                    spans_upto(text@, segs, ids@, uv, spans@, cursor as int),
                    segment_start(segs, seg_start as int),
                decreases m - j,
            {
                let r = u[j];
                let start = if r.start > seg_start { r.start } else { seg_start };
                let end = if r.end < seg_end { r.end } else { seg_end };
                proof {
                    if j > index {
                        assert(u@[j - 1].end < u@[j as int].start);
                        if j - 1 > index {
                            assert(u@[index as int].end < u@[j - 1].start);
                        }
                    }
                    if cursor != seg_start {
                        assert(cursor < start);
                    }
                    if cuts {
                        assert(is_byte_boundary(text@, r.start as int) && is_byte_boundary(text@, r.end as int));
                    }
                    assert forall|p: int| cursor <= p < start implies status_at(uv, p) == Status::Unobserved by {
                        if covers(u@, p) {
                            let i = choose|i: int| 0 <= i < u@.len() && (#[trigger] u@[i]).start <= p < u@[i].end;
                            if i > j {
                                assert(u@[j as int].end < u@[i].start);
                            }
                        }
                    }
                    assert forall|p: int| start <= p < end implies status_at(uv, p) == Status::Observed by {
                        assert(u@[j as int].start <= p < u@[j as int].end);
                    }
                }
                let ghost before = spans@;
                match append_span(&mut spans, text, cursor, start, source, Status::Unobserved, original) {
                    Err(e) => return Err(e),
                    Ok(()) => {},
                }
                proof {
                    if cursor < start {
                        lemma_append_span(text@, segs, ids@, uv, before, cursor as int, spans@.last(), k as int);
                    }
                }
                let ghost middle = spans@;
                match append_span(&mut spans, text, start, end, source, Status::Observed, original) {
                    Err(e) => return Err(e),
                    Ok(()) => {},
                }
                proof {
                    if start < end {
                        lemma_append_span(text@, segs, ids@, uv, middle, start as int, spans@.last(), k as int);
                    }
                }
                cursor = end;
                j = j + 1;
            }
            proof {
                assert forall|p: int| cursor <= p < seg_end implies status_at(uv, p) == Status::Unobserved by {
                    if covers(u@, p) {
                        let i = choose|i: int| 0 <= i < u@.len() && (#[trigger] u@[i]).start <= p < u@[i].end;
                        if i > j {
                            assert(u@[j as int].start < u@[i].start);
                        }
                    }
                }
            }
            let ghost before = spans@;
            match append_span(&mut spans, text, cursor, seg_end, source, Status::Unobserved, original) {
                Err(e) => return Err(e),
                Ok(()) => {},
            }
            proof {
                if cursor < seg_end {
                    lemma_append_span(text@, segs, ids@, uv, before, cursor as int, spans@.last(), k as int);
                }
                if k + 1 < n {
                    assert(segs[k as int].end == segs[k + 1].start);
                    assert forall|i: int| 0 <= i < index implies (#[trigger] u@[i]).end <= segs[k + 1].start by {
                    }
                }
            }
        }
    }
    proof {
        if n == 0 {
            assert(byte_len == 0);
        }
    }
    Ok(spans)
}

} // verus!
