//! Source-map attribution: every generated byte belongs to exactly one source.
use vstd::prelude::*;

use crate::sort::{Key, key_le, sort_keys, sorted_keys};
use crate::strings::{chars_of, extend_chars, same_chars, slice_chars, string_of};
use crate::text::{TextIndex, byte_at};

pub use crate::decoding::{
    Attribution, AttributionError, IndexedAttribution, IndexedSource, Position, Segment, decode, decode_indexed,
    decode_tree, decode_with_contents, offset_position, segments, segments_with_diagnostics,
};

verus! {

/// The source name of bytes that no mapping claims.
pub const UNMAPPED: &'static str = "[unmapped]";

/// Characters of `[unmapped]`.
pub open spec fn unmapped_name() -> Seq<char> {
    seq!['[', 'u', 'n', 'm', 'a', 'p', 'p', 'e', 'd', ']']
}

/// Characters of `[application]`.
pub open spec fn application_name() -> Seq<char> {
    seq!['[', 'a', 'p', 'p', 'l', 'i', 'c', 'a', 't', 'i', 'o', 'n', ']']
}

/// Characters of `node_modules/`.
pub open spec fn modules_marker() -> Seq<char> {
    seq!['n', 'o', 'd', 'e', '_', 'm', 'o', 'd', 'u', 'l', 'e', 's', '/']
}

pub fn unmapped_chars() -> (r: Vec<char>)
    ensures
        r@ == unmapped_name(),
{
    let r = vec!['[', 'u', 'n', 'm', 'a', 'p', 'p', 'e', 'd', ']'];
    proof {
        assert(r@ =~= unmapped_name());
    }
    r
}

/// `[unmapped]` as a string.
pub fn unmapped() -> (r: String)
    ensures
        r@ == unmapped_name(),
{
    string_of(&unmapped_chars())
}

fn application_chars() -> (r: Vec<char>)
    ensures
        r@ == application_name(),
{
    let r = vec!['[', 'a', 'p', 'p', 'l', 'i', 'c', 'a', 't', 'i', 'o', 'n', ']'];
    proof {
        assert(r@ =~= application_name());
    }
    r
}

/// Backslashes read as slashes.
pub open spec fn forward_slashes(s: Seq<char>) -> Seq<char> {
    s.map_values(|c: char| if c == '\\' { '/' } else { c })
}

/// `node_modules/` occurs at `i`.
pub open spec fn marker_at(s: Seq<char>, i: int) -> bool {
    0 <= i && i + 13 <= s.len() && s.subrange(i, i + 13) == modules_marker()
}

/// The position of the last `node_modules/`.
pub open spec fn last_marker(s: Seq<char>) -> Option<int> {
    if exists|i: int| #[trigger] marker_at(s, i) {
        Some(choose|i: int| #[trigger] marker_at(s, i) && forall|j: int| j > i ==> !#[trigger] marker_at(s, j))
    } else {
        None
    }
}

/// The first `/` at or after `from`, or the end.
pub open spec fn next_slash(s: Seq<char>, from: int) -> int
    decreases s.len() - from,
{
    if from >= s.len() {
        s.len() as int
    } else if s[from] == '/' {
        from
    } else {
        next_slash(s, from + 1)
    }
}

/// The package of a source: the component after the last `node_modules/`
/// (two components for `@scope/name`), `[application]` without one, and
/// `[unmapped]` for unmapped bytes.
pub open spec fn package_name(source: Seq<char>) -> Seq<char> {
    if source == unmapped_name() {
        unmapped_name()
    } else {
        let n = forward_slashes(source);
        match last_marker(n) {
            Some(i) => {
                let rest = n.subrange(i + 13, n.len() as int);
                let e = next_slash(rest, 0);
                let first = rest.subrange(0, e);
                if first.len() > 0 && first[0] == '@' {
                    let second = if e < rest.len() {
                        rest.subrange(e + 1, next_slash(rest, e + 1))
                    } else {
                        Seq::empty()
                    };
                    first + seq!['/'] + second
                } else {
                    first
                }
            },
            None => application_name(),
        }
    }
}

proof fn lemma_next_slash(s: Seq<char>, from: int)
    requires
        0 <= from,
    ensures
        from <= next_slash(s, from) <= s.len() || (from > s.len() && next_slash(s, from) == s.len()),
        forall|k: int| from <= k < next_slash(s, from) ==> s[k] != '/',
        next_slash(s, from) < s.len() ==> s[next_slash(s, from)] == '/',
    decreases s.len() - from,
{
    if from < s.len() && s[from] != '/' {
        lemma_next_slash(s, from + 1);
    }
}

/// The first `/` at or after `from`.
fn find_slash(s: &Vec<char>, from: usize) -> (r: usize)
    requires
        from <= s@.len(),
    ensures
        r == next_slash(s@, from as int),
{
    let mut k = from;
    while k < s.len() && s[k] != '/'
        invariant
            from <= k <= s@.len(),
            next_slash(s@, k as int) == next_slash(s@, from as int),
        decreases s@.len() - k,
    {
        k = k + 1;
    }
    k
}

/// Whether `node_modules/` occurs at `i`.
fn has_marker_at(s: &Vec<char>, i: usize) -> (r: bool)
    requires
        i + 13 <= s@.len(),
        s@.len() <= usize::MAX,
    ensures
        r == marker_at(s@, i as int),
{
    let m = vec!['n', 'o', 'd', 'e', '_', 'm', 'o', 'd', 'u', 'l', 'e', 's', '/'];
    proof {
        assert(m@ =~= modules_marker());
    }
    let part = slice_chars(s, i, i + 13);
    same_chars(&part, &m)
}

/// The position of the last `node_modules/`.
fn last_marker_pos(n: &Vec<char>) -> (r: Option<usize>)
    ensures
        r matches Some(i) ==> marker_at(n@, i as int) && forall|j: int| j > i ==> !#[trigger] marker_at(n@, j),
        r is None ==> forall|j: int| !#[trigger] marker_at(n@, j),
{
    let len = n.len();
    if len < 13 {
        return None;
    }
    let mut i = len - 13 + 1;
    while i > 0
        invariant
            len == n@.len(),
            len >= 13,
            0 <= i <= len - 12,
            forall|j: int| j >= i ==> !#[trigger] marker_at(n@, j),
        decreases i,
    {
        if has_marker_at(n, i - 1) {
            return Some(i - 1);
        }
        i = i - 1;
    }
    None
}

/// The npm package a source belongs to, or `[application]`.
pub fn package(source: &str) -> (r: String)
    ensures
        r@ == package_name(source@),
{
    let src = chars_of(source);
    if same_chars(&src, &unmapped_chars()) {
        return unmapped();
    }
    let mut n: Vec<char> = Vec::new();
    for i in 0..src.len()
        invariant
            src@ == source@,
            n@ == forward_slashes(src@.take(i as int)),
    {
        n.push(if src[i] == '\\' { '/' } else { src[i] });
        proof {
            assert(src@.take(i + 1) == src@.take(i as int).push(src@[i as int]));
            assert(n@ =~= forward_slashes(src@.take(i + 1)));
        }
    }
    proof {
        assert(src@.take(src@.len() as int) == src@);
    }
    let len = n.len();
    let found = last_marker_pos(&n);
    let ghost spec_n = forward_slashes(source@);
    proof {
        assert(n@ == spec_n);
    }
    match found {
        None => {
            proof {
                if exists|j: int| #[trigger] marker_at(n@, j) {
                    let j = choose|j: int| #[trigger] marker_at(n@, j);
                    assert(len >= 13);
                }
                assert(last_marker(spec_n) is None);
            }
            string_of(&application_chars())
        },
        Some(i) => {
            proof {
                let c = choose|c: int| #[trigger] marker_at(spec_n, c) && forall|j: int|
                    j > c ==> !#[trigger] marker_at(spec_n, j);
                assert(marker_at(spec_n, i as int));
                if c != i {
                    if c < i {
                    } else {
                    }
                }
                assert(last_marker(spec_n) == Some(i as int));
            }
            let rest = slice_chars(&n, i + 13, len);
            let e = find_slash(&rest, 0);
            proof {
                lemma_next_slash(rest@, 0);
            }
            let first = slice_chars(&rest, 0, e);
            if first.len() > 0 && first[0] == '@' {
                let mut out = first;
                out.push('/');
                if e < rest.len() {
                    let e2 = find_slash(&rest, e + 1);
                    proof {
                        lemma_next_slash(rest@, e + 1);
                    }
                    let second = slice_chars(&rest, e + 1, e2);
                    extend_chars(&mut out, &second);
                    string_of(&out)
                } else {
                    proof {
                        assert(out@ =~= first@ + seq!['/'] + Seq::<char>::empty());
                    }
                    string_of(&out)
                }
            } else {
                string_of(&first)
            }
        },
    }
}


/// A zero-based position in original source.
#[derive(Debug, Clone, Copy, PartialEq, Eq, Structural)]
pub struct OriginalPosition {
    pub line: u32,
    pub column: u32,
}

/// A mapping point: a generated position, its UTF-8 offset, a source index
/// (0 is unmapped) and an original anchor.
#[derive(Debug, Clone, Copy)]
pub struct Point {
    pub line: u32,
    pub column: u32,
    pub byte: usize,
    pub source: usize,
    pub original: Option<OriginalPosition>,
}

/// A generated byte range attributed to a source index.
#[derive(Debug, Clone, Copy)]
pub struct IndexedSegment {
    pub start: usize,
    pub end: usize,
    pub source: usize,
    pub original: Option<OriginalPosition>,
}

pub open spec fn same_pos(a: Point, b: Point) -> bool {
    a.line == b.line && a.column == b.column
}

pub open spec fn pos_before(a: Point, b: Point) -> bool {
    a.line < b.line || (a.line == b.line && a.column < b.column)
}

/// Point `j` wins its position: no later point shares it (last mapping wins).
pub open spec fn winner(p: Seq<Point>, j: int) -> bool {
    &&& 0 <= j < p.len()
    &&& forall|k: int| j < k < p.len() ==> !same_pos(#[trigger] p[k], p[j])
}

/// `w` is the first winning point after `j`, and on `j`'s line.
pub open spec fn next_on_line(p: Seq<Point>, j: int, w: int) -> bool {
    &&& winner(p, w)
    &&& p[w].line == p[j].line
    &&& pos_before(p[j], p[w])
    &&& forall|w2: int| #[trigger] winner(p, w2) && pos_before(p[j], p[w2]) ==> !pos_before(p[w2], p[w])
}

/// A mapping owns bytes up to the next mapping on the same line, or to the line's end.
#[verifier::opaque]
pub open spec fn span_end(text: TextIndex, p: Seq<Point>, j: int) -> int {
    if exists|w: int| #[trigger] next_on_line(p, j, w) {
        p[choose|w: int| #[trigger] next_on_line(p, j, w)].byte as int
    } else {
        text.line_end_byte(p[j].line as int)
    }
}

/// Offsets where attribution may change: the ends of the text and of each winner's span.
#[verifier::opaque]
pub open spec fn is_boundary(text: TextIndex, p: Seq<Point>, len: int, b: int) -> bool {
    ||| b == 0
    ||| b == len
    ||| exists|w: int| #[trigger] winner(p, w) && (b == p[w].byte || b == span_end(text, p, w))
}

/// Segments cover `[0, len)` in order, each nonempty.
pub open spec fn tiles(segs: Seq<IndexedSegment>, len: int) -> bool {
    &&& forall|k: int| 0 <= k < segs.len() ==> #[trigger] segs[k].start < segs[k].end
    &&& segs.len() == 0 ==> len == 0
    &&& segs.len() > 0 ==> segs[0].start == 0 && segs.last().end == len
    &&& forall|k: int| 0 <= k < segs.len() - 1 ==> #[trigger] segs[k].end == segs[k + 1].start
}

/// Every point lies at a valid position of the text, with that position's offset.
pub open spec fn points_valid(text: TextIndex, p: Seq<Point>) -> bool {
    forall|i: int|
        0 <= i < p.len() ==> text.valid_position(#[trigger] p[i].line as int, p[i].column as int)
            && p[i].byte == text.position_byte(p[i].line as int, p[i].column as int)
}

/// The attribution rule: segments tile the text, split exactly at boundaries;
/// each winner's nonempty span is one segment carrying its source and anchor;
/// every other segment is unmapped.
pub open spec fn attributed(text: TextIndex, p: Seq<Point>, len: int, segs: Seq<IndexedSegment>) -> bool {
    &&& tiles(segs, len)
    &&& forall|k: int|
        0 <= k < segs.len() ==> is_boundary(text, p, len, #[trigger] segs[k].start as int)
            && is_boundary(text, p, len, segs[k].end as int)
    &&& forall|k: int, b: int|
        #![trigger segs[k], is_boundary(text, p, len, b)]
        0 <= k < segs.len() && is_boundary(text, p, len, b) ==> !(segs[k].start < b < segs[k].end)
    &&& forall|w: int|
        #[trigger] winner(p, w) && span_end(text, p, w) > p[w].byte ==> exists|k: int|
            0 <= k < segs.len() && segs[k].start == p[w].byte && segs[k].end == span_end(text, p, w)
                && segs[k].source == p[w].source && segs[k].original == p[w].original
    &&& forall|k: int|
        0 <= k < segs.len() && (#[trigger] segs[k].source != 0 || segs[k].original is Some) ==> exists|w: int|
            #[trigger] winner(p, w) && segs[k].start == p[w].byte && segs[k].end == span_end(text, p, w)
                && segs[k].source == p[w].source && segs[k].original == p[w].original
}


/// `k` lists every point once as (line, column, index), strictly increasing.
pub open spec fn point_order(p: Seq<Point>, k: Seq<Key>) -> bool {
    &&& k.len() == p.len()
    &&& forall|t: int|
        0 <= t < k.len() ==> (#[trigger] k[t]).2 < p.len() && k[t].0 == p[k[t].2 as int].line && k[t].1
            == p[k[t].2 as int].column
    &&& forall|a: int, b: int| 0 <= a < b < k.len() ==> key_le(#[trigger] k[a], #[trigger] k[b]) && k[a] != k[b]
    &&& forall|j: int| 0 <= j < p.len() ==> #[trigger] slot(k, j)
}

pub open spec fn slot(k: Seq<Key>, j: int) -> bool {
    exists|t: int| 0 <= t < k.len() && (#[trigger] k[t]).2 == j
}

/// Sorted index `u` is the last of its position group.
pub open spec fn group_last(p: Seq<Point>, k: Seq<Key>, u: int) -> bool {
    u + 1 == k.len() || k[u + 1].0 != k[u].0 || k[u + 1].1 != k[u].1
}

/// `b` is 0 or the end of some segment.
pub open spec fn is_endpoint(segs: Seq<IndexedSegment>, b: int) -> bool {
    b == 0 || exists|k: int| 0 <= k < segs.len() && #[trigger] segs[k].end == b
}

proof fn lemma_key_positions(p: Seq<Point>, k: Seq<Key>, a: int, b: int)
    requires
        point_order(p, k),
        0 <= a < k.len(),
        0 <= b < k.len(),
    ensures
        a < b ==> !pos_before(p[k[b].2 as int], p[k[a].2 as int]),
        pos_before(p[k[a].2 as int], p[k[b].2 as int]) ==> a < b,
        same_pos(p[k[a].2 as int], p[k[b].2 as int]) && k[a].2 < k[b].2 ==> a < b,
{
    if a < b {
        assert(key_le(k[a], k[b]));
    }
    if b < a {
        assert(key_le(k[b], k[a]) && k[b] != k[a]);
    }
}

proof fn lemma_group_winner(p: Seq<Point>, k: Seq<Key>, u: int)
    requires
        point_order(p, k),
        0 <= u < k.len(),
    ensures
        group_last(p, k, u) <==> winner(p, k[u].2 as int),
{
    let j = k[u].2 as int;
    if group_last(p, k, u) && !winner(p, j) {
        let x = choose|x: int| j < x < p.len() && same_pos(#[trigger] p[x], p[j]);
        assert(slot(k, x));
        let v = choose|v: int| 0 <= v < k.len() && (#[trigger] k[v]).2 == x;
        lemma_key_positions(p, k, u, v);
        assert(key_le(k[u], k[u + 1]) && key_le(k[u + 1], k[v])) by {
            if u + 1 < v {
                assert(key_le(k[u + 1], k[v]));
            }
        }
    }
    if !group_last(p, k, u) {
        assert(key_le(k[u], k[u + 1]) && k[u] != k[u + 1]);
        let x = k[u + 1].2 as int;
        assert(j < x < p.len() && same_pos(p[x], p[j]));
    }
}

/// Once a group is done, the next point's line decides where its span ends.
proof fn lemma_span_end(text: TextIndex, p: Seq<Point>, k: Seq<Key>, u: int, byte_len: int) -> (next: Option<int>)
    requires
        point_order(p, k),
        text.wf(),
        points_valid(text, p),
        0 <= u < k.len(),
        group_last(p, k, u),
    ensures
        ({
            let j = k[u].2 as int;
            &&& u + 1 < k.len() && k[u + 1].0 == k[u].0 ==> span_end(text, p, j) == p[k[u + 1].2 as int].byte
            &&& !(u + 1 < k.len() && k[u + 1].0 == k[u].0) ==> span_end(text, p, j) == text.line_end_byte(p[j].line as int)
        }),
    decreases k.len() - u,
{
    reveal(span_end);
    let j = k[u].2 as int;
    if u + 1 < k.len() && k[u + 1].0 == k[u].0 {
        let w_last = lemma_last_of_group(p, k, u + 1);
        let w = k[w_last].2 as int;
        let x = k[u + 1].2 as int;
        lemma_group_winner(p, k, w_last);
        assert(same_pos(p[w], p[x]));
        lemma_key_positions(p, k, u, u + 1);
        assert(key_le(k[u], k[u + 1]) && k[u] != k[u + 1]);
        assert forall|w2: int| #[trigger] winner(p, w2) && pos_before(p[j], p[w2]) implies !pos_before(p[w2], p[w]) by {
            assert(slot(k, w2));
            let v = choose|v: int| 0 <= v < k.len() && (#[trigger] k[v]).2 == w2;
            lemma_key_positions(p, k, u, v);
            lemma_key_positions(p, k, u + 1, v);
            if v == u {
            }
        }
        assert(next_on_line(p, j, w));
        let c = choose|c: int| #[trigger] next_on_line(p, j, c);
        if pos_before(p[c], p[w]) {
        }
        if pos_before(p[w], p[c]) {
        }
        assert(same_pos(p[c], p[w]));
        let kc = p[c];
        let kw = p[w];
        text.lemma_position_order(kc.line as int, kc.column as int, kw.line as int, kw.column as int);
        text.lemma_position_order(kw.line as int, kw.column as int, kc.line as int, kc.column as int);
        text.lemma_position_order(p[x].line as int, p[x].column as int, kw.line as int, kw.column as int);
        text.lemma_position_order(kw.line as int, kw.column as int, p[x].line as int, p[x].column as int);
        Some(w)
    } else {
        if exists|w: int| #[trigger] next_on_line(p, j, w) {
            let w = choose|w: int| #[trigger] next_on_line(p, j, w);
            assert(slot(k, w));
            let v = choose|v: int| 0 <= v < k.len() && (#[trigger] k[v]).2 == w;
            lemma_key_positions(p, k, u, v);
            assert(v > u);
            if v > u + 1 {
                lemma_key_positions(p, k, u + 1, v);
            }
            assert(key_le(k[u], k[u + 1]) && k[u] != k[u + 1]);
        }
        None
    }
}

proof fn lemma_last_of_group(p: Seq<Point>, k: Seq<Key>, v: int) -> (u: int)
    requires
        point_order(p, k),
        0 <= v < k.len(),
    ensures
        v <= u < k.len(),
        group_last(p, k, u),
        k[u].0 == k[v].0 && k[u].1 == k[v].1,
    decreases k.len() - v,
{
    if group_last(p, k, v) {
        v
    } else {
        lemma_last_of_group(p, k, v + 1)
    }
}


/// A winner's span starts at its offset and stops before every later point.
proof fn lemma_span_bounds(text: TextIndex, p: Seq<Point>, k: Seq<Key>, u: int, v: int)
    requires
        point_order(p, k),
        text.wf(),
        points_valid(text, p),
        0 <= u < v < k.len(),
        group_last(p, k, u),
    ensures
        p[k[u].2 as int].byte <= span_end(text, p, k[u].2 as int) <= p[k[v].2 as int].byte,
{
    let j = k[u].2 as int;
    let x = k[v].2 as int;
    let y = k[u + 1].2 as int;
    lemma_span_end(text, p, k, u, 0);
    lemma_key_positions(p, k, u, v);
    lemma_key_positions(p, k, u + 1, v);
    assert(key_le(k[u], k[u + 1]) && k[u] != k[u + 1]);
    let pj = p[j];
    let px = p[x];
    let py = p[y];
    text.lemma_position_order(pj.line as int, pj.column as int, px.line as int, px.column as int);
    text.lemma_position_order(pj.line as int, pj.column as int, py.line as int, py.column as int);
    text.lemma_position_order(py.line as int, py.column as int, px.line as int, px.column as int);
    if v > u + 1 {
        assert(key_le(k[u + 1], k[v]));
    }
}

proof fn lemma_span_last(text: TextIndex, p: Seq<Point>, k: Seq<Key>, u: int)
    requires
        point_order(p, k),
        text.wf(),
        points_valid(text, p),
        0 <= u < k.len(),
        group_last(p, k, u),
    ensures
        p[k[u].2 as int].byte <= span_end(text, p, k[u].2 as int) <= byte_at(text@, text@.len() as int),
{
    let j = k[u].2 as int;
    lemma_span_end(text, p, k, u, 0);
    let pj = p[j];
    text.lemma_position_order(pj.line as int, pj.column as int, pj.line as int, pj.column as int);
    if u + 1 < k.len() && k[u + 1].0 == k[u].0 {
        let y = k[u + 1].2 as int;
        let py = p[y];
        text.lemma_position_order(py.line as int, py.column as int, py.line as int, py.column as int);
        text.lemma_position_order(pj.line as int, pj.column as int, py.line as int, py.column as int);
        assert(key_le(k[u], k[u + 1]) && k[u] != k[u + 1]);
    }
}

proof fn lemma_endpoints_not_inside(segs: Seq<IndexedSegment>, len: int, b: int, k: int)
    requires
        tiles(segs, len),
        is_endpoint(segs, b),
        0 <= k < segs.len(),
    ensures
        !(segs[k].start < b < segs[k].end),
{
    if b != 0 {
        let e = choose|e: int| 0 <= e < segs.len() && #[trigger] segs[e].end == b;
        if e < k {
            lemma_tiles_ordered(segs, len, e, k);
        } else {
            lemma_tiles_ordered(segs, len, k, e);
        }
    } else {
        lemma_tiles_ordered(segs, len, 0, k);
    }
}

proof fn lemma_tiles_ordered(segs: Seq<IndexedSegment>, len: int, a: int, b: int)
    requires
        tiles(segs, len),
        0 <= a <= b < segs.len(),
    ensures
        a < b ==> segs[a].end <= segs[b].start,
        segs[a].start <= segs[b].start,
        a == 0 ==> segs[a].start == 0,
    decreases b - a,
{
    if a < b {
        lemma_tiles_ordered(segs, len, a, b - 1);
        assert(segs[b - 1].end == segs[b].start);
    }
}

proof fn lemma_boundary_intro(text: TextIndex, p: Seq<Point>, len: int, w: int)
    requires
        winner(p, w),
    ensures
        is_boundary(text, p, len, p[w].byte as int),
        is_boundary(text, p, len, span_end(text, p, w)),
        is_boundary(text, p, len, 0),
        is_boundary(text, p, len, len),
{
    reveal(is_boundary);
}

proof fn lemma_boundary_ends(text: TextIndex, p: Seq<Point>, len: int)
    ensures
        is_boundary(text, p, len, 0),
        is_boundary(text, p, len, len),
{
    reveal(is_boundary);
}

proof fn lemma_boundary_elim(text: TextIndex, p: Seq<Point>, len: int, b: int) -> (w: int)
    requires
        is_boundary(text, p, len, b),
        b != 0,
        b != len,
    ensures
        winner(p, w),
        b == p[w].byte || b == span_end(text, p, w),
{
    reveal(is_boundary);
    choose|w: int| #[trigger] winner(p, w) && (b == p[w].byte || b == span_end(text, p, w))
}

/// Scalars of the sweep before group index `t`.
pub open spec fn sweep_basic(text: TextIndex, p: Seq<Point>, k: Seq<Key>, byte_len: int, t: int, cursor: int) -> bool {
    let m = p.len() as int;
    &&& text.wf()
    &&& points_valid(text, p)
    &&& byte_len == byte_at(text@, text@.len() as int)
    &&& byte_len <= usize::MAX
    &&& point_order(p, k)
    &&& 0 <= t <= m
    &&& 0 < t < m ==> k[t].0 != k[t - 1].0 || k[t].1 != k[t - 1].1
    &&& t == 0 ==> cursor == 0
    &&& t > 0 ==> group_last(p, k, t - 1) && cursor == span_end(text, p, k[t - 1].2 as int)
    &&& 0 <= cursor <= byte_len
}

/// Later points are at or after the cursor.
#[verifier::opaque]
pub open spec fn sweep_future(p: Seq<Point>, k: Seq<Key>, t: int, cursor: int) -> bool {
    forall|v: int| t <= v < p.len() ==> p[(#[trigger] k[v]).2 as int].byte >= cursor
}

/// Offsets and span ends of finished winners are segment ends.
#[verifier::opaque]
pub open spec fn sweep_endpoints(text: TextIndex, p: Seq<Point>, k: Seq<Key>, t: int, segs: Seq<IndexedSegment>) -> bool {
    forall|u: int|
        0 <= u < t && #[trigger] group_last(p, k, u) ==> is_endpoint(segs, p[k[u].2 as int].byte as int)
            && is_endpoint(segs, span_end(text, p, k[u].2 as int))
}

/// Every segment starts and ends at a boundary.
#[verifier::opaque]
pub open spec fn sweep_bounds(text: TextIndex, p: Seq<Point>, byte_len: int, segs: Seq<IndexedSegment>) -> bool {
    forall|x: int|
        0 <= x < segs.len() ==> is_boundary(text, p, byte_len, #[trigger] segs[x].start as int)
            && is_boundary(text, p, byte_len, segs[x].end as int)
}

/// `segs` holds the span of winner `w` with its label.
pub open spec fn holds_span(text: TextIndex, p: Seq<Point>, segs: Seq<IndexedSegment>, w: int) -> bool {
    exists|x: int|
        0 <= x < segs.len() && (#[trigger] segs[x]).start == p[w].byte && segs[x].end == span_end(text, p, w)
            && segs[x].source == p[w].source && segs[x].original == p[w].original
}

/// Finished winners with nonempty spans appear as segments.
#[verifier::opaque]
pub open spec fn sweep_spans(text: TextIndex, p: Seq<Point>, k: Seq<Key>, t: int, segs: Seq<IndexedSegment>) -> bool {
    forall|u: int|
        0 <= u < t && #[trigger] group_last(p, k, u) && span_end(text, p, k[u].2 as int) > p[k[u].2 as int].byte
            ==> holds_span(text, p, segs, k[u].2 as int)
}

/// A labeled segment is a winner's span: segment `x` carries a label only from a winner.
pub open spec fn labeled_from_winner(text: TextIndex, p: Seq<Point>, s: IndexedSegment) -> bool {
    exists|w: int|
        #[trigger] winner(p, w) && s.start == p[w].byte && s.end == span_end(text, p, w)
            && s.source == p[w].source && s.original == p[w].original
}

#[verifier::opaque]
pub open spec fn sweep_labels(text: TextIndex, p: Seq<Point>, segs: Seq<IndexedSegment>) -> bool {
    forall|x: int|
        0 <= x < segs.len() && (#[trigger] segs[x].source != 0 || segs[x].original is Some)
            ==> labeled_from_winner(text, p, segs[x])
}

/// What the sweep over position groups has established before group index `t`.
pub open spec fn sweep_inv(
    text: TextIndex,
    p: Seq<Point>,
    k: Seq<Key>,
    byte_len: int,
    t: int,
    cursor: int,
    segs: Seq<IndexedSegment>,
) -> bool {
    &&& sweep_basic(text, p, k, byte_len, t, cursor)
    &&& tiles(segs, cursor)
    &&& sweep_future(p, k, t, cursor)
    &&& sweep_endpoints(text, p, k, t, segs)
    &&& sweep_bounds(text, p, byte_len, segs)
    &&& sweep_spans(text, p, k, t, segs)
    &&& sweep_labels(text, p, segs)
}

pub open spec fn gap_then_span(
    segs: Seq<IndexedSegment>,
    cursor: int,
    start: int,
    end: int,
    point: Point,
) -> Seq<IndexedSegment> {
    let with_gap = if start > cursor {
        segs.push(IndexedSegment { start: cursor as usize, end: start as usize, source: 0, original: None })
    } else {
        segs
    };
    if end > start {
        with_gap.push(IndexedSegment { start: start as usize, end: end as usize, source: point.source, original: point.original })
    } else {
        with_gap
    }
}

/// Appending keeps earlier segments.
proof fn lemma_gap_then_span_prefix(segs: Seq<IndexedSegment>, cursor: int, start: int, end: int, point: Point)
    ensures
        ({
            let out = gap_then_span(segs, cursor, start, end, point);
            &&& out.len() >= segs.len()
            &&& forall|x: int| 0 <= x < segs.len() ==> #[trigger] out[x] == segs[x]
        }),
{
}

proof fn lemma_step_tiles(segs: Seq<IndexedSegment>, cursor: int, start: int, end: int, point: Point)
    requires
        tiles(segs, cursor),
        0 <= cursor <= start <= end <= usize::MAX,
    ensures
        tiles(gap_then_span(segs, cursor, start, end, point), end),
        is_endpoint(gap_then_span(segs, cursor, start, end, point), start),
        is_endpoint(gap_then_span(segs, cursor, start, end, point), end),
        is_endpoint(segs, cursor) ==> true,
{
    let with_gap = if start > cursor {
        segs.push(IndexedSegment { start: cursor as usize, end: start as usize, source: 0, original: None })
    } else {
        segs
    };
    let out = gap_then_span(segs, cursor, start, end, point);
    assert forall|x: int| 0 <= x < out.len() implies #[trigger] out[x].start < out[x].end by {
        if x < segs.len() {
            assert(out[x] == segs[x]);
        } else if x < with_gap.len() {
            assert(out[x] == with_gap[x]);
        }
    }
    assert forall|x: int| 0 <= x < out.len() - 1 implies #[trigger] out[x].end == out[x + 1].start by {
        if x + 1 < segs.len() {
            assert(out[x] == segs[x] && out[x + 1] == segs[x + 1]);
        } else if x + 1 < with_gap.len() {
            assert(out[x] == with_gap[x] && out[x + 1] == with_gap[x + 1]);
        } else if x < with_gap.len() {
            assert(out[x] == with_gap[x]);
        }
    }
    if start > cursor {
        assert(out[segs.len() as int].end == start);
    } else if cursor != 0 {
        let e = choose|e: int| 0 <= e < segs.len() && #[trigger] segs[e].end == cursor;
        assert(out[e] == segs[e]);
    }
    if end > start {
        assert(out[out.len() - 1].end == end);
    }
}

/// The cursor is 0 or a segment end.
proof fn lemma_cursor_endpoint(segs: Seq<IndexedSegment>, cursor: int)
    requires
        tiles(segs, cursor),
    ensures
        is_endpoint(segs, cursor),
{
    if segs.len() > 0 {
        assert(segs[segs.len() - 1].end == cursor);
    }
}

proof fn lemma_group_tail(p: Seq<Point>, k: Seq<Key>, t: int, u: int, v: int)
    requires
        point_order(p, k),
        0 <= t <= v < u < k.len(),
        k[u].0 == k[t].0 && k[u].1 == k[t].1,
    ensures
        !group_last(p, k, v),
{
    assert(key_le(k[v], k[v + 1]));
    assert(key_le(k[t], k[v]));
    if v + 1 < u {
        assert(key_le(k[v + 1], k[u]));
    }
}

#[verifier::spinoff_prover]
#[verifier::rlimit(40)]
proof fn lemma_sweep_step(
    text: TextIndex,
    p: Seq<Point>,
    k: Seq<Key>,
    byte_len: int,
    t: int,
    u: int,
    cursor: int,
    segs: Seq<IndexedSegment>,
)
    requires
        sweep_inv(text, p, k, byte_len, t, cursor, segs),
        t <= u < p.len(),
        group_last(p, k, u),
        k[u].0 == k[t].0 && k[u].1 == k[t].1,
    ensures
        ({
            let j = k[u].2 as int;
            let start = p[j].byte as int;
            let end = span_end(text, p, j);
            &&& start <= end
            &&& cursor <= start
            &&& sweep_inv(text, p, k, byte_len, u + 1, end, gap_then_span(segs, cursor, start, end, p[j]))
        }),
{
    let j = k[u].2 as int;
    let point = p[j];
    let start = point.byte as int;
    let end = span_end(text, p, j);
    lemma_group_winner(p, k, u);
    lemma_span_last(text, p, k, u);
    reveal(sweep_future);
    assert(p[(k[u]).2 as int].byte >= cursor);
    let out = gap_then_span(segs, cursor, start, end, point);
    lemma_gap_then_span_prefix(segs, cursor, start, end, point);
    lemma_step_tiles(segs, cursor, start, end, point);
    lemma_boundary_intro(text, p, byte_len, j);
    lemma_cursor_endpoint(segs, cursor);
    assert(cursor == 0 || is_boundary(text, p, byte_len, cursor)) by {
        if t > 0 {
            lemma_group_winner(p, k, t - 1);
            lemma_boundary_intro(text, p, byte_len, k[t - 1].2 as int);
        }
    }
    assert(sweep_bounds(text, p, byte_len, out)) by {
        reveal(sweep_bounds);
        assert forall|x: int| 0 <= x < out.len() implies is_boundary(text, p, byte_len, #[trigger] out[x].start as int)
            && is_boundary(text, p, byte_len, out[x].end as int) by {
            if x < segs.len() {
                assert(out[x] == segs[x]);
            }
        }
    }
    assert(sweep_labels(text, p, out)) by {
        reveal(sweep_labels);
        assert forall|x: int| 0 <= x < out.len() && (#[trigger] out[x].source != 0 || out[x].original is Some)
            implies labeled_from_winner(text, p, out[x]) by {
            if x < segs.len() {
                assert(out[x] == segs[x]);
            } else {
                assert(winner(p, j));
            }
        }
    }
    assert(sweep_endpoints(text, p, k, u + 1, out)) by {
        reveal(sweep_endpoints);
        assert forall|v: int|
            0 <= v < u + 1 && #[trigger] group_last(p, k, v) implies is_endpoint(out, p[k[v].2 as int].byte as int)
                && is_endpoint(out, span_end(text, p, k[v].2 as int)) by {
            if v < t {
                let b1 = p[k[v].2 as int].byte as int;
                let b2 = span_end(text, p, k[v].2 as int);
                if b1 != 0 {
                    let e = choose|e: int| 0 <= e < segs.len() && #[trigger] segs[e].end == b1;
                    assert(out[e] == segs[e]);
                }
                if b2 != 0 {
                    let e = choose|e: int| 0 <= e < segs.len() && #[trigger] segs[e].end == b2;
                    assert(out[e] == segs[e]);
                }
            } else if v < u {
                lemma_group_tail(p, k, t, u, v);
            }
        }
    }
    assert(sweep_spans(text, p, k, u + 1, out)) by {
        reveal(sweep_spans);
        assert forall|v: int|
            0 <= v < u + 1 && #[trigger] group_last(p, k, v) && span_end(text, p, k[v].2 as int) > p[k[v].2 as int].byte
                implies holds_span(text, p, out, k[v].2 as int) by {
            if v < t {
                let x = choose|x: int|
                    0 <= x < segs.len() && (#[trigger] segs[x]).start == p[k[v].2 as int].byte && segs[x].end == span_end(
                        text,
                        p,
                        k[v].2 as int,
                    ) && segs[x].source == p[k[v].2 as int].source && segs[x].original == p[k[v].2 as int].original;
                assert(out[x] == segs[x]);
            } else if v < u {
                lemma_group_tail(p, k, t, u, v);
            } else {
                assert(out[out.len() - 1].start == start);
            }
        }
    }
    assert(sweep_future(p, k, u + 1, end)) by {
        assert forall|v: int| u + 1 <= v < p.len() implies p[(#[trigger] k[v]).2 as int].byte >= end by {
            lemma_span_bounds(text, p, k, u, v);
        }
    }
}

pub open spec fn final_segments(segs: Seq<IndexedSegment>, cursor: int, byte_len: int) -> Seq<IndexedSegment> {
    if cursor < byte_len {
        segs.push(IndexedSegment { start: cursor as usize, end: byte_len as usize, source: 0, original: None })
    } else {
        segs
    }
}

proof fn lemma_done_tiles(segs: Seq<IndexedSegment>, cursor: int, byte_len: int)
    requires
        tiles(segs, cursor),
        0 <= cursor <= byte_len <= usize::MAX,
    ensures
        tiles(final_segments(segs, cursor, byte_len), byte_len),
        forall|x: int| 0 <= x < segs.len() ==> #[trigger] final_segments(segs, cursor, byte_len)[x] == segs[x],
        final_segments(segs, cursor, byte_len).len() >= segs.len(),
{
    let out = final_segments(segs, cursor, byte_len);
    assert forall|x: int| 0 <= x < out.len() implies #[trigger] out[x].start < out[x].end by {
        if x < segs.len() {
            assert(out[x] == segs[x]);
        }
    }
    assert forall|x: int| 0 <= x < out.len() - 1 implies #[trigger] out[x].end == out[x + 1].start by {
        if x + 1 < segs.len() {
            assert(out[x] == segs[x] && out[x + 1] == segs[x + 1]);
        } else {
            assert(out[x] == segs[x]);
        }
    }
}

proof fn lemma_done_bounds(text: TextIndex, p: Seq<Point>, k: Seq<Key>, byte_len: int, cursor: int, segs: Seq<IndexedSegment>)
    requires
        sweep_basic(text, p, k, byte_len, p.len() as int, cursor),
        sweep_bounds(text, p, byte_len, segs),
        tiles(segs, cursor),
    ensures
        ({
            let out = final_segments(segs, cursor, byte_len);
            forall|x: int|
                0 <= x < out.len() ==> is_boundary(text, p, byte_len, #[trigger] out[x].start as int)
                    && is_boundary(text, p, byte_len, out[x].end as int)
        }),
{
    let m = p.len() as int;
    let out = final_segments(segs, cursor, byte_len);
    lemma_done_tiles(segs, cursor, byte_len);
    lemma_boundary_ends(text, p, byte_len);
    assert(cursor == 0 || is_boundary(text, p, byte_len, cursor)) by {
        if m > 0 {
            lemma_group_winner(p, k, m - 1);
            lemma_boundary_intro(text, p, byte_len, k[m - 1].2 as int);
        }
    }
    reveal(sweep_bounds);
    assert forall|x: int| 0 <= x < out.len() implies is_boundary(text, p, byte_len, #[trigger] out[x].start as int)
        && is_boundary(text, p, byte_len, out[x].end as int) by {
        if x < segs.len() {
            assert(out[x] == segs[x]);
        }
    }
}

proof fn lemma_done_labels(text: TextIndex, p: Seq<Point>, byte_len: int, cursor: int, segs: Seq<IndexedSegment>)
    requires
        sweep_labels(text, p, segs),
        tiles(segs, cursor),
        0 <= cursor <= byte_len <= usize::MAX,
    ensures
        ({
            let out = final_segments(segs, cursor, byte_len);
            forall|x: int|
                0 <= x < out.len() && (#[trigger] out[x].source != 0 || out[x].original is Some) ==> exists|w: int|
                    #[trigger] winner(p, w) && out[x].start == p[w].byte && out[x].end == span_end(text, p, w)
                        && out[x].source == p[w].source && out[x].original == p[w].original
        }),
{
    let out = final_segments(segs, cursor, byte_len);
    lemma_done_tiles(segs, cursor, byte_len);
    reveal(sweep_labels);
    assert forall|x: int| 0 <= x < out.len() && (#[trigger] out[x].source != 0 || out[x].original is Some)
        implies exists|w2: int| #[trigger] winner(p, w2) && out[x].start == p[w2].byte && out[x].end
            == span_end(text, p, w2) && out[x].source == p[w2].source && out[x].original == p[w2].original by {
        if x < segs.len() {
            assert(out[x] == segs[x]);
            assert(segs[x].source != 0 || segs[x].original is Some);
            assert(labeled_from_winner(text, p, segs[x]));
        }
    }
}

proof fn lemma_done_spans(text: TextIndex, p: Seq<Point>, k: Seq<Key>, byte_len: int, cursor: int, segs: Seq<IndexedSegment>)
    requires
        point_order(p, k),
        sweep_spans(text, p, k, p.len() as int, segs),
        tiles(segs, cursor),
        0 <= cursor <= byte_len <= usize::MAX,
    ensures
        ({
            let out = final_segments(segs, cursor, byte_len);
            forall|w: int|
                #[trigger] winner(p, w) && span_end(text, p, w) > p[w].byte ==> exists|x: int|
                    0 <= x < out.len() && out[x].start == p[w].byte && out[x].end == span_end(text, p, w)
                        && out[x].source == p[w].source && out[x].original == p[w].original
        }),
{
    let out = final_segments(segs, cursor, byte_len);
    lemma_done_tiles(segs, cursor, byte_len);
    reveal(sweep_spans);
    assert forall|w: int| #[trigger] winner(p, w) && span_end(text, p, w) > p[w].byte implies exists|x: int|
        0 <= x < out.len() && out[x].start == p[w].byte && out[x].end == span_end(text, p, w)
            && out[x].source == p[w].source && out[x].original == p[w].original by {
        assert(slot(k, w));
        let v = choose|v: int| 0 <= v < k.len() && (#[trigger] k[v]).2 == w;
        lemma_group_winner(p, k, v);
        assert(group_last(p, k, v));
        assert(holds_span(text, p, segs, w));
        let x = choose|x: int|
            0 <= x < segs.len() && (#[trigger] segs[x]).start == p[w].byte && segs[x].end == span_end(text, p, w)
                && segs[x].source == p[w].source && segs[x].original == p[w].original;
        assert(out[x] == segs[x]);
    }
}

proof fn lemma_done_inside(text: TextIndex, p: Seq<Point>, k: Seq<Key>, byte_len: int, cursor: int, segs: Seq<IndexedSegment>)
    requires
        point_order(p, k),
        sweep_endpoints(text, p, k, p.len() as int, segs),
        tiles(segs, cursor),
        0 <= cursor <= byte_len <= usize::MAX,
    ensures
        ({
            let out = final_segments(segs, cursor, byte_len);
            forall|x: int, b: int|
                #![trigger out[x], is_boundary(text, p, byte_len, b)]
                0 <= x < out.len() && is_boundary(text, p, byte_len, b) ==> !(out[x].start < b < out[x].end)
        }),
{
    let out = final_segments(segs, cursor, byte_len);
    lemma_done_tiles(segs, cursor, byte_len);
    reveal(sweep_endpoints);
    assert forall|x: int, b: int|
        #![trigger out[x], is_boundary(text, p, byte_len, b)]
        0 <= x < out.len() && is_boundary(text, p, byte_len, b) implies !(out[x].start < b < out[x].end) by {
        if b == 0 {
            lemma_endpoints_not_inside(out, byte_len, b, x);
        } else if b == byte_len {
            assert(is_endpoint(out, b)) by {
                assert(out[out.len() - 1].end == byte_len);
            }
            lemma_endpoints_not_inside(out, byte_len, b, x);
        } else {
            let w = lemma_boundary_elim(text, p, byte_len, b);
            assert(slot(k, w));
            let v = choose|v: int| 0 <= v < k.len() && (#[trigger] k[v]).2 == w;
            lemma_group_winner(p, k, v);
            assert(group_last(p, k, v));
            assert(is_endpoint(segs, b));
            let e = choose|e: int| 0 <= e < segs.len() && #[trigger] segs[e].end == b;
            assert(out[e] == segs[e]);
            lemma_endpoints_not_inside(out, byte_len, b, x);
        }
    }
}

proof fn lemma_sweep_done(text: TextIndex, p: Seq<Point>, k: Seq<Key>, byte_len: int, cursor: int, segs: Seq<IndexedSegment>)
    requires
        sweep_inv(text, p, k, byte_len, p.len() as int, cursor, segs),
    ensures
        attributed(text, p, byte_len, final_segments(segs, cursor, byte_len)),
{
    lemma_done_tiles(segs, cursor, byte_len);
    lemma_done_bounds(text, p, k, byte_len, cursor, segs);
    lemma_done_labels(text, p, byte_len, cursor, segs);
    lemma_done_spans(text, p, k, byte_len, cursor, segs);
    lemma_done_inside(text, p, k, byte_len, cursor, segs);
}

/// Sorts mapping points by generated position (keeping input order among
/// equal positions) and applies the attribution rule.
pub fn segments_from_points(points: &Vec<Point>, text: &TextIndex, byte_len: usize) -> (segs: Vec<
    IndexedSegment,
>)
    requires
        text.wf(),
        byte_len == byte_at(text@, text@.len() as int),
        points_valid(*text, points@),
    ensures
        attributed(*text, points@, byte_len as int, segs@),
{
    broadcast use vstd::seq_lib::group_to_multiset_ensures;

    let ghost p = points@;
    let m = points.len();
    let mut keys: Vec<Key> = Vec::new();
    for j in 0..m
        invariant
            m == p.len(),
            p == points@,
            keys@.len() == j,
            forall|x: int|
                0 <= x < j ==> #[trigger] keys@[x] == (p[x].line as usize, p[x].column as usize, x as usize),
    {
        keys.push((points[j].line as usize, points[j].column as usize, j));
    }
    let ghost unsorted = keys@;
    let sorted = sort_keys(keys);
    let ghost k = sorted@;
    proof {
        assert(unsorted.no_duplicates());
        unsorted.lemma_multiset_has_no_duplicates();
        k.lemma_multiset_has_no_duplicates_conv();
        assert forall|t: int| 0 <= t < k.len() implies (#[trigger] k[t]).2 < p.len() && k[t].0
            == p[k[t].2 as int].line && k[t].1 == p[k[t].2 as int].column by {
            assert(k.contains(k[t]));
            assert(unsorted.to_multiset().count(k[t]) > 0);
            assert(unsorted.contains(k[t]));
        }
        assert forall|j: int| 0 <= j < p.len() implies #[trigger] slot(k, j) by {
            assert(unsorted.contains(unsorted[j]));
            assert(k.to_multiset().count(unsorted[j]) > 0);
            assert(k.contains(unsorted[j]));
            let t = choose|t: int| 0 <= t < k.len() && k[t] == unsorted[j];
            assert(k[t].2 == j);
        }
        assert(point_order(p, k));
        assert(tiles(Seq::<IndexedSegment>::empty(), 0));
        reveal(sweep_future);
        reveal(sweep_endpoints);
        reveal(sweep_bounds);
        reveal(sweep_spans);
        reveal(sweep_labels);
    }
    let mut segs: Vec<IndexedSegment> = Vec::new();
    let mut cursor: usize = 0;
    let mut t: usize = 0;
    while t < m
        invariant
            m == p.len(),
            p == points@,
            k == sorted@,
            text.wf(),
            sweep_inv(*text, p, k, byte_len as int, t as int, cursor as int, segs@),
        decreases m - t,
    {
        let mut u = t;
        while u + 1 < m && sorted[u + 1].0 == sorted[t].0 && sorted[u + 1].1 == sorted[t].1
            invariant
                m == p.len(),
                k == sorted@,
                point_order(p, k),
                t <= u < m,
                k[u as int].0 == k[t as int].0 && k[u as int].1 == k[t as int].1,
            decreases m - u,
        {
            u = u + 1;
        }
        let ghost gu = u as int;
        proof {
            assert(group_last(p, k, gu));
            lemma_span_end(*text, p, k, gu, byte_len as int);
            lemma_sweep_step(*text, p, k, byte_len as int, t as int, gu, cursor as int, segs@);
        }
        let j = sorted[u].2;
        let point = points[j];
        let start = point.byte;
        let ghost old_segs = segs@;
        if start > cursor {
            segs.push(IndexedSegment { start: cursor, end: start, source: 0, original: None });
        }
        let end = if u + 1 < m && sorted[u + 1].0 == point.line as usize {
            points[sorted[u + 1].2].byte
        } else {
            match text.line_end(point.line) {
                Ok(e) => e,
                Err(_) => start,
            }
        };
        proof {
            let pj = p[j as int];
            text.lemma_position_order(pj.line as int, pj.column as int, pj.line as int, pj.column as int);
            assert(end == span_end(*text, p, j as int));
        }
        if end > start {
            segs.push(IndexedSegment { start, end, source: point.source, original: point.original });
        }
        proof {
            assert(segs@ == gap_then_span(old_segs, cursor as int, start as int, end as int, point));
        }
        cursor = end;
        t = u + 1;
    }
    let ghost old_segs = segs@;
    if cursor < byte_len {
        segs.push(IndexedSegment { start: cursor, end: byte_len, source: 0, original: None });
    }
    proof {
        lemma_sweep_done(*text, p, k, byte_len as int, cursor as int, old_segs);
        assert(segs@ == final_segments(old_segs, cursor as int, byte_len as int));
    }
    segs
}

} // verus!
