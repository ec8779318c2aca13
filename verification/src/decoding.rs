//! Turning a decoded source map into mapping points with interned sources.
use vstd::prelude::*;

use crate::attribution::{
    IndexedSegment, OriginalPosition, Point, attributed, points_valid, segments_from_points, unmapped_name,
};
use crate::json::{parse_json, parsed_json, map_error, validate_map};
use crate::source_map::{decode_source_map, decoded_source_map};
use crate::text::byte_at;
use crate::json::{MapError, position_before};
use crate::source_map::{MapSection, MapToken, MapTree, RegularMap};
use crate::source_path::{SourcePaths, resolved_source};
use crate::attribution::unmapped;
use crate::strings::{same_chars, chars_of};
use crate::text::{TextError, TextIndex};

verus! {

/// A zero-based generated line and UTF-16 column.
pub type Position = (u32, u32);

/// Why a source map could not be attributed.
#[derive(Debug, Clone)]
pub enum AttributionError {
    /// The JSON is no valid source map.
    InvalidMap(MapError),
    /// The `sourcemap` crate could not decode the map.
    Undecodable,
    /// Hermes source maps are unsupported.
    Hermes,
    /// A shifted line does not fit `u32`.
    LineOverflow,
    /// A shifted column does not fit `u32`.
    ColumnOverflow,
    /// Index-map sections are not strictly ordered.
    SectionsOrder,
    /// A section starts at or after the end of its parent section.
    SectionOutsideParent,
    /// A section has no embedded map.
    MissingSectionMap,
    /// A mapping lies past the start of the next section.
    MappingOverlapsSection,
    /// One source carries two different contents.
    ConflictingContents(String),
    /// A position outside the generated text.
    Text(TextError),
}

/// `AttributionError` as a value of contracts.
pub enum DecodeFailure {
    InvalidMap(MapError),
    Undecodable,
    Hermes,
    LineOverflow,
    ColumnOverflow,
    SectionsOrder,
    SectionOutsideParent,
    MissingSectionMap,
    MappingOverlapsSection,
    ConflictingContents(Seq<char>),
    Text(TextError),
}

impl View for AttributionError {
    type V = DecodeFailure;

    open spec fn view(&self) -> DecodeFailure {
        match self {
            AttributionError::InvalidMap(e) => DecodeFailure::InvalidMap(*e),
            AttributionError::Undecodable => DecodeFailure::Undecodable,
            AttributionError::Hermes => DecodeFailure::Hermes,
            AttributionError::LineOverflow => DecodeFailure::LineOverflow,
            AttributionError::ColumnOverflow => DecodeFailure::ColumnOverflow,
            AttributionError::SectionsOrder => DecodeFailure::SectionsOrder,
            AttributionError::SectionOutsideParent => DecodeFailure::SectionOutsideParent,
            AttributionError::MissingSectionMap => DecodeFailure::MissingSectionMap,
            AttributionError::MappingOverlapsSection => DecodeFailure::MappingOverlapsSection,
            AttributionError::ConflictingContents(s) => DecodeFailure::ConflictingContents(s@),
            AttributionError::Text(e) => DecodeFailure::Text(*e),
        }
    }
}

/// A local position shifted by a section's start: lines add; columns add on
/// the section's first line only.
pub open spec fn shifted(base: Position, local: Position) -> Result<Position, DecodeFailure> {
    if base.0 + local.0 > u32::MAX {
        Err(DecodeFailure::LineOverflow)
    } else if local.0 == 0 {
        if base.1 + local.1 > u32::MAX {
            Err(DecodeFailure::ColumnOverflow)
        } else {
            Ok(((base.0 + local.0) as u32, (base.1 + local.1) as u32))
        }
    } else {
        Ok(((base.0 + local.0) as u32, local.1))
    }
}

/// What stays fixed while a map is walked: the generated text, whether
/// contents are kept, and the root and map directory that names resolve against.
pub struct DecodeContext {
    pub text: TextIndex,
    pub retain: bool,
    pub paths: Option<(Seq<char>, Seq<char>)>,
}

/// What the walk has gathered: mapping points, interned sources (name and
/// content), and the count of mappings at invalid positions.
pub struct DecodeState {
    pub points: Seq<Point>,
    pub sources: Seq<(Seq<char>, Option<Seq<char>>)>,
    pub invalid: int,
}

/// The error of a position that `TextIndex::position` refuses.
pub open spec fn position_error(text: TextIndex, line: u32, column: u32) -> TextError {
    if line >= text.line_count() {
        TextError::LineOutsideSource(line)
    } else if column > text.line_units(line as int).1 - text.line_units(line as int).0 {
        TextError::ColumnExceedsLine(column, line)
    } else {
        TextError::InvalidUtf16Offset((text.line_units(line as int).0 + column) as usize)
    }
}

/// Section starts shifted by `offset`, the first of the first `n` that overflows failing.
pub open spec fn section_starts(offset: Position, secs: Seq<MapSection>, n: int) -> Result<
    Seq<Position>,
    DecodeFailure,
>
    decreases n,
{
    if n <= 0 {
        Ok(Seq::empty())
    } else {
        match section_starts(offset, secs, n - 1) {
            Err(e) => Err(e),
            Ok(s) => match shifted(offset, (secs[n - 1].line, secs[n - 1].column)) {
                Err(e) => Err(e),
                Ok(p) => Ok(s.push(p)),
            },
        }
    }
}

pub open spec fn strictly_ordered(s: Seq<Position>) -> bool {
    forall|i: int| 0 <= i < s.len() - 1 ==> position_before(#[trigger] s[i], s[i + 1])
}

pub open spec fn sections_of_tree(m: MapTree) -> Seq<MapSection> {
    match m {
        MapTree::Index(secs) => secs@,
        _ => Seq::empty(),
    }
}

/// The source name as the map spells it, `[unmapped]` where it has none.
pub open spec fn raw_name(r: RegularMap, i: int) -> Seq<char> {
    match r.sources@[i] {
        Some(s) => s@,
        None => unmapped_name(),
    }
}

pub open spec fn resolved_name(ctx: DecodeContext, r: RegularMap, i: int) -> Seq<char> {
    match ctx.paths {
        None => raw_name(r, i),
        Some(p) => resolved_source(p.0, p.1, raw_name(r, i)),
    }
}

pub open spec fn content_of(r: RegularMap, i: int) -> Option<Seq<char>> {
    if 0 <= i < r.contents@.len() {
        match r.contents@[i] {
            Some(c) => Some(c@),
            None => None,
        }
    } else {
        None
    }
}

/// Spellings that resolve alike but carry different contents are different modules.
pub open spec fn distinct_module(ctx: DecodeContext, r: RegularMap, i: int) -> bool {
    &&& raw_name(r, i) != resolved_name(ctx, r, i)
    &&& content_of(r, i) is Some
    &&& exists|j: int|
        0 <= j < r.sources@.len() && #[trigger] resolved_name(ctx, r, j) == resolved_name(ctx, r, i)
            && content_of(r, j) is Some && content_of(r, j) != content_of(r, i)
}

/// The identity under which source `i` is interned.
pub open spec fn source_identity(ctx: DecodeContext, r: RegularMap, i: int) -> Seq<char> {
    if distinct_module(ctx, r, i) {
        raw_name(r, i)
    } else {
        resolved_name(ctx, r, i)
    }
}

/// The first interned source at or after `i` named `name`, or the count.
pub open spec fn name_index(sources: Seq<(Seq<char>, Option<Seq<char>>)>, name: Seq<char>, i: int) -> int
    decreases sources.len() - i,
{
    if i >= sources.len() {
        sources.len() as int
    } else if sources[i].0 == name {
        i
    } else {
        name_index(sources, name, i + 1)
    }
}

/// Interns source `i` of a regular map and records its content.
pub open spec fn intern_step(
    ctx: DecodeContext,
    st: DecodeState,
    ids: Seq<int>,
    r: RegularMap,
    i: int,
) -> Result<(DecodeState, Seq<int>), DecodeFailure> {
    let name = source_identity(ctx, r, i);
    let id = name_index(st.sources, name, 0);
    let sources = if id == st.sources.len() {
        st.sources.push((name, None))
    } else {
        st.sources
    };
    if ctx.retain && content_of(r, i) is Some {
        let c = content_of(r, i).unwrap();
        match sources[id].1 {
            Some(previous) => if previous != c {
                Err(DecodeFailure::ConflictingContents(name))
            } else {
                Ok((DecodeState { sources, ..st }, ids.push(id)))
            },
            None => Ok((DecodeState { sources: sources.update(id, (name, Some(c))), ..st }, ids.push(id))),
        }
    } else {
        Ok((DecodeState { sources, ..st }, ids.push(id)))
    }
}

/// The first `n` sources of a regular map interned in order, with their ids.
pub open spec fn intern_sources(ctx: DecodeContext, st: DecodeState, r: RegularMap, n: int) -> Result<
    (DecodeState, Seq<int>),
    DecodeFailure,
>
    decreases n,
{
    if n <= 0 {
        Ok((st, Seq::empty()))
    } else {
        match intern_sources(ctx, st, r, n - 1) {
            Err(e) => Err(e),
            Ok((s, ids)) => intern_step(ctx, s, ids, r, n - 1),
        }
    }
}

/// The point of a token at a valid position.
pub open spec fn token_point(ctx: DecodeContext, ids: Seq<int>, t: MapToken, p: Position) -> Point {
    Point {
        line: p.0,
        column: p.1,
        byte: ctx.text.position_byte(p.0 as int, p.1 as int) as usize,
        source: if (t.src_id as int) < ids.len() {
            ids[t.src_id as int] as usize
        } else {
            0
        },
        original: if t.has_source {
            Some(OriginalPosition { line: t.src_line, column: t.src_col })
        } else {
            None
        },
    }
}

/// One token: shifted, held inside its section, skipped at the section's end,
/// counted where its position is invalid, else a point.
pub open spec fn token_step(
    ctx: DecodeContext,
    st: DecodeState,
    ids: Seq<int>,
    t: MapToken,
    offset: Position,
    end: Option<Position>,
) -> Result<DecodeState, DecodeFailure> {
    match shifted(offset, (t.dst_line, t.dst_col)) {
        Err(e) => Err(e),
        Ok(p) => if end matches Some(e) && position_before(e, p) {
            Err(DecodeFailure::MappingOverlapsSection)
        } else if end == Some(p) {
            Ok(st)
        } else if p.0 >= ctx.text.line_count() {
            Err(DecodeFailure::Text(TextError::LineOutsideSource(p.0)))
        } else if !ctx.text.valid_position(p.0 as int, p.1 as int) {
            Ok(DecodeState { invalid: if st.invalid < usize::MAX { st.invalid + 1 } else { st.invalid }, ..st })
        } else {
            Ok(DecodeState { points: st.points.push(token_point(ctx, ids, t, p)), ..st })
        },
    }
}

/// The first `n` tokens of a map walked in order.
pub open spec fn walk_tokens(
    ctx: DecodeContext,
    st: DecodeState,
    ids: Seq<int>,
    tokens: Seq<MapToken>,
    offset: Position,
    end: Option<Position>,
    n: int,
) -> Result<DecodeState, DecodeFailure>
    decreases n,
{
    if n <= 0 {
        Ok(st)
    } else {
        match walk_tokens(ctx, st, ids, tokens, offset, end, n - 1) {
            Err(e) => Err(e),
            Ok(s) => token_step(ctx, s, ids, tokens[n - 1], offset, end),
        }
    }
}

/// A regular map: its sources interned, then its tokens walked.
pub open spec fn walk_regular(
    ctx: DecodeContext,
    st: DecodeState,
    r: RegularMap,
    offset: Position,
    end: Option<Position>,
) -> Result<DecodeState, DecodeFailure> {
    match intern_sources(ctx, st, r, r.sources@.len() as int) {
        Err(e) => Err(e),
        Ok((s, ids)) => walk_tokens(ctx, s, ids, r.tokens@, offset, end, r.tokens@.len() as int),
    }
}

/// The walk of a decoded map whose generated positions start at `offset` and
/// end before `end`.
pub open spec fn walk(ctx: DecodeContext, st: DecodeState, m: MapTree, offset: Position, end: Option<Position>) -> Result<
    DecodeState,
    DecodeFailure,
>
    decreases m, sections_of_tree(m).len() + 1,
{
    match m {
        MapTree::Hermes => Err(DecodeFailure::Hermes),
        MapTree::Regular(r) => walk_regular(ctx, st, r, offset, end),
        MapTree::Index(secs) => match section_starts(offset, secs@, secs@.len() as int) {
            Err(e) => Err(e),
            Ok(starts) => if !strictly_ordered(starts) {
                Err(DecodeFailure::SectionsOrder)
            } else {
                walk_sections(ctx, st, m, starts, end, secs@.len() as int)
            },
        },
    }
}

/// The first `n` sections of an index map walked in order: each adds a point
/// of no source at its start, then its embedded map, bounded by the next start.
pub open spec fn walk_sections(
    ctx: DecodeContext,
    st: DecodeState,
    m: MapTree,
    starts: Seq<Position>,
    end: Option<Position>,
    n: int,
) -> Result<DecodeState, DecodeFailure>
    decreases m, n,
{
    let secs = sections_of_tree(m);
    if n <= 0 || n > secs.len() || n > starts.len() {
        Ok(st)
    } else {
        match walk_sections(ctx, st, m, starts, end, n - 1) {
            Err(e) => Err(e),
            Ok(s) => {
                let i = n - 1;
                let start = starts[i];
                if end matches Some(e) && !position_before(start, e) {
                    Err(DecodeFailure::SectionOutsideParent)
                } else if !ctx.text.valid_position(start.0 as int, start.1 as int) {
                    Err(DecodeFailure::Text(position_error(ctx.text, start.0, start.1)))
                } else {
                    let point = Point {
                        line: start.0,
                        column: start.1,
                        byte: ctx.text.position_byte(start.0 as int, start.1 as int) as usize,
                        source: 0,
                        original: None,
                    };
                    let s2 = DecodeState { points: s.points.push(point), ..s };
                    match secs[i].map {
                        None => Err(DecodeFailure::MissingSectionMap),
                        Some(inner) => walk(
                            ctx,
                            s2,
                            *inner,
                            start,
                            if i + 1 < starts.len() {
                                Some(starts[i + 1])
                            } else {
                                end
                            },
                        ),
                    }
                }
            },
        }
    }
}


/// A source interned by the walk: its identity and, where kept, its content.
#[derive(Debug, Clone)]
pub struct IndexedSource {
    pub name: String,
    pub content: Option<String>,
}

pub open spec fn content_view(c: Option<String>) -> Option<Seq<char>> {
    match c {
        Some(s) => Some(s@),
        None => None,
    }
}

/// Interned sources as contracts see them.
pub open spec fn sources_view(v: Seq<IndexedSource>) -> Seq<(Seq<char>, Option<Seq<char>>)> {
    v.map_values(|s: IndexedSource| (s.name@, content_view(s.content)))
}

pub open spec fn context_of(text: TextIndex, retain: bool, paths: Option<&SourcePaths>) -> DecodeContext {
    DecodeContext {
        text,
        retain,
        paths: match paths {
            Some(p) => Some((p.root@, p.directory@)),
            None => None,
        },
    }
}

/// Points lie at valid positions and name interned sources; `[unmapped]` stays first.
pub open spec fn state_ok(text: TextIndex, st: DecodeState) -> bool {
    &&& points_valid(text, st.points)
    &&& st.sources.len() >= 1
    &&& forall|i: int| 0 <= i < st.points.len() ==> (#[trigger] st.points[i]).source < st.sources.len()
}

/// The walk's state.
pub struct Decoder {
    pub points: Vec<Point>,
    pub sources: Vec<IndexedSource>,
    pub invalid_points: usize,
}

impl Decoder {
    pub open spec fn state(&self) -> DecodeState {
        DecodeState { points: self.points@, sources: sources_view(self.sources@), invalid: self.invalid_points as int }
    }
}

/// Shifts a section-local position by the section's start.
pub fn offset_position(base: Position, local: Position) -> (r: Result<Position, AttributionError>)
    ensures
        match r {
            Ok(p) => shifted(base, local) == Ok::<Position, DecodeFailure>(p),
            Err(e) => shifted(base, local) == Err::<Position, DecodeFailure>(e@),
        },
{
    let line = match base.0.checked_add(local.0) {
        Some(line) => line,
        None => return Err(AttributionError::LineOverflow),
    };
    let column = if local.0 == 0 {
        match base.1.checked_add(local.1) {
            Some(column) => column,
            None => return Err(AttributionError::ColumnOverflow),
        }
    } else {
        local.1
    };
    Ok((line, column))
}

fn raw_source(r: &RegularMap, i: usize) -> (s: String)
    requires
        i < r.sources@.len(),
    ensures
        s@ == raw_name(*r, i as int),
{
    match &r.sources[i] {
        Some(s) => s.clone(),
        None => unmapped(),
    }
}

fn content_at(r: &RegularMap, i: usize) -> (c: Option<&String>)
    ensures
        content_view(match c { Some(s) => Some(*s), None => None }) == content_of(*r, i as int),
{
    if i < r.contents.len() {
        match &r.contents[i] {
            Some(s) => Some(s),
            None => None,
        }
    } else {
        None
    }
}

fn same_content(a: Option<&String>, b: Option<&String>) -> (r: bool)
    ensures
        r == (content_view(match a { Some(s) => Some(*s), None => None }) == content_view(
            match b { Some(s) => Some(*s), None => None },
        )),
{
    match (a, b) {
        (Some(x), Some(y)) => same_chars(&chars_of(x.as_str()), &chars_of(y.as_str())),
        (None, None) => true,
        _ => false,
    }
}


pub open spec fn ids_view(ids: Seq<usize>) -> Seq<int> {
    ids.map_values(|x: usize| x as int)
}

proof fn lemma_name_index(sources: Seq<(Seq<char>, Option<Seq<char>>)>, name: Seq<char>, i: int)
    requires
        0 <= i <= sources.len(),
    ensures
        i <= name_index(sources, name, i) <= sources.len(),
        name_index(sources, name, i) < sources.len() ==> sources[name_index(sources, name, i)].0 == name,
    decreases sources.len() - i,
{
    if i < sources.len() && sources[i].0 != name {
        lemma_name_index(sources, name, i + 1);
    }
}

/// Whether another spelling resolving to the same identity carries a different content.
fn differs_from_alike(resolved: &Vec<String>, r: &RegularMap, i: usize, ghost_ctx: Ghost<DecodeContext>) -> (b: bool)
    requires
        resolved@.len() == r.sources@.len(),
        i < r.sources@.len(),
        forall|j: int| 0 <= j < resolved@.len() ==> #[trigger] resolved@[j]@ == resolved_name(ghost_ctx@, *r, j),
    ensures
        b == exists|j: int|
            0 <= j < r.sources@.len() && #[trigger] resolved_name(ghost_ctx@, *r, j) == resolved_name(ghost_ctx@, *r, i as int)
                && content_of(*r, j) is Some && content_of(*r, j) != content_of(*r, i as int),
{
    let mine = content_at(r, i);
    let name = chars_of(resolved[i].as_str());
    for j in 0..resolved.len()
        invariant
            resolved@.len() == r.sources@.len(),
            i < r.sources@.len(),
            name@ == resolved_name(ghost_ctx@, *r, i as int),
            content_view(match mine { Some(s) => Some(*s), None => None }) == content_of(*r, i as int),
            forall|j: int| 0 <= j < resolved@.len() ==> #[trigger] resolved@[j]@ == resolved_name(ghost_ctx@, *r, j),
            forall|k: int|
                0 <= k < j ==> !(#[trigger] resolved_name(ghost_ctx@, *r, k) == resolved_name(ghost_ctx@, *r, i as int)
                    && content_of(*r, k) is Some && content_of(*r, k) != content_of(*r, i as int)),
    {
        let other = content_at(r, j);
        if other.is_some() && !same_content(other, mine) && same_chars(&chars_of(resolved[j].as_str()), &name) {
            proof {
                assert(resolved_name(ghost_ctx@, *r, j as int) == resolved_name(ghost_ctx@, *r, i as int));
            }
            return true;
        }
    }
    proof {
        assert forall|j: int|
            0 <= j < r.sources@.len() && #[trigger] resolved_name(ghost_ctx@, *r, j) == resolved_name(ghost_ctx@, *r, i as int)
                implies !(content_of(*r, j) is Some && content_of(*r, j) != content_of(*r, i as int)) by {
        }
    }
    false
}

proof fn lemma_intern_err(ctx: DecodeContext, st: DecodeState, r: RegularMap, k: int, m: int)
    requires
        0 <= k <= m,
        intern_sources(ctx, st, r, k) is Err,
    ensures
        intern_sources(ctx, st, r, m) == intern_sources(ctx, st, r, k),
    decreases m - k,
{
    if m > k {
        lemma_intern_err(ctx, st, r, k, m - 1);
    }
}

impl Decoder {
    /// The position of the interned source named `name`, or the count.
    fn find_source(&self, name: &String) -> (id: usize)
        ensures
            id == name_index(self.state().sources, name@, 0),
    {
        let mut k: usize = 0;
        while k < self.sources.len() && !same_chars(&chars_of(self.sources[k].name.as_str()), &chars_of(name.as_str()))
            invariant
                k <= self.sources@.len(),
                name_index(self.state().sources, name@, k as int) == name_index(self.state().sources, name@, 0),
            decreases self.sources@.len() - k,
        {
            k = k + 1;
        }
        k
    }

    /// Interns the sources of a regular map, giving each its id.
    fn intern(&mut self, text: &TextIndex, retain: bool, paths: Option<&SourcePaths>, r: &RegularMap) -> (res: Result<
        Vec<usize>,
        AttributionError,
    >)
        requires
            state_ok(*text, old(self).state()),
        ensures
            match res {
                Ok(ids) => {
                    &&& intern_sources(context_of(*text, retain, paths), old(self).state(), *r, r.sources@.len() as int)
                        == Ok::<(DecodeState, Seq<int>), DecodeFailure>((final(self).state(), ids_view(ids@)))
                    &&& state_ok(*text, final(self).state())
                    &&& forall|k: int| 0 <= k < ids@.len() ==> #[trigger] ids@[k] < final(self).sources@.len()
                },
                Err(e) => intern_sources(context_of(*text, retain, paths), old(self).state(), *r, r.sources@.len() as int)
                    == Err::<(DecodeState, Seq<int>), DecodeFailure>(e@),
            },
    {
        let ghost ctx = context_of(*text, retain, paths);
        let ghost st0 = old(self).state();
        let n = r.sources.len();
        let mut raw: Vec<String> = Vec::new();
        let mut resolved: Vec<String> = Vec::new();
        for i in 0..n
            invariant
                n == r.sources@.len(),
                ctx == context_of(*text, retain, paths),
                raw@.len() == i,
                resolved@.len() == i,
                forall|j: int| 0 <= j < i ==> #[trigger] raw@[j]@ == raw_name(*r, j),
                forall|j: int| 0 <= j < i ==> #[trigger] resolved@[j]@ == resolved_name(ctx, *r, j),
        {
            let name = raw_source(r, i);
            let identity = match paths {
                Some(p) => p.resolve(name.as_str()),
                None => name.clone(),
            };
            raw.push(name);
            resolved.push(identity);
        }
        let mut ids: Vec<usize> = Vec::new();
        proof {
            assert(ids_view(ids@) =~= Seq::<int>::empty());
        }
        for i in 0..n
            invariant
                n == r.sources@.len(),
                ctx == context_of(*text, retain, paths),
                raw@.len() == n,
                resolved@.len() == n,
                forall|j: int| 0 <= j < n ==> #[trigger] raw@[j]@ == raw_name(*r, j),
                forall|j: int| 0 <= j < n ==> #[trigger] resolved@[j]@ == resolved_name(ctx, *r, j),
                intern_sources(ctx, st0, *r, i as int) == Ok::<(DecodeState, Seq<int>), DecodeFailure>((self.state(), ids_view(ids@))),
                state_ok(*text, self.state()),
                st0 == old(self).state(),
                self.points@ == st0.points,
                forall|k: int| 0 <= k < ids@.len() ==> #[trigger] ids@[k] < self.sources@.len(),
        {
            let ghost before = self.state();
            let ghost ids_before = ids_view(ids@);
            let content = content_at(r, i);
            let distinct = !same_chars(&chars_of(raw[i].as_str()), &chars_of(resolved[i].as_str())) && content.is_some()
                && differs_from_alike(&resolved, r, i, Ghost(ctx));
            proof {
                assert(distinct == distinct_module(ctx, *r, i as int));
            }
            let name = if distinct { raw[i].clone() } else { resolved[i].clone() };
            let mut id = self.find_source(&name);
            proof {
                lemma_name_index(before.sources, name@, 0);
            }
            if id == self.sources.len() {
                self.sources.push(IndexedSource { name: name.clone(), content: None });
                proof {
                    assert(sources_view(self.sources@) =~= before.sources.push((name@, None)));
                }
            }
            let ghost mid = self.state();
            if retain && content.is_some() {
                let c = content.unwrap();
                match &self.sources[id].content {
                    Some(previous) => {
                        if !same_chars(&chars_of(previous.as_str()), &chars_of(c.as_str())) {
                            proof {
                                assert(mid.sources[id as int].1 == Some(previous@));
                                assert(content_of(*r, i as int) == Some(c@));
                                assert(intern_sources(ctx, st0, *r, i + 1) == Err::<(DecodeState, Seq<int>), DecodeFailure>(
                                    DecodeFailure::ConflictingContents(name@),
                                ));
                                lemma_intern_err(ctx, st0, *r, i + 1, n as int);
                                assert(st0 == old(self).state());
                                assert(intern_sources(ctx, st0, *r, n as int) == Err::<(DecodeState, Seq<int>), DecodeFailure>(
                                    DecodeFailure::ConflictingContents(name@),
                                ));
                            }
                            return Err(AttributionError::ConflictingContents(name));
                        }
                    },
                    None => {
                        self.sources.set(id, IndexedSource { name: name.clone(), content: Some(c.clone()) });
                        proof {
                            assert(content_of(*r, i as int) == Some(c@));
                            assert(sources_view(self.sources@) =~= mid.sources.update(id as int, (name@, Some(c@))));
                        }
                    },
                }
            }
            ids.push(id);
            proof {
                assert(ids_view(ids@) =~= ids_before.push(id as int));
                assert(self.state().points == before.points);
                assert(name@ == source_identity(ctx, *r, i as int));
                assert(intern_sources(ctx, st0, *r, i + 1) == intern_step(ctx, before, ids_before, *r, i as int));
                if retain && content.is_some() {
                    assert(content_of(*r, i as int) == Some(content.unwrap()@));
                } else {
                    assert(!(ctx.retain && content_of(*r, i as int) is Some));
                }
                assert(intern_step(ctx, before, ids_before, *r, i as int) == Ok::<(DecodeState, Seq<int>), DecodeFailure>((self.state(), ids_view(ids@))));
            }
        }
        Ok(ids)
    }
}


proof fn lemma_tokens_err(
    ctx: DecodeContext,
    st: DecodeState,
    ids: Seq<int>,
    tokens: Seq<MapToken>,
    offset: Position,
    end: Option<Position>,
    k: int,
    m: int,
)
    requires
        0 <= k <= m,
        walk_tokens(ctx, st, ids, tokens, offset, end, k) is Err,
    ensures
        walk_tokens(ctx, st, ids, tokens, offset, end, m) == walk_tokens(ctx, st, ids, tokens, offset, end, k),
    decreases m - k,
{
    if m > k {
        lemma_tokens_err(ctx, st, ids, tokens, offset, end, k, m - 1);
    }
}

proof fn lemma_starts_err(offset: Position, secs: Seq<MapSection>, k: int, m: int)
    requires
        0 <= k <= m,
        section_starts(offset, secs, k) is Err,
    ensures
        section_starts(offset, secs, m) == section_starts(offset, secs, k),
    decreases m - k,
{
    if m > k {
        lemma_starts_err(offset, secs, k, m - 1);
    }
}

proof fn lemma_starts_len(offset: Position, secs: Seq<MapSection>, k: int)
    requires
        0 <= k,
        section_starts(offset, secs, k) is Ok,
    ensures
        section_starts(offset, secs, k) matches Ok(s) && s.len() == k,
    decreases k,
{
    if k > 0 {
        lemma_starts_len(offset, secs, k - 1);
    }
}

proof fn lemma_sections_err(
    ctx: DecodeContext,
    st: DecodeState,
    m: MapTree,
    starts: Seq<Position>,
    end: Option<Position>,
    k: int,
    n: int,
)
    requires
        0 <= k <= n <= sections_of_tree(m).len(),
        n <= starts.len(),
        walk_sections(ctx, st, m, starts, end, k) is Err,
    ensures
        walk_sections(ctx, st, m, starts, end, n) == walk_sections(ctx, st, m, starts, end, k),
    decreases n - k,
{
    if n > k {
        lemma_sections_err(ctx, st, m, starts, end, k, n - 1);
    }
}

impl Decoder {
    /// Walks the tokens of a regular map whose sources have the ids `ids`.
    fn walk_map_tokens(
        &mut self,
        text: &TextIndex,
        retain: bool,
        paths: Option<&SourcePaths>,
        ids: &Vec<usize>,
        tokens: &Vec<MapToken>,
        offset: Position,
        end: Option<Position>,
    ) -> (res: Result<(), AttributionError>)
        requires
            text.wf(),
            state_ok(*text, old(self).state()),
            forall|k: int| 0 <= k < ids@.len() ==> #[trigger] ids@[k] < old(self).sources@.len(),
        ensures
            match res {
                Ok(()) => {
                    &&& walk_tokens(context_of(*text, retain, paths), old(self).state(), ids_view(ids@), tokens@, offset, end, tokens@.len() as int)
                        == Ok::<DecodeState, DecodeFailure>(final(self).state())
                    &&& state_ok(*text, final(self).state())
                },
                Err(e) => walk_tokens(context_of(*text, retain, paths), old(self).state(), ids_view(ids@), tokens@, offset, end, tokens@.len() as int)
                    == Err::<DecodeState, DecodeFailure>(e@),
            },
    {
        let ghost ctx = context_of(*text, retain, paths);
        let ghost st0 = old(self).state();
        let ghost idv = ids_view(ids@);
        let n = tokens.len();
        for k in 0..n
            invariant
                n == tokens@.len(),
                text.wf(),
                ctx == context_of(*text, retain, paths),
                st0 == old(self).state(),
                idv == ids_view(ids@),
                walk_tokens(ctx, st0, idv, tokens@, offset, end, k as int) == Ok::<DecodeState, DecodeFailure>(self.state()),
                state_ok(*text, self.state()),
                self.sources@ == old(self).sources@,
                forall|j: int| 0 <= j < ids@.len() ==> #[trigger] ids@[j] < self.sources@.len(),
        {
            let ghost before = self.state();
            let t = tokens[k];
            proof {
                assert(walk_tokens(ctx, st0, idv, tokens@, offset, end, k + 1) == token_step(ctx, before, idv, t, offset, end));
            }
            let p = match offset_position(offset, (t.dst_line, t.dst_col)) {
                Ok(p) => p,
                Err(e) => {
                    proof {
                        lemma_tokens_err(ctx, st0, idv, tokens@, offset, end, k + 1, n as int);
                    }
                    return Err(e);
                },
            };
            let at_end = match end {
                Some(e) => {
                    if e.0 < p.0 || (e.0 == p.0 && e.1 < p.1) {
                        proof {
                            lemma_tokens_err(ctx, st0, idv, tokens@, offset, end, k + 1, n as int);
                        }
                        return Err(AttributionError::MappingOverlapsSection);
                    }
                    e.0 == p.0 && e.1 == p.1
                },
                None => false,
            };
            if !at_end {
                match text.line_end(p.0) {
                    Err(e) => {
                        proof {
                            lemma_tokens_err(ctx, st0, idv, tokens@, offset, end, k + 1, n as int);
                        }
                        return Err(AttributionError::Text(e));
                    },
                    Ok(_) => {},
                }
                match text.position(p.0, p.1) {
                    Err(_) => {
                        if self.invalid_points < usize::MAX {
                            self.invalid_points = self.invalid_points + 1;
                        }
                    },
                    Ok(byte) => {
                        let id = t.src_id as usize;
                        let source = if id < ids.len() { ids[id] } else { 0 };
                        let original = if t.has_source {
                            Some(OriginalPosition { line: t.src_line, column: t.src_col })
                        } else {
                            None
                        };
                        self.points.push(Point { line: p.0, column: p.1, byte, source, original });
                        proof {
                            assert(self.points@ =~= before.points.push(token_point(ctx, idv, t, p)));
                        }
                    },
                }
            } else {
                proof {
                    assert(end == Some(p));
                }
            }
        }
        Ok(())
    }
}


impl Decoder {
    /// Walks a decoded map whose generated positions start at `offset` and
    /// stay before `end`.
    #[verifier::spinoff_prover]
    #[verifier::rlimit(60)]
    pub fn collect(
        &mut self,
        text: &TextIndex,
        retain: bool,
        paths: Option<&SourcePaths>,
        m: &MapTree,
        offset: Position,
        end: Option<Position>,
    ) -> (res: Result<(), AttributionError>)
        requires
            text.wf(),
            state_ok(*text, old(self).state()),
        ensures
            match res {
                Ok(()) => {
                    &&& walk(context_of(*text, retain, paths), old(self).state(), *m, offset, end)
                        == Ok::<DecodeState, DecodeFailure>(final(self).state())
                    &&& state_ok(*text, final(self).state())
                },
                Err(e) => walk(context_of(*text, retain, paths), old(self).state(), *m, offset, end) == Err::<
                    DecodeState,
                    DecodeFailure,
                >(e@),
            },
        decreases *m, sections_of_tree(*m).len() + 1,
    {
        let ghost ctx = context_of(*text, retain, paths);
        match m {
            MapTree::Hermes => Err(AttributionError::Hermes),
            MapTree::Regular(r) => {
                let ids = match self.intern(text, retain, paths, r) {
                    Ok(ids) => ids,
                    Err(e) => return Err(e),
                };
                self.walk_map_tokens(text, retain, paths, &ids, &r.tokens, offset, end)
            },
            MapTree::Index(secs) => {
                let ghost st0 = old(self).state();
                let n = secs.len();
                let mut starts: Vec<Position> = Vec::new();
                for i in 0..n
                    invariant
                        n == secs@.len(),
                        *m is Index,
                        sections_of_tree(*m) == secs@,
                        ctx == context_of(*text, retain, paths),
                        st0 == old(self).state(),
                        section_starts(offset, secs@, i as int) == Ok::<Seq<Position>, DecodeFailure>(starts@),
                {
                    match offset_position(offset, (secs[i].line, secs[i].column)) {
                        Ok(p) => starts.push(p),
                        Err(e) => {
                            proof {
                                assert(shifted(offset, (secs@[i as int].line, secs@[i as int].column)) == Err::<Position, DecodeFailure>(e@));
                                assert(section_starts(offset, secs@, i as int) == Ok::<Seq<Position>, DecodeFailure>(starts@));
                                assert(section_starts(offset, secs@, i + 1) == Err::<Seq<Position>, DecodeFailure>(e@));
                                lemma_starts_err(offset, secs@, i + 1, n as int);
                                assert(*m is Index);
                                assert(sections_of_tree(*m) == secs@);
                                assert(walk(ctx, st0, *m, offset, end) == Err::<DecodeState, DecodeFailure>(e@));
                            }
                            return Err(e);
                        },
                    }
                }
                proof {
                    lemma_starts_len(offset, secs@, n as int);
                }
                proof {
                    assert(sections_of_tree(*m) == secs@);
                }
                let mut i: usize = 1;
                while i < n
                    invariant
                        n == secs@.len(),
                        *m is Index,
                        sections_of_tree(*m) == secs@,
                        ctx == context_of(*text, retain, paths),
                        st0 == old(self).state(),
                        starts@.len() == n,
                        section_starts(offset, secs@, n as int) == Ok::<Seq<Position>, DecodeFailure>(starts@),
                        1 <= i,
                        forall|j: int| 0 <= j < i - 1 ==> position_before(#[trigger] starts@[j], starts@[j + 1]),
                    decreases n - i,
                {
                    let a = starts[i - 1];
                    let b = starts[i];
                    if !(a.0 < b.0 || (a.0 == b.0 && a.1 < b.1)) {
                        proof {
                            assert(!position_before(starts@[i - 1], starts@[(i - 1) + 1]));
                        }
                        return Err(AttributionError::SectionsOrder);
                    }
                    i = i + 1;
                }
                for i in 0..n
                    invariant
                        n == secs@.len(),
                        starts@.len() == n,
                        text.wf(),
                        ctx == context_of(*text, retain, paths),
                        st0 == old(self).state(),
                        *m is Index,
                        sections_of_tree(*m) == secs@,
                        section_starts(offset, secs@, n as int) == Ok::<Seq<Position>, DecodeFailure>(starts@),
                        strictly_ordered(starts@),
                        walk_sections(ctx, st0, *m, starts@, end, i as int) == Ok::<DecodeState, DecodeFailure>(self.state()),
                        state_ok(*text, self.state()),
                {
                    let ghost before = self.state();
                    let start = starts[i];
                    if let Some(e) = end {
                        if !(start.0 < e.0 || (start.0 == e.0 && start.1 < e.1)) {
                            proof {
                                lemma_sections_err(ctx, st0, *m, starts@, end, i + 1, n as int);
                            }
                            return Err(AttributionError::SectionOutsideParent);
                        }
                    }
                    let byte = match text.position(start.0, start.1) {
                        Ok(byte) => byte,
                        Err(e) => {
                            proof {
                                lemma_sections_err(ctx, st0, *m, starts@, end, i + 1, n as int);
                            }
                            return Err(AttributionError::Text(e));
                        },
                    };
                    self.points.push(Point { line: start.0, column: start.1, byte, source: 0, original: None });
                    let next_end = if i + 1 < n { Some(starts[i + 1]) } else { end };
                    match &secs[i].map {
                        None => {
                            proof {
                                lemma_sections_err(ctx, st0, *m, starts@, end, i + 1, n as int);
                            }
                            return Err(AttributionError::MissingSectionMap);
                        },
                        Some(inner) => {
                            proof {
                                assert(self.state().points =~= before.points.push(
                                    Point { line: start.0, column: start.1, byte, source: 0, original: None },
                                ));
                            }
                            match self.collect(text, retain, paths, inner, start, next_end) {
                                Ok(()) => {},
                                Err(e) => {
                                    proof {
                                        lemma_sections_err(ctx, st0, *m, starts@, end, i + 1, n as int);
                                    }
                                    return Err(e);
                                },
                            }
                        },
                    }
                }
                Ok(())
            },
        }
    }
}


/// Segments over interned sources, the sources, and the count of mappings at
/// invalid positions.
#[derive(Debug)]
pub struct IndexedAttribution {
    pub segments: Vec<IndexedSegment>,
    pub sources: Vec<IndexedSource>,
    pub invalid_points: usize,
}

/// Nothing gathered yet but the `[unmapped]` source.
pub open spec fn initial_state() -> DecodeState {
    DecodeState { points: Seq::empty(), sources: seq![(unmapped_name(), None)], invalid: 0 }
}

/// The walk of a whole decoded map.
pub open spec fn tree_outcome(ctx: DecodeContext, m: MapTree) -> Result<DecodeState, DecodeFailure> {
    walk(ctx, initial_state(), m, (0, 0), None)
}

/// The outcome for source-map bytes: JSON checked, then decoded, then walked.
pub open spec fn decode_outcome(ctx: DecodeContext, data: Seq<u8>) -> Result<DecodeState, DecodeFailure> {
    match parsed_json(data) {
        None => Err(DecodeFailure::InvalidMap(MapError::NotJson)),
        Some(j) => match map_error(j) {
            Some(e) => Err(DecodeFailure::InvalidMap(e)),
            None => match decoded_source_map(data) {
                None => Err(DecodeFailure::Undecodable),
                Some(m) => tree_outcome(ctx, m),
            },
        },
    }
}

/// An indexed attribution is what a walk gathered, its segments attributed
/// by the last-mapping-wins rule.
pub open spec fn indexed_result(text: TextIndex, byte_len: int, s: DecodeState, a: IndexedAttribution) -> bool {
    &&& attributed(text, s.points, byte_len, a.segments@)
    &&& sources_view(a.sources@) == s.sources
    &&& a.invalid_points == s.invalid
    &&& forall|k: int| 0 <= k < a.segments@.len() ==> (#[trigger] a.segments@[k]).source < a.sources@.len()
}

/// Attributes a decoded map: walks it from `[unmapped]` alone, then cuts
/// the text into segments.
pub fn decode_tree(
    tree: &MapTree,
    text: &TextIndex,
    byte_len: usize,
    retain_contents: bool,
    source_paths: Option<&SourcePaths>,
) -> (r: Result<IndexedAttribution, AttributionError>)
    requires
        text.wf(),
        byte_len == byte_at(text@, text@.len() as int),
    ensures
        match r {
            Ok(a) => tree_outcome(context_of(*text, retain_contents, source_paths), *tree) matches Ok(s)
                && indexed_result(*text, byte_len as int, s, a),
            Err(e) => tree_outcome(context_of(*text, retain_contents, source_paths), *tree) == Err::<
                DecodeState,
                DecodeFailure,
            >(e@),
        },
{
    let mut sources: Vec<IndexedSource> = Vec::new();
    sources.push(IndexedSource { name: unmapped(), content: None });
    let mut decoder = Decoder { points: Vec::new(), sources, invalid_points: 0 };
    proof {
        assert(decoder.state().points =~= initial_state().points);
        assert(decoder.state().sources =~= initial_state().sources);
    }
    match decoder.collect(text, retain_contents, source_paths, tree, (0, 0), None) {
        Err(e) => Err(e),
        Ok(()) => {
            let segments = segments_from_points(&decoder.points, text, byte_len);
            proof {
                let st = decoder.state();
                assert forall|k: int| 0 <= k < segments@.len() implies (#[trigger] segments@[k]).source
                    < decoder.sources@.len() by {
                    if segments@[k].source != 0 {
                        let w = choose|w: int|
                            #[trigger] crate::attribution::winner(st.points, w) && segments@[k].start == st.points[w].byte
                                && segments@[k].end == crate::attribution::span_end(*text, st.points, w)
                                && segments@[k].source == st.points[w].source && segments@[k].original
                                == st.points[w].original;
                        assert(st.points[w].source < st.sources.len());
                    }
                }
            }
            Ok(IndexedAttribution { segments, sources: decoder.sources, invalid_points: decoder.invalid_points })
        },
    }
}

/// Attributes source-map bytes over a generated text: the JSON must be a
/// valid map, the `sourcemap` crate must decode it, and its walk must succeed.
pub fn decode_indexed(
    data: &[u8],
    text: &TextIndex,
    byte_len: usize,
    retain_contents: bool,
    source_paths: Option<&SourcePaths>,
) -> (r: Result<IndexedAttribution, AttributionError>)
    requires
        text.wf(),
        byte_len == byte_at(text@, text@.len() as int),
    ensures
        match r {
            Ok(a) => decode_outcome(context_of(*text, retain_contents, source_paths), data@) matches Ok(s)
                && indexed_result(*text, byte_len as int, s, a),
            Err(e) => decode_outcome(context_of(*text, retain_contents, source_paths), data@) == Err::<
                DecodeState,
                DecodeFailure,
            >(e@),
        },
{
    let json = match parse_json(data) {
        None => return Err(AttributionError::InvalidMap(MapError::NotJson)),
        Some(json) => json,
    };
    match validate_map(&json) {
        Err(e) => return Err(AttributionError::InvalidMap(e)),
        Ok(()) => {},
    }
    let tree = match decode_source_map(data) {
        Err(_) => return Err(AttributionError::Undecodable),
        Ok(tree) => tree,
    };
    decode_tree(&tree, text, byte_len, retain_contents, source_paths)
}


/// A generated byte range attributed to a named source.
#[derive(Debug, Clone)]
pub struct Segment {
    pub start: usize,
    pub end: usize,
    pub source: String,
    pub original: Option<OriginalPosition>,
}

/// Segments, the count of mappings at invalid positions, and the content of
/// each source that carries one, in the order sources were first met.
#[derive(Debug)]
pub struct Attribution {
    pub segments: Vec<Segment>,
    pub invalid_points: usize,
    pub contents: Vec<(String, String)>,
}

/// `segs` are `idx` with each source index replaced by its name.
pub open spec fn named(segs: Seq<Segment>, idx: Seq<IndexedSegment>, sources: Seq<(Seq<char>, Option<Seq<char>>)>) -> bool {
    &&& segs.len() == idx.len()
    &&& forall|k: int|
        0 <= k < segs.len() ==> {
            &&& (#[trigger] segs[k]).start == idx[k].start
            &&& segs[k].end == idx[k].end
            &&& segs[k].original == idx[k].original
            &&& 0 <= idx[k].source < sources.len()
            &&& segs[k].source@ == sources[idx[k].source as int].0
        }
}

/// The (name, content) pairs of the sources that carry a content, in order.
pub open spec fn source_contents(sources: Seq<(Seq<char>, Option<Seq<char>>)>) -> Seq<(Seq<char>, Seq<char>)>
    decreases sources.len(),
{
    if sources.len() == 0 {
        Seq::empty()
    } else {
        let rest = source_contents(sources.drop_last());
        match sources.last().1 {
            Some(c) => rest.push((sources.last().0, c)),
            None => rest,
        }
    }
}

pub open spec fn pairs_view(v: Seq<(String, String)>) -> Seq<(Seq<char>, Seq<char>)> {
    v.map_values(|p: (String, String)| (p.0@, p.1@))
}

/// Named segments attributed by the last-mapping-wins rule over these points.
pub open spec fn attributed_names(
    text: TextIndex,
    points: Seq<Point>,
    byte_len: int,
    sources: Seq<(Seq<char>, Option<Seq<char>>)>,
    segs: Seq<Segment>,
) -> bool {
    exists|idx: Seq<IndexedSegment>| attributed(text, points, byte_len, idx) && #[trigger] named(segs, idx, sources)
}

/// What an attribution states of a successful walk.
pub open spec fn attribution_result(text: TextIndex, byte_len: int, s: DecodeState, a: Attribution) -> bool {
    &&& attributed_names(text, s.points, byte_len, s.sources, a.segments@)
    &&& a.invalid_points == s.invalid
    &&& pairs_view(a.contents@) == source_contents(s.sources)
}

fn named_attribution(indexed: IndexedAttribution) -> (a: Attribution)
    requires
        forall|k: int| 0 <= k < indexed.segments@.len() ==> (#[trigger] indexed.segments@[k]).source < indexed.sources@.len(),
    ensures
        named(a.segments@, indexed.segments@, sources_view(indexed.sources@)),
        a.invalid_points == indexed.invalid_points,
        pairs_view(a.contents@) == source_contents(sources_view(indexed.sources@)),
{
    let ghost sv = sources_view(indexed.sources@);
    let mut segments: Vec<Segment> = Vec::new();
    for k in 0..indexed.segments.len()
        invariant
            sv == sources_view(indexed.sources@),
            forall|j: int| 0 <= j < indexed.segments@.len() ==> (#[trigger] indexed.segments@[j]).source < indexed.sources@.len(),
            named(segments@, indexed.segments@.take(k as int), sv),
    {
        let s = indexed.segments[k];
        segments.push(Segment {
            start: s.start,
            end: s.end,
            source: indexed.sources[s.source].name.clone(),
            original: s.original,
        });
        proof {
            assert forall|j: int| 0 <= j < segments@.len() implies {
                &&& (#[trigger] segments@[j]).start == indexed.segments@.take(k + 1)[j].start
                &&& segments@[j].end == indexed.segments@.take(k + 1)[j].end
                &&& segments@[j].original == indexed.segments@.take(k + 1)[j].original
                &&& 0 <= indexed.segments@.take(k + 1)[j].source < sv.len()
                &&& segments@[j].source@ == sv[indexed.segments@.take(k + 1)[j].source as int].0
            } by {
                if j < k {
                    assert(indexed.segments@.take(k + 1)[j] == indexed.segments@.take(k as int)[j]);
                }
            }
        }
    }
    proof {
        assert(indexed.segments@.take(indexed.segments@.len() as int) =~= indexed.segments@);
    }
    let mut contents: Vec<(String, String)> = Vec::new();
    for k in 0..indexed.sources.len()
        invariant
            sv == sources_view(indexed.sources@),
            pairs_view(contents@) == source_contents(sv.take(k as int)),
    {
        proof {
            assert(sv.take(k + 1).drop_last() =~= sv.take(k as int));
        }
        match &indexed.sources[k].content {
            Some(c) => {
                let ghost before = pairs_view(contents@);
                contents.push((indexed.sources[k].name.clone(), c.clone()));
                proof {
                    assert(pairs_view(contents@) =~= before.push((sv[k as int].0, c@)));
                }
            },
            None => {},
        }
    }
    proof {
        assert(sv.take(sv.len() as int) =~= sv);
    }
    Attribution { segments, invalid_points: indexed.invalid_points, contents }
}

/// Attributes source-map bytes to named sources, keeping each source's
/// content where `retain_contents` is set.
pub fn decode_with_contents(data: &[u8], text: &TextIndex, byte_len: usize, retain_contents: bool) -> (r: Result<
    Attribution,
    AttributionError,
>)
    requires
        text.wf(),
        byte_len == byte_at(text@, text@.len() as int),
    ensures
        match r {
            Ok(a) => decode_outcome(context_of(*text, retain_contents, None), data@) matches Ok(s)
                && attribution_result(*text, byte_len as int, s, a),
            Err(e) => decode_outcome(context_of(*text, retain_contents, None), data@) == Err::<DecodeState, DecodeFailure>(e@),
        },
{
    match decode_indexed(data, text, byte_len, retain_contents, None) {
        Err(e) => Err(e),
        Ok(indexed) => {
            let ghost idx = indexed.segments@;
            let a = named_attribution(indexed);
            proof {
                let s = decode_outcome(context_of(*text, retain_contents, None), data@)->Ok_0;
                assert(named(a.segments@, idx, s.sources));
            }
            Ok(a)
        },
    }
}

/// `decode_with_contents`, keeping contents.
pub fn decode(data: &[u8], text: &TextIndex, byte_len: usize) -> (r: Result<Attribution, AttributionError>)
    requires
        text.wf(),
        byte_len == byte_at(text@, text@.len() as int),
    ensures
        match r {
            Ok(a) => decode_outcome(context_of(*text, true, None), data@) matches Ok(s)
                && attribution_result(*text, byte_len as int, s, a),
            Err(e) => decode_outcome(context_of(*text, true, None), data@) == Err::<DecodeState, DecodeFailure>(e@),
        },
{
    decode_with_contents(data, text, byte_len, true)
}

/// The segments of `decode` and its count of mappings at invalid positions.
pub fn segments_with_diagnostics(data: &[u8], text: &TextIndex, byte_len: usize) -> (r: Result<
    (Vec<Segment>, usize),
    AttributionError,
>)
    requires
        text.wf(),
        byte_len == byte_at(text@, text@.len() as int),
    ensures
        match r {
            Ok((segs, invalid)) => decode_outcome(context_of(*text, true, None), data@) matches Ok(s)
                && attributed_names(*text, s.points, byte_len as int, s.sources, segs@) && invalid == s.invalid,
            Err(e) => decode_outcome(context_of(*text, true, None), data@) == Err::<DecodeState, DecodeFailure>(e@),
        },
{
    match decode(data, text, byte_len) {
        Err(e) => Err(e),
        Ok(a) => Ok((a.segments, a.invalid_points)),
    }
}

/// Attribute each mapping to the next mapping on the same line or the line
/// end; prefixes, newlines, mapping gaps and bundler wrappers stay unmapped.
pub fn segments(data: &[u8], text: &TextIndex, byte_len: usize) -> (r: Result<Vec<Segment>, AttributionError>)
    requires
        text.wf(),
        byte_len == byte_at(text@, text@.len() as int),
    ensures
        match r {
            Ok(segs) => decode_outcome(context_of(*text, true, None), data@) matches Ok(s)
                && attributed_names(*text, s.points, byte_len as int, s.sources, segs@),
            Err(e) => decode_outcome(context_of(*text, true, None), data@) == Err::<DecodeState, DecodeFailure>(e@),
        },
{
    match segments_with_diagnostics(data, text, byte_len) {
        Err(e) => Err(e),
        Ok((segs, _)) => Ok(segs),
    }
}

} // verus!
