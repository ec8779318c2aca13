//! One bundle analysed: its map decoded, its observations bound and merged,
//! its bytes counted by source and status.
use vstd::prelude::*;

use sha2::Digest;

use crate::accounting::{
    SourceAccount, accounted, account_sources, spans, contiguous, cuts_on_boundaries, spans_upto, used_view,
};
use crate::analysis::{BundleRow, Counts, Span, balanced, tally_of};
use crate::attribution::unmapped;
use crate::coverage::{CoverageError, Interval, all_nonempty, covers, normalized, separated, union, well_formed};
use crate::decoding::{
    AttributionError, DecodeFailure, DecodeState, Segment, attributed_names, context_of, decode_outcome,
    decode_with_contents,
};
use crate::input::{BindingError, Observation, Ranges, Verification};
use crate::strings::str_eq;
use vstd::utf8::encode_utf8;
use crate::attribution::{IndexedSegment, attributed};
use crate::text::{TextError, TextIndex, byte_at, is_unit_boundary, lemma_offsets_grow, lemma_total_bytes, unit_at};

verus! {

/// The lowercase hex SHA-256 digest of these bytes.
pub uninterp spec fn sha256_hex(data: Seq<u8>) -> Seq<char>;

/// `sha2::Sha256::digest`, written as 64 lowercase hex digits. The contract
/// names the digest: a function of the bytes alone.
#[verifier::external_body]
pub fn sha256(bytes: &[u8]) -> (r: String)
    ensures
        r@ == sha256_hex(bytes@),
{
    sha2::Sha256::digest(bytes).iter().map(|b| format!("{b:02x}")).collect()
}

/// Something the report should say about a bundle without failing.
#[derive(Debug, Clone, PartialEq, Eq)]
pub enum Warning {
    /// The bundle has no source map; all of it is unmapped.
    NoSourceMap(String),
    /// Mapping points outside their line or inside a surrogate pair were ignored.
    InvalidPoints(String, usize),
    /// An observation is not bound to this build (path, scenario, source and map bindings).
    Unverified(String, String, String, String),
    /// An executed function has only function-level coverage.
    FunctionOnly(String),
    /// A coverage entry was skipped while loading.
    Load(crate::input::LoadWarning),
    /// Label evidence strings of a source found in none of its copies (source, count).
    DroppedEvidence(String, usize),
    /// Labels that name no report source.
    UnmatchedLabels(usize),
    /// Load causes that name no analysed bundle.
    UnmatchedLoading(usize),
    /// A warning carried by an import graph.
    Graph(String),
    /// How graph source snapshots were checked: against embedded contents,
    /// against files on disk only, and not at all.
    GraphSnapshots(usize, usize, usize),
    /// No graph module matched a source-map identity.
    NoGraphMatches,
}

/// Why a bundle could not be analysed.
#[derive(Debug, Clone)]
pub enum AnalysisError {
    /// The bundle's source map could not be attributed.
    SourceMap(String, AttributionError),
    /// An observation does not bind to this build.
    Binding(BindingError),
    /// An observation's coverage is malformed.
    Coverage(String, CoverageError),
    /// A used offset is no boundary of the text.
    Offset(String, TextError),
    /// Attribution did not account for every byte.
    LostBytes(String),
}

/// A bundle's row and the warnings it raised.
#[derive(Debug)]
pub struct BundleAnalysis {
    pub row: BundleRow,
    pub warnings: Vec<Warning>,
}

/// The segment that leaves a whole text unmapped.
pub open spec fn whole_unmapped(segs: Seq<Segment>, len: int) -> bool {
    &&& segs.len() == 1
    &&& segs[0].start == 0
    &&& segs[0].end == len
    &&& segs[0].source@ == crate::attribution::unmapped_name()
    &&& segs[0].original is None
}

/// The counts and spans of a row follow from its segments and used byte ranges.
pub open spec fn row_accounts(
    row: BundleRow,
    text: TextIndex,
    segs: Seq<Segment>,
    used: Option<Seq<Interval>>,
    contents: Seq<(String, String)>,
    details: bool,
) -> bool {
    exists|ids: Seq<usize>|
        #[trigger] accounted(segs, used, contents, row.counts, row.mapped_bytes, row.sources@, ids) && (details
            ==> spans_upto(text@, segs, ids, used, row.spans@, byte_at(text@, text@.len() as int) as int))
}


/// The UTF-8 offset of the character boundary at UTF-16 offset `u`.
pub open spec fn byte_of_unit(text: Seq<char>, u: int) -> int {
    byte_at(text, choose|k: int| 0 <= k <= text.len() && unit_at(text, k) == u) as int
}

proof fn lemma_byte_of_unit_order(text: Seq<char>, a: int, b: int)
    requires
        is_unit_boundary(text, a),
        is_unit_boundary(text, b),
        a < b,
    ensures
        byte_of_unit(text, a) < byte_of_unit(text, b),
{
    let ka = choose|k: int| 0 <= k <= text.len() && unit_at(text, k) == a;
    let kb = choose|k: int| 0 <= k <= text.len() && unit_at(text, k) == b;
    if kb <= ka {
        lemma_offsets_grow(text, kb, ka);
    }
    lemma_offsets_grow(text, ka, kb);
}

/// Segments named after attributed ones cut the text into consecutive pieces.
pub proof fn lemma_named_contiguous(
    text: TextIndex,
    points: Seq<crate::attribution::Point>,
    len: int,
    sources: Seq<(Seq<char>, Option<Seq<char>>)>,
    segs: Seq<Segment>,
)
    requires
        attributed_names(text, points, len, sources, segs),
    ensures
        contiguous(segs, len),
{
    let idx = choose|idx: Seq<IndexedSegment>|
        attributed(text, points, len, idx) && #[trigger] crate::decoding::named(segs, idx, sources);
    assert(crate::decoding::named(segs, idx, sources));
    assert forall|k: int| 0 <= k < segs.len() - 1 implies #[trigger] segs[k].end == segs[k + 1].start by {
        assert(segs[k].end == idx[k].end);
        assert(segs[k + 1].start == idx[k + 1].start);
    }
    if segs.len() > 0 {
        assert(segs[0].start == idx[0].start);
        assert(segs[segs.len() - 1].end == idx[idx.len() - 1].end);
    }
    assert forall|k: int| 0 <= k < segs.len() implies #[trigger] segs[k].start <= segs[k].end by {
        assert(segs[k].start == idx[k].start && segs[k].end == idx[k].end);
    }
}

/// An executed function that has only function-level coverage.
pub open spec fn function_only(functions: Seq<crate::coverage::FunctionCoverage>) -> bool {
    exists|i: int, j: int|
        0 <= i < functions.len() && !functions[i].is_block_coverage && 0 <= j < functions[i].ranges@.len()
            && #[trigger] functions[i].ranges@[j].count > 0
}

fn has_function_only(functions: &Vec<crate::coverage::FunctionCoverage>) -> (r: bool)
    ensures
        r == function_only(functions@),
{
    for i in 0..functions.len()
        invariant
            forall|a: int, b: int|
                0 <= a < i && !functions@[a].is_block_coverage && 0 <= b < functions@[a].ranges@.len()
                    ==> #[trigger] functions@[a].ranges@[b].count == 0,
    {
        if !functions[i].is_block_coverage {
            let ranges = &functions[i].ranges;
            for j in 0..ranges.len()
                invariant
                    i < functions@.len(),
                    ranges@ == functions@[i as int].ranges@,
                    !functions@[i as int].is_block_coverage,
                    forall|b: int| 0 <= b < j ==> #[trigger] ranges@[b].count == 0,
                    forall|a: int, b: int|
                        0 <= a < i && !functions@[a].is_block_coverage && 0 <= b < functions@[a].ranges@.len()
                            ==> #[trigger] functions@[a].ranges@[b].count == 0,
            {
                if ranges[j].count > 0 {
                    proof {
                        assert(functions@[i as int].ranges@[j as int].count > 0);
                    }
                    return true;
                }
            }
        }
    }
    false
}

/// Both ends of `iv` are UTF-16 character boundaries.
pub open spec fn on_units(text: Seq<char>, iv: Interval) -> bool {
    is_unit_boundary(text, iv.start as int) && is_unit_boundary(text, iv.end as int)
}

/// The UTF-16 units the ranges span in all.
pub open spec fn units_total(s: Seq<Interval>) -> int
    decreases s.len(),
{
    if s.len() == 0 {
        0
    } else {
        units_total(s.drop_last()) + (s.last().end - s.last().start)
    }
}

/// UTF-16 unit `p` is one that the observation records as used.
pub open spec fn used_point(o: Observation, p: int) -> bool {
    match o.ranges {
        Ranges::V8(f) => crate::coverage::executed(crate::coverage::flat_ranges(f@), p),
        Ranges::Used(r) => covers(r@, p),
    }
}

/// The observation's ranges are valid for the text.
pub open spec fn used_ok(o: Observation, text: Seq<char>) -> bool {
    match o.ranges {
        Ranges::V8(f) => crate::coverage::functions_error(f@, text) is None && !crate::coverage::has_crossing(
            crate::coverage::flat_ranges(f@),
        ),
        Ranges::Used(r) => crate::input::used_error(r@, text, 0) is None,
    }
}

/// The observation binds to the bundle: its source evidence holds, and its
/// map digest, where it records one, is the map's.
pub open spec fn binds(o: Observation, content: Seq<char>, hash: Seq<char>, map_hash: Option<Seq<char>>, allow_unverified: bool) -> bool {
    crate::input::source_binding(o, content, hash, allow_unverified) is Some && (o.map_hash matches Some(e)
        ==> crate::input::opt_view(e) == map_hash)
}

/// What `verify` records for an observation that binds.
pub open spec fn verified_as(
    o: Observation,
    content: Seq<char>,
    hash: Seq<char>,
    allow_unverified: bool,
    v: Verification,
) -> bool {
    &&& crate::input::source_binding(o, content, hash, allow_unverified) == Some(v.source@)
    &&& v.source_map@ == (if o.map_hash is Some { "capture-bound"@ } else { "unverified"@ })
    &&& v.scenario@ == o.scenario@
    &&& v.format@ == o.format@
}

/// Some observation records unit `p` as used.
pub open spec fn observed_unit(obs: Seq<Observation>, p: int) -> bool {
    exists|k: int| 0 <= k < obs.len() && #[trigger] used_point(obs[k], p)
}

/// `merged` is the union of the observations' used units, in order.
pub open spec fn union_of(obs: Seq<Observation>, merged: Seq<Interval>) -> bool {
    normalized(merged) && forall|p: int| covers(merged, p) <==> observed_unit(obs, p)
}

/// The byte ranges of the units in `merged`.
pub open spec fn bytes_of(text: Seq<char>, merged: Seq<Interval>, bytes: Seq<Interval>) -> bool {
    &&& bytes.len() == merged.len()
    &&& forall|i: int|
        0 <= i < bytes.len() ==> #[trigger] bytes[i].start == byte_of_unit(text, merged[i].start as int) && bytes[i].end
            == byte_of_unit(text, merged[i].end as int)
}

/// Converts merged UTF-16 ranges to UTF-8 byte ranges, with their UTF-16 total.
fn used_bytes(merged: &Vec<Interval>, text: &TextIndex) -> (r: Result<(Vec<Interval>, usize), TextError>)
    requires
        text.wf(),
        normalized(merged@),
    ensures
        r matches Ok((v, total)) ==> normalized(v@) && v@.len() == merged@.len() && (forall|i: int|
            0 <= i < v@.len() ==> #[trigger] v@[i].start == byte_of_unit(text@, merged@[i].start as int)
                && v@[i].end == byte_of_unit(text@, merged@[i].end as int)) && total == units_total(merged@),
        r is Err <==> exists|i: int| 0 <= i < merged@.len() && !#[trigger] on_units(text@, merged@[i]),
{
    let mut v: Vec<Interval> = Vec::new();
    let mut total: usize = 0;
    let n = merged.len();
    let mut i: usize = 0;
    while i < n
        invariant
            n == merged@.len(),
            i <= n,
            text.wf(),
            normalized(merged@),
            normalized(v@),
            v@.len() == i,
            i > 0 ==> total <= merged@[i - 1].end,
            i == 0 ==> total == 0,
            total == units_total(merged@.take(i as int)),
            forall|a: int| 0 <= a < i ==> #[trigger] on_units(text@, merged@[a]),
            forall|a: int|
                0 <= a < i ==> #[trigger] v@[a].start == byte_of_unit(text@, merged@[a].start as int) && v@[a].end
                    == byte_of_unit(text@, merged@[a].end as int),
        decreases n - i,
    {
        let iv = merged[i];
        let start = match text.byte(iv.start) {
            Ok(b) => b,
            Err(e) => {
                proof {
                    assert(!on_units(text@, merged@[i as int]));
                }
                return Err(e);
            },
        };
        let end = match text.byte(iv.end) {
            Ok(b) => b,
            Err(e) => {
                proof {
                    assert(!on_units(text@, merged@[i as int]));
                }
                return Err(e);
            },
        };
        proof {
            let ks = choose|k: int| 0 <= k <= text@.len() && unit_at(text@, k) == iv.start;
            let ke = choose|k: int| 0 <= k <= text@.len() && unit_at(text@, k) == iv.end;
            assert(start == byte_at(text@, ks));
            assert(end == byte_at(text@, ke));
            assert(merged@[i as int].start < merged@[i as int].end);
            assert(on_units(text@, merged@[i as int]));
            lemma_byte_of_unit_order(text@, iv.start as int, iv.end as int);
            if i > 0 {
                assert(merged@[i - 1].end < iv.start);
                assert(on_units(text@, merged@[i - 1]));
                assert(v@[i - 1].start == byte_of_unit(text@, merged@[i - 1].start as int));
                lemma_byte_of_unit_order(text@, merged@[i - 1].end as int, iv.start as int);
                crate::scenario::lemma_push_separated(v@, Interval { start, end });
            } else {
                crate::scenario::lemma_push_separated(v@, Interval { start, end });
            }
        }
        v.push(Interval { start, end });
        proof {
            assert(merged@.take(i + 1).drop_last() =~= merged@.take(i as int));
        }
        total = total + (iv.end - iv.start);
        i = i + 1;
    }
    proof {
        assert(merged@.take(n as int) =~= merged@);
    }
    Ok((v, total))
}


pub open spec fn data_view(d: Option<&[u8]>) -> Option<Seq<u8>> {
    match d {
        Some(d) => Some(d@),
        None => None,
    }
}

pub open spec fn observations_view(o: Option<&Vec<Observation>>) -> Option<Seq<Observation>> {
    match o {
        Some(o) => Some(o@),
        None => None,
    }
}

/// What a successful analysis states of a bundle's row.
pub open spec fn bundle_result(
    path: Seq<char>,
    content: Seq<char>,
    map_data: Option<Seq<u8>>,
    observations: Option<Seq<Observation>>,
    allow_unverified: bool,
    details: bool,
    row: BundleRow,
) -> bool {
    let text_len = encode_utf8(content).len() as int;
    &&& row.path@ == path
    &&& row.sha256@ == sha256_hex(encode_utf8(content))
    &&& (match map_data {
        Some(d) => row.source_map_sha256 matches Some(h) && h@ == sha256_hex(d),
        None => row.source_map_sha256 is None,
    })
    &&& row.utf16_units == unit_at(content, content.len() as int)
    &&& row.counts.bytes == text_len
    &&& balanced(tally_of(row.counts))
    &&& (details ==> row.generated_source@ == content)
    &&& (!details ==> row.generated_source@.len() == 0 && row.spans@.len() == 0)
    &&& (match observations {
        None => {
            &&& row.counts.unmeasured_bytes == row.counts.bytes
            &&& row.observed_utf16_units is None
            &&& row.verification@.len() == 0
        },
        Some(obs) => {
            &&& row.counts.unmeasured_bytes == 0
            &&& row.verification@.len() == obs.len()
            &&& forall|k: int|
                0 <= k < obs.len() ==> verified_as(
                    obs[k],
                    content,
                    sha256_hex(encode_utf8(content)),
                    allow_unverified,
                    #[trigger] row.verification@[k],
                )
            &&& exists|merged: Seq<Interval>|
                union_of(obs, merged) && row.observed_utf16_units is Some && row.observed_utf16_units->0 == units_total(merged)
        },
    })
}

/// The segments and used byte ranges that a row was counted from.
pub open spec fn counted_from(
    content: Seq<char>,
    map_data: Option<Seq<u8>>,
    observations: Option<Seq<Observation>>,
    details: bool,
    text: TextIndex,
    row: BundleRow,
    segs: Seq<Segment>,
    used: Option<Seq<Interval>>,
    contents: Seq<(String, String)>,
) -> bool {
    let len = encode_utf8(content).len() as int;
    &&& contiguous(segs, len)
    &&& (match map_data {
        None => whole_unmapped(segs, len) && contents.len() == 0,
        Some(d) => decode_outcome(context_of(text, details, None), d) matches Ok(s) && attributed_names(
            text,
            s.points,
            len,
            s.sources,
            segs,
        ) && crate::decoding::pairs_view(contents) == crate::decoding::source_contents(s.sources),
    })
    &&& (used is Some <==> observations is Some)
    &&& (used matches Some(u) ==> normalized(u))
    &&& (observations is Some ==> exists|merged: Seq<Interval>|
        union_of(observations->0, merged) && bytes_of(text@, merged, used->0))
    &&& row_accounts(row, text, segs, used, contents, details)
}

/// Analyses one bundle: attributes its bytes through its source map (all
/// unmapped without one), binds and merges its observations, and counts
/// every byte by source and status, with spans where `details` is set.
#[verifier::spinoff_prover]
#[verifier::rlimit(100)]
pub fn analyze_bundle(
    path: &str,
    content: &str,
    map_data: Option<&[u8]>,
    observations: Option<&Vec<Observation>>,
    allow_unverified: bool,
    details: bool,
) -> (r: Result<BundleAnalysis, AnalysisError>)
    ensures
        match r {
            Ok(b) => {
                &&& bundle_result(
                    path@,
                    content@,
                    data_view(map_data),
                    observations_view(observations),
                    allow_unverified,
                    details,
                    b.row,
                )
                &&& exists|text: TextIndex, segs: Seq<Segment>, used: Option<Seq<Interval>>, contents: Seq<(String, String)>|
                    text.wf() && text@ == content@ && #[trigger] counted_from(
                        content@,
                        data_view(map_data),
                        observations_view(observations),
                        details,
                        text,
                        b.row,
                        segs,
                        used,
                        contents,
                    )
            },
            Err(AnalysisError::SourceMap(p, e)) => p@ == path@ && (map_data matches Some(d) && exists|text: TextIndex|
                text.wf() && text@ == content@ && #[trigger] decode_outcome(context_of(text, details, None), d@)
                    == Err::<DecodeState, DecodeFailure>(e@)),
            Err(AnalysisError::LostBytes(_)) => false,
            Err(AnalysisError::Binding(_)) => observations is Some && first_unbound(
                observations_view(observations)->0,
                content@,
                sha256_hex(encode_utf8(content@)),
                match map_data {
                    Some(d) => Some(sha256_hex(d@)),
                    None => None,
                },
                allow_unverified,
                content@,
            ),
            Err(AnalysisError::Coverage(p, _)) => observations is Some && p@ == path@ && first_unused(
                observations_view(observations)->0,
                content@,
                sha256_hex(encode_utf8(content@)),
                match map_data {
                    Some(d) => Some(sha256_hex(d@)),
                    None => None,
                },
                allow_unverified,
                content@,
            ),
            Err(AnalysisError::Offset(p, _)) => p@ == path@,
        },
        inputs_ok(content@, data_view(map_data), observations_view(observations), allow_unverified, details) ==> (r is Ok || (
        details && r matches Err(AnalysisError::Offset(_, _)))),
{
    let text = TextIndex::new(content);
    let byte_len = content.as_bytes().len();
    proof {
        lemma_total_bytes(content@);
        assert(byte_len == byte_at(text@, text@.len() as int));
    }
    let hash = sha256(content.as_bytes());
    let mut warnings: Vec<Warning> = Vec::new();
    let (segments, map_hash, contents) = match bundle_segments(path, &text, byte_len, map_data, details, &mut warnings) {
        Ok(v) => v,
        Err(e) => return Err(e),
    };
    let (verification, bytes, used_utf16) = match bundle_observations(
        path,
        content,
        &text,
        hash.as_str(),
        &map_hash,
        observations,
        allow_unverified,
        &mut warnings,
    ) {
        Ok(v) => v,
        Err(e) => return Err(e),
    };
    let used_opt: Option<&Vec<Interval>> = if observations.is_some() { Some(&bytes) } else { None };
    let account = account_sources(&segments, used_opt, byte_len, &contents);
    let detail_spans = if details {
        match spans(&segments, &account.ids, used_opt, &text, byte_len) {
            Ok(s) => s,
            Err(e) => return Err(AnalysisError::Offset(path.to_string(), e)),
        }
    } else {
        Vec::new()
    };
    proof {
        let uv = used_view(used_opt);
        crate::accounting::lemma_tally_bounds(segments@, uv, seq![], segments@.len() as int, byte_len as int);
        crate::accounting::lemma_tally_measured(segments@, uv);
        assert(segments@.take(segments@.len() as int) =~= segments@);
        assert(account.counts.bytes == byte_len);
    }
    if account.counts.bytes != byte_len {
        return Err(AnalysisError::LostBytes(path.to_string()));
    }
    let row = BundleRow {
        path: path.to_string(),
        sha256: hash,
        source_map_sha256: map_hash,
        utf16_units: text.utf16_len(),
        observed_utf16_units: if observations.is_some() { Some(used_utf16) } else { None },
        mapped_bytes: account.mapped_bytes,
        verification,
        generated_source: if details { content.to_string() } else { String::new() },
        sources: account.sources,
        spans: detail_spans,
        counts: account.counts,
        loading: None,
    };
    proof {
        let uv = used_view(used_opt);
        assert(accounted(segments@, uv, contents@, row.counts, row.mapped_bytes, row.sources@, account.ids@));
        assert(row_accounts(row, text, segments@, uv, contents@, details));
        if let Some(obs) = observations {
            let merged = choose|merged: Seq<Interval>|
                union_of(obs@, merged) && bytes_of(text@, merged, bytes@) && used_utf16 == units_total(merged);
            assert(union_of(obs@, merged) && bytes_of(text@, merged, bytes@));
            assert(observations_view(observations)->0 == obs@);
            assert(uv->0 == bytes@);
        }
        assert(counted_from(content@, data_view(map_data), observations_view(observations), details, text, row, segments@, uv, contents@));
    }
    Ok(BundleAnalysis { row, warnings })
}

/// The segments of a bundle, its map's hash and its sources' contents.
fn bundle_segments(
    path: &str,
    text: &TextIndex,
    byte_len: usize,
    map_data: Option<&[u8]>,
    details: bool,
    warnings: &mut Vec<Warning>,
) -> (r: Result<(Vec<Segment>, Option<String>, Vec<(String, String)>), AnalysisError>)
    requires
        text.wf(),
        byte_len == byte_at(text@, text@.len() as int),
    ensures
        match r {
            Ok((segs, map_hash, contents)) => {
                &&& contiguous(segs@, byte_len as int)
                &&& match map_data {
                    None => whole_unmapped(segs@, byte_len as int) && contents@.len() == 0 && map_hash is None,
                    Some(d) => (map_hash matches Some(h) && h@ == sha256_hex(d@)) && (decode_outcome(context_of(*text, details, None), d@) matches Ok(s)
                        && attributed_names(*text, s.points, byte_len as int, s.sources, segs@)
                        && crate::decoding::pairs_view(contents@) == crate::decoding::source_contents(s.sources)),
                }
            },
            Err(AnalysisError::SourceMap(p, e)) => p@ == path@ && (map_data matches Some(d)
                && decode_outcome(context_of(*text, details, None), d@) == Err::<DecodeState, DecodeFailure>(e@)),
            Err(_) => false,
        },
        (map_data matches Some(d) ==> decode_outcome(context_of(*text, details, None), d@) is Ok) ==> r is Ok,
{
    match map_data {
        Some(data) => match decode_with_contents(data, text, byte_len, details) {
            Err(e) => Err(AnalysisError::SourceMap(path.to_string(), e)),
            Ok(a) => {
                if a.invalid_points > 0 {
                    warnings.push(Warning::InvalidPoints(path.to_string(), a.invalid_points));
                }
                proof {
                    let s = decode_outcome(context_of(*text, details, None), data@)->Ok_0;
                    lemma_named_contiguous(*text, s.points, byte_len as int, s.sources, a.segments@);
                }
                Ok((a.segments, Some(sha256(data)), a.contents))
            },
        },
        None => {
            warnings.push(Warning::NoSourceMap(path.to_string()));
            let segs = vec![Segment { start: 0, end: byte_len, source: unmapped(), original: None }];
            Ok((segs, None, Vec::new()))
        },
    }
}

/// Observation `k` is the first that fails: every earlier one binds and has
/// valid ranges.
pub open spec fn all_ok_before(
    obs: Seq<Observation>,
    content: Seq<char>,
    hash: Seq<char>,
    map_hash: Option<Seq<char>>,
    allow_unverified: bool,
    text: Seq<char>,
    k: int,
) -> bool {
    forall|j: int|
        0 <= j < k ==> #[trigger] binds(obs[j], content, hash, map_hash, allow_unverified) && used_ok(obs[j], text)
}

/// Some observation is the first that does not bind.
pub open spec fn first_unbound(
    obs: Seq<Observation>,
    content: Seq<char>,
    hash: Seq<char>,
    map_hash: Option<Seq<char>>,
    allow_unverified: bool,
    text: Seq<char>,
) -> bool {
    exists|k: int|
        0 <= k < obs.len() && all_ok_before(obs, content, hash, map_hash, allow_unverified, text, k) && !#[trigger] binds(
            obs[k],
            content,
            hash,
            map_hash,
            allow_unverified,
        )
}

/// Some observation is the first whose ranges are invalid; it binds.
pub open spec fn first_unused(
    obs: Seq<Observation>,
    content: Seq<char>,
    hash: Seq<char>,
    map_hash: Option<Seq<char>>,
    allow_unverified: bool,
    text: Seq<char>,
) -> bool {
    exists|k: int|
        0 <= k < obs.len() && all_ok_before(obs, content, hash, map_hash, allow_unverified, text, k) && binds(
            obs[k],
            content,
            hash,
            map_hash,
            allow_unverified,
        ) && !#[trigger] used_ok(obs[k], text)
}

/// Every observation binds and is used within the text, and their union
/// starts and ends each range on a UTF-16 unit.
pub open spec fn observations_ok(
    obs: Seq<Observation>,
    content: Seq<char>,
    hash: Seq<char>,
    map_hash: Option<Seq<char>>,
    allow_unverified: bool,
    text: Seq<char>,
) -> bool {
    &&& all_ok_before(obs, content, hash, map_hash, allow_unverified, text, obs.len() as int)
    &&& forall|merged: Seq<Interval>, i: int|
        union_of(obs, merged) && 0 <= i < merged.len() ==> #[trigger] on_units(text, merged[i])
}

/// The digest a bundle's observations must name for its map, if it has one.
pub open spec fn map_digest(map: Option<Seq<u8>>) -> Option<Seq<char>> {
    match map {
        Some(d) => Some(sha256_hex(d)),
        None => None,
    }
}

/// A bundle's inputs are in order: its map, where it has one, decodes, and its
/// observations, where it has any, are in order (`observations_ok`).
pub open spec fn inputs_ok(
    content: Seq<char>,
    map: Option<Seq<u8>>,
    observations: Option<Seq<Observation>>,
    allow_unverified: bool,
    details: bool,
) -> bool {
    &&& (map matches Some(d) ==> forall|text: TextIndex|
        text.wf() && text@ == content ==> (#[trigger] decode_outcome(context_of(text, details, None), d)) is Ok)
    &&& (observations matches Some(o) ==> observations_ok(
        o,
        content,
        sha256_hex(encode_utf8(content)),
        map_digest(map),
        allow_unverified,
        content,
    ))
}

/// Binds each observation, then merges their used ranges into UTF-8 byte ranges.
fn bundle_observations(
    path: &str,
    content: &str,
    text: &TextIndex,
    hash: &str,
    map_hash: &Option<String>,
    observations: Option<&Vec<Observation>>,
    allow_unverified: bool,
    warnings: &mut Vec<Warning>,
) -> (r: Result<(Vec<Verification>, Vec<Interval>, usize), AnalysisError>)
    requires
        text.wf(),
        text@ == content@,
    ensures
        match r {
            Ok((verification, bytes, total)) => {
                &&& normalized(bytes@)
                &&& match observations {
                    None => verification@.len() == 0 && bytes@.len() == 0 && total == 0,
                    Some(o) => {
                        &&& verification@.len() == o@.len()
                        &&& all_ok_before(o@, content@, hash@, crate::input::opt_view(*map_hash), allow_unverified, text@, o@.len() as int)
                        &&& forall|k: int|
                            0 <= k < o@.len() ==> verified_as(o@[k], content@, hash@, allow_unverified, #[trigger] verification@[k])
                        &&& exists|merged: Seq<Interval>|
                            union_of(o@, merged) && bytes_of(text@, merged, bytes@) && total == units_total(merged)
                    },
                }
            },
            Err(AnalysisError::Binding(_)) => observations is Some && first_unbound(
                observations_view(observations)->0,
                content@,
                hash@,
                crate::input::opt_view(*map_hash),
                allow_unverified,
                text@,
            ),
            Err(AnalysisError::Coverage(p, _)) => p@ == path@ && observations is Some && first_unused(
                observations_view(observations)->0,
                content@,
                hash@,
                crate::input::opt_view(*map_hash),
                allow_unverified,
                text@,
            ),
            Err(_) => observations matches Some(o) && !observations_ok(
                o@,
                content@,
                hash@,
                crate::input::opt_view(*map_hash),
                allow_unverified,
                text@,
            ),
        },
        match r {
            Err(AnalysisError::Offset(p, _)) => p@ == path@ && (observations matches Some(o) && all_ok_before(
                o@,
                content@,
                hash@,
                crate::input::opt_view(*map_hash),
                allow_unverified,
                text@,
                o@.len() as int,
            ) && exists|merged: Seq<Interval>|
                union_of(o@, merged) && exists|i: int| 0 <= i < merged.len() && !#[trigger] on_units(text@, merged[i])),
            Err(AnalysisError::SourceMap(_, _)) => false,
            Err(AnalysisError::LostBytes(_)) => false,
            _ => true,
        },
{
    let mut verification: Vec<Verification> = Vec::new();
    let mut pieces: Vec<Interval> = Vec::new();
    let ghost mh = crate::input::opt_view(*map_hash);
    if let Some(obs) = observations {
        for k in 0..obs.len()
            invariant
                text.wf(),
                text@ == content@,
                observations == Some(obs),
                mh == crate::input::opt_view(*map_hash),
                well_formed(pieces@),
                all_nonempty(pieces@),
                verification@.len() == k,
                all_ok_before(obs@, content@, hash@, mh, allow_unverified, text@, k as int),
                forall|j: int| 0 <= j < k ==> verified_as(obs@[j], content@, hash@, allow_unverified, #[trigger] verification@[j]),
                forall|p: int| covers(pieces@, p) <==> exists|j: int| 0 <= j < k && #[trigger] used_point(obs@[j], p),
        {
            let o = &obs[k];
            let binding = match o.verify(path, content, hash, map_hash, allow_unverified) {
                Ok(b) => b,
                Err(e) => {
                    proof {
                        assert(!binds(obs@[k as int], content@, hash@, mh, allow_unverified));
                        assert(0 <= k < obs@.len() && all_ok_before(obs@, content@, hash@, mh, allow_unverified, text@, k as int)
                            && !binds(obs@[k as int], content@, hash@, mh, allow_unverified));
                        assert(observations == Some(obs));
                        assert(first_unbound(obs@, content@, hash@, mh, allow_unverified, text@));
                    }
                    return Err(AnalysisError::Binding(e));
                },
            };
            if str_eq(binding.source.as_str(), "unverified") || str_eq(binding.source_map.as_str(), "unverified") {
                warnings.push(
                    Warning::Unverified(
                        path.to_string(),
                        o.scenario.clone(),
                        binding.source.clone(),
                        binding.source_map.clone(),
                    ),
                );
            }
            let ghost vb = verification@;
            verification.push(binding);
            proof {
                assert(binds(obs@[k as int], content@, hash@, mh, allow_unverified));
                assert(verified_as(obs@[k as int], content@, hash@, allow_unverified, verification@[k as int]));
                assert forall|j: int| 0 <= j < k + 1 implies verified_as(obs@[j], content@, hash@, allow_unverified, #[trigger] verification@[j]) by {
                    if j < k {
                        assert(verification@[j] == vb[j]);
                    }
                }
            }
            if let Ranges::V8(functions) = &o.ranges {
                if has_function_only(functions) {
                    warnings.push(Warning::FunctionOnly(path.to_string()));
                }
            }
            let mut used = match o.used(text) {
                Ok(u) => u,
                Err(e) => {
                    proof {
                        assert(!used_ok(obs@[k as int], text@));
                        assert(binds(obs@[k as int], content@, hash@, mh, allow_unverified));
                        assert(0 <= k < obs@.len() && all_ok_before(obs@, content@, hash@, mh, allow_unverified, text@, k as int));
                        assert(observations == Some(obs));
                        assert(first_unused(obs@, content@, hash@, mh, allow_unverified, text@));
                    }
                    return Err(AnalysisError::Coverage(path.to_string(), e));
                },
            };
            proof {
                assert(used_ok(obs@[k as int], text@));
                assert forall|p: int| covers(used@, p) <==> used_point(obs@[k as int], p) by {}
                assert forall|j: int| 0 <= j < k + 1 implies (#[trigger] binds(obs@[j], content@, hash@, mh, allow_unverified)
                    && used_ok(obs@[j], text@)) by {
                    if j == k {
                        assert(binds(obs@[k as int], content@, hash@, mh, allow_unverified));
                        assert(used_ok(obs@[k as int], text@));
                    } else {
                        assert(all_ok_before(obs@, content@, hash@, mh, allow_unverified, text@, k as int));
                        assert(binds(obs@[j], content@, hash@, mh, allow_unverified));
                        assert(used_ok(obs@[j], text@));
                    }
                }
                assert(all_ok_before(obs@, content@, hash@, mh, allow_unverified, text@, k + 1));
            }
            let ghost before = pieces@;
            let ghost added = used@;
            pieces.append(&mut used);
            proof {
                assert forall|i: int| 0 <= i < pieces@.len() implies #[trigger] pieces@[i].start < pieces@[i].end by {
                    if i >= before.len() {
                        assert(pieces@[i] == added[i - before.len()]);
                    } else {
                        assert(pieces@[i] == before[i]);
                    }
                }
                assert forall|p: int| covers(pieces@, p) <==> exists|j: int| 0 <= j < k + 1 && #[trigger] used_point(obs@[j], p) by {
                    if covers(pieces@, p) {
                        let i = choose|i: int| 0 <= i < pieces@.len() && (#[trigger] pieces@[i]).start <= p < pieces@[i].end;
                        if i < before.len() {
                            assert(pieces@[i] == before[i]);
                            assert(covers(before, p));
                        } else {
                            assert(pieces@[i] == added[i - before.len()]);
                            assert(covers(added, p));
                            assert(used_point(obs@[k as int], p));
                        }
                    }
                    if exists|j: int| 0 <= j < k + 1 && #[trigger] used_point(obs@[j], p) {
                        let j = choose|j: int| 0 <= j < k + 1 && #[trigger] used_point(obs@[j], p);
                        if j < k {
                            assert(covers(before, p));
                            let i = choose|i: int| 0 <= i < before.len() && (#[trigger] before[i]).start <= p < before[i].end;
                            assert(pieces@[i] == before[i]);
                        } else {
                            assert(covers(added, p));
                            let i = choose|i: int| 0 <= i < added.len() && (#[trigger] added[i]).start <= p < added[i].end;
                            assert(pieces@[before.len() + i] == added[i]);
                        }
                    }
                }
            }
        }
    }
    let ghost pv = pieces@;
    let merged = union(pieces);
    let is_none = observations.is_none();
    proof {
        if let Some(obs) = observations {
            assert forall|p: int| covers(merged@, p) <==> observed_unit(obs@, p) by {
                assert(covers(pv, p) <==> exists|j: int| 0 <= j < obs@.len() && #[trigger] used_point(obs@[j], p));
            }
            assert(union_of(obs@, merged@));
        } else {
            assert(merged@.len() == 0) by {
                if merged@.len() > 0 {
                    assert(covers(merged@, merged@[0].start as int));
                }
            }
        }
    }
    match used_bytes(&merged, text) {
        Ok((bytes, total)) => {
            proof {
                if observations is None {
                    assert(bytes@.len() == 0);
                    assert(merged@ =~= Seq::<Interval>::empty());
                }
            }
            Ok((verification, bytes, total))
        },
        Err(e) => {
            proof {
                if is_none {
                    assert(false);
                }
            }
            Err(AnalysisError::Offset(path.to_string(), e))
        },
    }
}

} // verus!
