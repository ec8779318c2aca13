//! Coverage observations: missing capture-time evidence stays missing, and
//! each observation is bound to the build it was captured from.
use vstd::prelude::*;

use crate::coverage::{
    CoverageError, FunctionCoverage, Interval, all_nonempty, covers, executed, flat_ranges, functions_error,
    has_crossing, normalized, union, well_formed,
};
use crate::strings::{chars_of, same_chars, slice_chars, str_eq, string_of};
use crate::source_path::{
    append_parts, component_names, component_parts, find_char, find_from, is_absolute, join_chars, join_with,
    lemma_find_char, views,
};
use crate::maps::{contains_char, percent_decode_utf8, percent_decoded, strip_prefix, strip_prefix_chars};
use crate::coverage::{CoverageFile, validate_path, valid_coverage_path};
use vstd::utf8::{decode_utf8, encode_utf8, valid_utf8};
use crate::text::{TextError, TextIndex, is_unit_boundary};

verus! {

/// How coverage URLs are mapped onto bundle paths.
#[derive(Debug, Clone, Default)]
pub struct InputOptions {
    pub url_prefixes: Vec<String>,
    /// Explicit URL to bundle-path bindings.
    pub script_paths: Vec<(String, String)>,
    pub allow_unverified: bool,
}

/// The ranges of one observation: V8 function coverage, or used UTF-16 ranges.
#[derive(Debug)]
pub enum Ranges {
    V8(Vec<FunctionCoverage>),
    Used(Vec<Interval>),
}

/// One scenario's coverage of one bundle, with what it was captured against.
#[derive(Debug)]
pub struct Observation {
    pub scenario: String,
    pub format: String,
    pub hash: Option<String>,
    pub source: Option<String>,
    /// `Some(None)`: the capture explicitly had no map; `None`: unknown.
    pub map_hash: Option<Option<String>>,
    pub ranges: Ranges,
}

/// How one observation was bound to the current bundle and map.
#[derive(Debug, Clone, PartialEq, Eq)]
pub struct Verification {
    pub scenario: String,
    pub format: String,
    /// `sha256`, `source-text` or `unverified`.
    pub source: String,
    /// `capture-bound` or `unverified`.
    pub source_map: String,
}

/// Why an observation does not bind to the current build.
#[derive(Debug, Clone, PartialEq, Eq)]
pub enum BindingError {
    /// The capture hash differs from the bundle's SHA-256.
    HashMismatch(String),
    /// The captured source text differs from the bundle.
    SourceMismatch(String),
    /// Neither hash nor text was captured, and unverified input is not allowed.
    Unbound(String),
    /// The captured map hash differs from the current map's (or one side has no map).
    MapHashMismatch(String),
}

pub open spec fn opt_view(o: Option<String>) -> Option<Seq<char>> {
    match o {
        Some(s) => Some(s@),
        None => None,
    }
}

/// The binding of an observation's source: `sha256`, `source-text` or `unverified`.
pub open spec fn source_binding(o: Observation, content: Seq<char>, hash: Seq<char>, allow_unverified: bool) -> Option<
    Seq<char>,
> {
    match o.hash {
        Some(expected) => if expected@ == hash {
            Some("sha256"@)
        } else {
            None
        },
        None => match o.source {
            Some(expected) => if expected@ == content {
                Some("source-text"@)
            } else {
                None
            },
            None => if allow_unverified {
                Some("unverified"@)
            } else {
                None
            },
        },
    }
}

fn opt_str_eq(a: &Option<String>, b: &Option<String>) -> (r: bool)
    ensures
        r == (opt_view(*a) == opt_view(*b)),
{
    match (a, b) {
        (Some(x), Some(y)) => str_eq(x.as_str(), y.as_str()),
        (None, None) => true,
        _ => false,
    }
}

impl Observation {
    /// Binds the observation to the bundle: by capture hash, else by
    /// captured text, else only where unverified input is allowed; and to the
    /// map by its captured hash where one was recorded.
    pub fn verify(
        &self,
        path: &str,
        content: &str,
        hash: &str,
        map_hash: &Option<String>,
        allow_unverified: bool,
    ) -> (r: Result<Verification, BindingError>)
        ensures
            match r {
                Ok(v) => {
                    &&& source_binding(*self, content@, hash@, allow_unverified) == Some(v.source@)
                    &&& (match self.map_hash {
                        Some(expected) => opt_view(expected) == opt_view(*map_hash) && v.source_map@ == "capture-bound"@,
                        None => v.source_map@ == "unverified"@,
                    })
                    &&& v.scenario@ == self.scenario@
                    &&& v.format@ == self.format@
                },
                Err(e) => match source_binding(*self, content@, hash@, allow_unverified) {
                    None => match self.hash {
                        Some(_) => (e matches BindingError::HashMismatch(p) && p@ == path@),
                        None => match self.source {
                            Some(_) => (e matches BindingError::SourceMismatch(p) && p@ == path@),
                            None => (e matches BindingError::Unbound(p) && p@ == path@),
                        },
                    },
                    Some(_) => self.map_hash matches Some(expected) && opt_view(expected) != opt_view(*map_hash)
                        && (e matches BindingError::MapHashMismatch(p) && p@ == path@),
                },
            },
    {
        let source = match &self.hash {
            Some(expected) => {
                if !str_eq(expected.as_str(), hash) {
                    return Err(BindingError::HashMismatch(path.to_string()));
                }
                "sha256".to_string()
            },
            None => match &self.source {
                Some(expected) => {
                    if !str_eq(expected.as_str(), content) {
                        return Err(BindingError::SourceMismatch(path.to_string()));
                    }
                    "source-text".to_string()
                },
                None => {
                    if !allow_unverified {
                        return Err(BindingError::Unbound(path.to_string()));
                    }
                    "unverified".to_string()
                },
            },
        };
        let source_map = match &self.map_hash {
            Some(expected) => {
                if !opt_str_eq(expected, map_hash) {
                    return Err(BindingError::MapHashMismatch(path.to_string()));
                }
                "capture-bound".to_string()
            },
            None => "unverified".to_string(),
        };
        Ok(Verification { scenario: self.scenario.clone(), format: self.format.clone(), source, source_map })
    }
}


/// The first error among used ranges from index `k` on: a reversed range, or
/// an end that is no UTF-16 boundary of the text.
pub open spec fn used_error(rs: Seq<Interval>, text: Seq<char>, k: int) -> Option<CoverageError>
    decreases rs.len() - k,
{
    if k < 0 || k >= rs.len() {
        None
    } else if rs[k].start > rs[k].end {
        Some(CoverageError::ReversedRange)
    } else if !is_unit_boundary(text, rs[k].start as int) {
        Some(CoverageError::Offset(TextError::InvalidUtf16Offset(rs[k].start)))
    } else if !is_unit_boundary(text, rs[k].end as int) {
        Some(CoverageError::Offset(TextError::InvalidUtf16Offset(rs[k].end)))
    } else {
        used_error(rs, text, k + 1)
    }
}

impl Observation {
    /// The used UTF-16 ranges of this observation, merged.
    pub fn used(&self, text: &TextIndex) -> (r: Result<Vec<Interval>, CoverageError>)
        requires
            text.wf(),
        ensures
            match self.ranges {
                Ranges::V8(functions) => {
                    &&& r is Ok <==> functions_error(functions@, text@) is None && !has_crossing(flat_ranges(functions@))
                    &&& r matches Ok(v) ==> normalized(v@) && forall|p: int|
                        covers(v@, p) <==> #[trigger] executed(flat_ranges(functions@), p)
                    &&& r matches Err(e) ==> match functions_error(functions@, text@) {
                        Some(first) => e == first,
                        None => e == CoverageError::CrossingRanges,
                    }
                },
                Ranges::Used(ranges) => {
                    &&& r is Ok <==> used_error(ranges@, text@, 0) is None
                    &&& r matches Ok(v) ==> normalized(v@) && forall|p: int| covers(v@, p) <==> covers(ranges@, p)
                    &&& r matches Err(e) ==> used_error(ranges@, text@, 0) == Some(e)
                },
            },
    {
        match &self.ranges {
            Ranges::V8(functions) => crate::coverage::used_ranges(functions, text),
            Ranges::Used(ranges) => {
                let n = ranges.len();
                for k in 0..n
                    invariant
                        n == ranges@.len(),
                        text.wf(),
                        self.ranges matches Ranges::Used(x) && x@ == ranges@,
                        used_error(ranges@, text@, 0) == used_error(ranges@, text@, k as int),
                {
                    let range = ranges[k];
                    if range.start > range.end {
                        return Err(CoverageError::ReversedRange);
                    }
                    match text.byte(range.start) {
                        Err(e) => return Err(CoverageError::Offset(e)),
                        Ok(_) => {},
                    }
                    match text.byte(range.end) {
                        Err(e) => return Err(CoverageError::Offset(e)),
                        Ok(_) => {},
                    }
                }
                let mut nonempty: Vec<Interval> = Vec::new();
                for k in 0..n
                    invariant
                        n == ranges@.len(),
                        all_nonempty(nonempty@),
                        forall|p: int| covers(nonempty@, p) <==> covers(ranges@.take(k as int), p),
                {
                    let range = ranges[k];
                    let ghost before = nonempty@;
                    if range.start < range.end {
                        nonempty.push(range);
                    }
                    proof {
                        assert(ranges@.take(k + 1) =~= ranges@.take(k as int).push(range));
                        assert forall|p: int| covers(nonempty@, p) <==> covers(ranges@.take(k + 1), p) by {
                            crate::scenario::lemma_covers_push(ranges@.take(k as int), range, p);
                            if range.start < range.end {
                                crate::scenario::lemma_covers_push(before, range, p);
                            }
                        }
                    }
                }
                proof {
                    assert(ranges@.take(n as int) =~= ranges@);
                }
                Ok(union(nonempty))
            },
        }
    }
}


/// Why coverage input was refused.
#[derive(Debug, Clone)]
pub enum LoadError {
    /// A `--url-prefix` does not end with `/`.
    PrefixWithoutSlash(String),
    /// A coverage path is unsafe.
    Path(CoverageError),
    /// A URL's percent-decoding is not UTF-8.
    InvalidUtf8,
    /// An envelope of another schema version.
    SchemaVersion,
    /// An envelope with a blank scenario.
    EmptyScenario,
    /// A file of no known coverage format.
    UnsupportedFormat(String),
    /// An entry without a string `url`.
    NoUrl(String),
    /// An entry that does not have the shape of a coverage entry.
    InvalidEntry(String),
    /// Used ranges without the source text they refer to.
    RangesWithoutText(String),
    /// An entry with neither functions nor ranges.
    NoRanges(String),
    /// No entry of a file matched a bundle.
    NothingMatched(String),
}

/// The text before the first `?` or `#`.
pub open spec fn before_query(s: Seq<char>) -> Seq<char> {
    let q = find_char(s, '?', 0);
    let h = find_char(s, '#', 0);
    s.subrange(0, if q < h { q } else { h })
}

pub open spec fn starts_with(s: Seq<char>, p: Seq<char>) -> bool {
    p.len() <= s.len() && s.subrange(0, p.len() as int) == p
}

/// The first binding for `url`.
pub open spec fn binding_for(bindings: Seq<(String, String)>, url: Seq<char>) -> Option<Seq<char>>
    decreases bindings.len(),
{
    if bindings.len() == 0 {
        None
    } else if bindings[0].0@ == url {
        Some(bindings[0].1@)
    } else {
        binding_for(bindings.drop_first(), url)
    }
}

/// The longest of the first `n` prefixes that `s` starts with; the last of equals.
pub open spec fn longest_prefix(prefixes: Seq<String>, s: Seq<char>, n: int) -> Option<int>
    decreases n,
{
    if n <= 0 {
        None
    } else {
        let best = longest_prefix(prefixes, s, n - 1);
        if starts_with(s, prefixes[n - 1]@) && (best matches Some(b) ==> prefixes[b]@.len() <= prefixes[n - 1]@.len()) {
            Some(n - 1)
        } else {
            best
        }
    }
}

/// An absolute path relative to `root`, where `root`'s components begin it.
pub open spec fn under_root(root: Seq<char>, path: Seq<char>) -> Option<Seq<char>> {
    let rn = component_names(root);
    let pn = component_names(path);
    if is_absolute(root) && rn.len() <= pn.len() && pn.subrange(0, rn.len() as int) == rn {
        Some(join_with(pn.subrange(rn.len() as int, pn.len() as int), '/'))
    } else {
        None
    }
}

/// A checked coverage path.
pub open spec fn checked(p: Seq<char>) -> Result<Option<Seq<char>>, LoadError> {
    if valid_coverage_path(p) {
        Ok(Some(p))
    } else {
        Err(LoadError::Path(if p.len() == 0 || p.contains('\\') {
            CoverageError::PathNotRelative
        } else {
            CoverageError::PathNotNormal
        }))
    }
}

/// The bundle path a coverage URL names, if any: an explicit binding; else
/// the longest URL prefix, percent-decoded; else a local `file://` URL under
/// the root; else a plain relative path.
pub open spec fn local_path_of(url: Seq<char>, root: Seq<char>, options: InputOptions) -> Result<Option<Seq<char>>, LoadError> {
    match binding_for(options.script_paths@, url) {
        Some(p) => checked(p),
        None => {
            let clean = before_query(url);
            match longest_prefix(options.url_prefixes@, clean, options.url_prefixes@.len() as int) {
                Some(i) => {
                    let prefix = options.url_prefixes@[i]@;
                    if !(prefix.len() > 0 && prefix.last() == '/') {
                        Err(LoadError::PrefixWithoutSlash(options.url_prefixes@[i]))
                    } else {
                        let bytes = percent_decoded(encode_utf8(clean.subrange(prefix.len() as int, clean.len() as int)));
                        if !valid_utf8(bytes) {
                            Err(LoadError::InvalidUtf8)
                        } else {
                            checked(decode_utf8(bytes))
                        }
                    }
                },
                None => if starts_with(clean, "file://"@) {
                    let path = clean.subrange(7, clean.len() as int);
                    if !(path.len() > 0 && path[0] == '/') {
                        Ok(None)
                    } else {
                        let bytes = percent_decoded(encode_utf8(path));
                        if !valid_utf8(bytes) {
                            Err(LoadError::InvalidUtf8)
                        } else {
                            match under_root(root, decode_utf8(bytes)) {
                                Some(rel) => checked(crate::attribution::forward_slashes(rel)),
                                None => Ok(None),
                            }
                        }
                    }
                } else if clean.len() > 0 && !clean.contains(':') && !(clean[0] == '/') {
                    checked(clean)
                } else {
                    Ok(None)
                },
            }
        },
    }
}


fn binding_of(bindings: &Vec<(String, String)>, url: &str) -> (r: Option<String>)
    ensures
        match r {
            Some(p) => binding_for(bindings@, url@) == Some(p@),
            None => binding_for(bindings@, url@) is None,
        },
{
    let mut i: usize = 0;
    proof {
        assert(bindings@.subrange(0, bindings@.len() as int) =~= bindings@);
    }
    while i < bindings.len()
        invariant
            i <= bindings@.len(),
            binding_for(bindings@, url@) == binding_for(bindings@.subrange(i as int, bindings@.len() as int), url@),
        decreases bindings@.len() - i,
    {
        let ghost rest = bindings@.subrange(i as int, bindings@.len() as int);
        proof {
            assert(rest.drop_first() =~= bindings@.subrange(i + 1, bindings@.len() as int));
            assert(rest[0] == bindings@[i as int]);
        }
        if str_eq(bindings[i].0.as_str(), url) {
            return Some(bindings[i].1.clone());
        }
        i = i + 1;
    }
    None
}

fn before_query_chars(s: &Vec<char>) -> (r: Vec<char>)
    ensures
        r@ == before_query(s@),
{
    let q = find_from(s, '?', 0);
    let h = find_from(s, '#', 0);
    proof {
        lemma_find_char(s@, '?', 0);
        lemma_find_char(s@, '#', 0);
    }
    slice_chars(s, 0, if q < h { q } else { h })
}

proof fn lemma_longest_prefix(prefixes: Seq<String>, s: Seq<char>, n: int)
    ensures
        longest_prefix(prefixes, s, n) matches Some(i) ==> 0 <= i < n && starts_with(s, prefixes[i]@),
    decreases n,
{
    if n > 0 {
        lemma_longest_prefix(prefixes, s, n - 1);
    }
}

fn longest_prefix_index(prefixes: &Vec<String>, s: &Vec<char>) -> (r: Option<usize>)
    ensures
        match r {
            Some(i) => longest_prefix(prefixes@, s@, prefixes@.len() as int) == Some(i as int) && i < prefixes@.len(),
            None => longest_prefix(prefixes@, s@, prefixes@.len() as int) is None,
        },
{
    let mut best: Option<usize> = None;
    for k in 0..prefixes.len()
        invariant
            match best {
                Some(i) => longest_prefix(prefixes@, s@, k as int) == Some(i as int) && i < k,
                None => longest_prefix(prefixes@, s@, k as int) is None,
            },
    {
        let p = chars_of(prefixes[k].as_str());
        let matched = strip_prefix_chars(s, &p).is_some();
        proof {
            if strip_prefix(s@, p@) is Some {
                assert(starts_with(s@, prefixes@[k as int]@));
            }
        }
        if matched {
            let better = match best {
                Some(b) => chars_of(prefixes[b].as_str()).len() <= p.len(),
                None => true,
            };
            if better {
                best = Some(k);
            }
        }
    }
    best
}

fn checked_path(p: String) -> (r: Result<Option<String>, LoadError>)
    ensures
        match r {
            Ok(Some(x)) => checked(p@) == Ok::<Option<Seq<char>>, LoadError>(Some(x@)),
            Ok(None) => false,
            Err(e) => checked(p@) == Err::<Option<Seq<char>>, LoadError>(e),
        },
{
    match validate_path(p.as_str()) {
        Ok(()) => Ok(Some(p)),
        Err(e) => Err(LoadError::Path(e)),
    }
}

pub fn under_root_exec(root: &Vec<char>, path: &Vec<char>) -> (r: Option<Vec<char>>)
    ensures
        match r {
            Some(x) => under_root(root@, path@) == Some(x@),
            None => under_root(root@, path@) is None,
        },
{
    if !(root.len() > 0 && root[0] == '/') {
        return None;
    }
    let rn = component_parts(root);
    let pn = component_parts(path);
    if rn.len() > pn.len() {
        return None;
    }
    for i in 0..rn.len()
        invariant
            rn@.len() <= pn@.len(),
            views(rn@) == component_names(root@),
            views(pn@) == component_names(path@),
            is_absolute(root@),
            forall|j: int| 0 <= j < i ==> views(pn@)[j] == views(rn@)[j],
    {
        if !same_chars(&pn[i], &rn[i]) {
            proof {
                assert(views(pn@).subrange(0, views(rn@).len() as int)[i as int] != views(rn@)[i as int]);
            }
            return None;
        }
    }
    proof {
        assert(views(pn@).subrange(0, views(rn@).len() as int) =~= views(rn@));
    }
    let mut rest: Vec<Vec<char>> = Vec::new();
    proof {
        assert(views(rest@) =~= Seq::<Seq<char>>::empty());
    }
    append_parts(&mut rest, &pn, rn.len());
    proof {
        assert(views(rest@) =~= Seq::<Seq<char>>::empty() + views(pn@).subrange(rn@.len() as int, pn@.len() as int));
        assert(views(rest@) =~= views(pn@).subrange(rn@.len() as int, pn@.len() as int));
    }
    let joined = join_chars(&rest, '/');
    proof {
        let rv = component_names(root@);
        let pv = component_names(path@);
        assert(views(rn@) == rv);
        assert(views(pn@) == pv);
        assert(rv.len() <= pv.len());
        assert(pv.subrange(0, rv.len() as int) == rv);
        assert(joined@ == join_with(pv.subrange(rv.len() as int, pv.len() as int), '/'));
        assert(is_absolute(root@));
        assert(under_root(root@, path@) == Some(joined@));
    }
    Some(joined)
}

fn forward_chars(v: &Vec<char>) -> (r: Vec<char>)
    ensures
        r@ == crate::attribution::forward_slashes(v@),
{
    let mut r: Vec<char> = Vec::new();
    for i in 0..v.len()
        invariant
            r@ == crate::attribution::forward_slashes(v@.take(i as int)),
    {
        r.push(if v[i] == '\\' { '/' } else { v[i] });
        proof {
            assert(v@.take(i + 1) == v@.take(i as int).push(v@[i as int]));
            assert(r@ =~= crate::attribution::forward_slashes(v@.take(i + 1)));
        }
    }
    proof {
        assert(v@.take(v@.len() as int) == v@);
    }
    r
}

/// The bundle path a coverage URL names, if any.
pub fn local_path(url: &str, root: &str, options: &InputOptions) -> (r: Result<Option<String>, LoadError>)
    ensures
        match r {
            Ok(Some(p)) => local_path_of(url@, root@, *options) == Ok::<Option<Seq<char>>, LoadError>(Some(p@)),
            Ok(None) => local_path_of(url@, root@, *options) == Ok::<Option<Seq<char>>, LoadError>(None),
            Err(e) => local_path_of(url@, root@, *options) == Err::<Option<Seq<char>>, LoadError>(e),
        },
{
    if let Some(p) = binding_of(&options.script_paths, url) {
        return checked_path(p);
    }
    let clean = before_query_chars(&chars_of(url));
    match longest_prefix_index(&options.url_prefixes, &clean) {
        Some(i) => {
            let prefix = chars_of(options.url_prefixes[i].as_str());
            if !(prefix.len() > 0 && prefix[prefix.len() - 1] == '/') {
                return Err(LoadError::PrefixWithoutSlash(options.url_prefixes[i].clone()));
            }
            proof {
                lemma_longest_prefix(options.url_prefixes@, clean@, options.url_prefixes@.len() as int);
                assert(starts_with(clean@, prefix@));
            }
            let tail = string_of(&slice_chars(&clean, prefix.len(), clean.len()));
            match percent_decode_utf8(tail.as_str()) {
                None => Err(LoadError::InvalidUtf8),
                Some(d) => checked_path(d),
            }
        },
        None => {
            let scheme = chars_of("file://");
            proof {
                reveal_strlit("file://");
            }
            match strip_prefix_chars(&clean, &scheme) {
                Some(path) => {
                    if !(path.len() > 0 && path[0] == '/') {
                        return Ok(None);
                    }
                    match percent_decode_utf8(string_of(&path).as_str()) {
                        None => Err(LoadError::InvalidUtf8),
                        Some(d) => match under_root_exec(&chars_of(root), &chars_of(d.as_str())) {
                            Some(rel) => checked_path(string_of(&forward_chars(&rel))),
                            None => Ok(None),
                        },
                    }
                },
                None => {
                    proof {
                        assert(!starts_with(clean@, "file://"@));
                    }
                    if clean.len() > 0 && !contains_char(&clean, ':') && !(clean[0] == '/') {
                        checked_path(string_of(&clean))
                    } else {
                        Ok(None)
                    }
                },
            }
        },
    }
}


/// One entry of a DevTools, Playwright or V8 coverage file, as parsed.
#[derive(Debug)]
pub struct CoverageEntry {
    /// The entry's `url`, where it is a string.
    pub url: Option<String>,
    /// Whether the entry has the shape of a coverage entry.
    pub well_formed: bool,
    pub source: Option<String>,
    pub text: Option<String>,
    pub functions: Option<Vec<FunctionCoverage>>,
    pub ranges: Option<Vec<Interval>>,
}

/// A coverage file, as parsed.
#[derive(Debug)]
pub enum CoverageDocument {
    /// A hash-bound envelope.
    Envelope(CoverageFile),
    /// A list of entries (a bare array, or V8's `result`).
    Entries(Vec<CoverageEntry>),
    /// Anything else.
    Unsupported,
}

/// Why a coverage entry was skipped.
#[derive(Debug, Clone, PartialEq, Eq)]
pub enum LoadWarning {
    /// No binding maps the URL onto a bundle (file, url).
    Unbound(String, String),
    /// The URL names a file that is not JavaScript.
    NotJavaScript(String),
}

/// The observations of each bundle path, each path once.
pub type CoverageIndex = Vec<(String, Vec<Observation>)>;

pub open spec fn index_keys_distinct(index: Seq<(String, Vec<Observation>)>) -> bool {
    forall|i: int, j: int| 0 <= i < j < index.len() ==> (#[trigger] index[i]).0@ != (#[trigger] index[j]).0@
}

/// A JavaScript file name: its extension is `js`, `mjs` or `cjs`.
pub open spec fn javascript_name(path: Seq<char>) -> bool {
    let slash = crate::maps::last_match(path, seq!['/'], path.len() as int);
    let name = match slash {
        Some(i) => path.subrange(i + 1, path.len() as int),
        None => path,
    };
    match crate::maps::last_match(name, seq!['.'], name.len() as int) {
        Some(d) => d > 0 && {
            let ext = name.subrange(d + 1, name.len() as int);
            ext == "js"@ || ext == "mjs"@ || ext == "cjs"@
        },
        None => false,
    }
}

pub fn is_javascript_path(path: &Vec<char>) -> (r: bool)
    ensures
        r == javascript_name(path@),
{
    let slash = vec!['/'];
    let dot = vec!['.'];
    proof {
        assert(slash@ =~= seq!['/']);
        assert(dot@ =~= seq!['.']);
    }
    let name = match crate::maps::last_match_exec(path, &slash) {
        Some(i) => {
            let len = path.len();
            proof {
                crate::maps::lemma_last_match_bound(path@, slash@, path@.len() as int);
                assert(i < len);
            }
            slice_chars(path, i + 1, len)
        },
        None => path.clone(),
    };
    match crate::maps::last_match_exec(&name, &dot) {
        Some(d) => {
            proof {
                crate::maps::lemma_last_match_bound(name@, dot@, name@.len() as int);
            }
            if d == 0 {
                return false;
            }
            let ext = slice_chars(&name, d + 1, name.len());
            same_chars(&ext, &chars_of("js")) || same_chars(&ext, &chars_of("mjs")) || same_chars(&ext, &chars_of("cjs"))
        },
        None => false,
    }
}

/// Adds an observation under `path`, keeping each path once.
fn add_observation(index: &mut CoverageIndex, path: String, observation: Observation)
    requires
        index_keys_distinct(old(index)@),
    ensures
        index_keys_distinct(final(index)@),
        exists|i: int| 0 <= i < final(index)@.len() && #[trigger] final(index)@[i].0@ == path@,
        forall|i: int| 0 <= i < old(index)@.len() ==> exists|j: int| 0 <= j < final(index)@.len() && #[trigger] final(index)@[j].0@ == (#[trigger] old(index)@[i]).0@,
        forall|j: int| 0 <= j < final(index)@.len() ==> (#[trigger] final(index)@[j]).0@ == path@ || exists|i: int| 0 <= i < old(index)@.len() && (#[trigger] old(index)@[i]).0@ == final(index)@[j].0@,
{
    let mut i: usize = 0;
    while i < index.len()
        invariant
            i <= index@.len(),
            index@ == old(index)@,
            index_keys_distinct(index@),
            forall|j: int| 0 <= j < i ==> #[trigger] index@[j].0@ != path@,
        decreases index@.len() - i,
    {
        if str_eq(index[i].0.as_str(), path.as_str()) {
            let ghost before = index@;
            let (key, mut list) = index.remove(i);
            list.push(observation);
            let ghost entry = (key, list);
            index.insert(i, (key, list));
            proof {
                assert(index@ =~= before.update(i as int, entry));
                assert(entry.0 == before[i as int].0);
                assert forall|a: int, b: int| 0 <= a < b < index@.len() implies (#[trigger] index@[a]).0@ != (#[trigger] index@[b]).0@ by {
                    assert(index@[a].0 == before[a].0);
                    assert(index@[b].0 == before[b].0);
                    assert(before[a].0@ != before[b].0@);
                }
                assert(index@[i as int].0@ == path@);
                assert forall|k: int| 0 <= k < before.len() implies exists|j: int| 0 <= j < index@.len() && #[trigger] index@[j].0@ == (#[trigger] before[k]).0@ by {
                    assert(index@[k].0 == before[k].0);
                }
                assert forall|j: int| 0 <= j < index@.len() implies (#[trigger] index@[j]).0@ == path@ || exists|k: int| 0 <= k < before.len() && (#[trigger] before[k]).0@ == index@[j].0@ by {
                    assert(index@[j].0 == before[j].0);
                }
            }
            return;
        }
        i = i + 1;
    }
    let ghost before = index@;
    let mut list: Vec<Observation> = Vec::new();
    list.push(observation);
    index.push((path, list));
    proof {
        let n = before.len() as int;
        assert(index@[n].0@ == path@);
        assert forall|k: int| 0 <= k < before.len() implies exists|j: int| 0 <= j < index@.len() && #[trigger] index@[j].0@ == (#[trigger] before[k]).0@ by {
            assert(index@[k] == before[k]);
        }
        assert forall|j: int| 0 <= j < index@.len() implies (#[trigger] index@[j]).0@ == path@ || exists|k: int| 0 <= k < before.len() && (#[trigger] before[k]).0@ == index@[j].0@ by {
            if j < n {
                assert(index@[j] == before[j]);
            }
        }
        assert forall|a: int, b: int| 0 <= a < b < index@.len() implies (#[trigger] index@[a]).0@ != (#[trigger] index@[b]).0@ by {
            if b < n {
                assert(index@[a] == before[a] && index@[b] == before[b]);
            } else {
                assert(index@[a] == before[a]);
            }
        }
    }
}


/// The scenario a coverage file records: an envelope's own, else the file's name.
pub open spec fn scenario_of(file: Seq<char>, doc: CoverageDocument) -> Seq<char> {
    match doc {
        CoverageDocument::Envelope(f) => f.scenario@,
        _ => file,
    }
}

/// Every URL prefix ends with `/`.
pub open spec fn prefixes_ok(prefixes: Seq<String>) -> bool {
    forall|i: int| 0 <= i < prefixes.len() ==> (#[trigger] prefixes[i])@.len() > 0 && prefixes[i]@.last() == '/'
}

/// Every path of the index is a safe bundle path, recorded once.
pub open spec fn index_ok(index: Seq<(String, Vec<Observation>)>) -> bool {
    &&& index_keys_distinct(index)
    &&& forall|k: int| 0 <= k < index.len() ==> valid_coverage_path(#[trigger] index[k].0@)
}

proof fn lemma_index_ok_after_add(before: Seq<(String, Vec<Observation>)>, after: Seq<(String, Vec<Observation>)>, path: Seq<char>)
    requires
        index_ok(before),
        index_keys_distinct(after),
        valid_coverage_path(path),
        forall|j: int| 0 <= j < after.len() ==> (#[trigger] after[j]).0@ == path || exists|i: int| 0 <= i < before.len() && (#[trigger] before[i]).0@ == after[j].0@,
    ensures
        index_ok(after),
{
    assert forall|k: int| 0 <= k < after.len() implies valid_coverage_path(#[trigger] after[k].0@) by {
        if after[k].0@ != path {
            let i = choose|i: int| 0 <= i < before.len() && (#[trigger] before[i]).0@ == after[k].0@;
        }
    }
}

/// Entry `i` of document `k`, where document `k` is a list of entries.
pub open spec fn entry_at(docs: Seq<(String, CoverageDocument)>, k: int, i: int) -> Option<CoverageEntry> {
    if 0 <= k < docs.len() {
        match docs[k].1 {
            CoverageDocument::Entries(es) => if 0 <= i < es@.len() {
                Some(es@[i])
            } else {
                None
            },
            _ => None,
        }
    } else {
        None
    }
}

/// Script `s` of document `k`, where document `k` is an envelope.
pub open spec fn script_at(docs: Seq<(String, CoverageDocument)>, k: int, s: int) -> Option<crate::coverage::ScriptCoverage> {
    if 0 <= k < docs.len() {
        match docs[k].1 {
            CoverageDocument::Envelope(f) => if 0 <= s < f.scripts@.len() {
                Some(f.scripts@[s])
            } else {
                None
            },
            _ => None,
        }
    } else {
        None
    }
}

/// Some entry has a URL whose local path is this error.
pub open spec fn url_fails(docs: Seq<(String, CoverageDocument)>, root: Seq<char>, options: InputOptions, err: LoadError) -> bool {
    exists|k: int, i: int|
        #[trigger] entry_at(docs, k, i) matches Some(e) && e.url matches Some(u) && local_path_of(u@, root, options) == Err::<
            Option<Seq<char>>,
            LoadError,
        >(err)
}

/// What each refusal of `load` names: a document, an entry or a script that
/// has that fault.
pub open spec fn load_error_cause(
    docs: Seq<(String, CoverageDocument)>,
    root: Seq<char>,
    options: InputOptions,
    err: LoadError,
) -> bool {
    match err {
        LoadError::PrefixWithoutSlash(p) => exists|i: int|
            0 <= i < options.url_prefixes@.len() && #[trigger] options.url_prefixes@[i] == p && !(p@.len() > 0 && p@.last()
                == '/'),
        LoadError::UnsupportedFormat(f) => exists|k: int|
            0 <= k < docs.len() && (#[trigger] docs[k]).0 == f && docs[k].1 is Unsupported,
        LoadError::SchemaVersion => exists|k: int|
            0 <= k < docs.len() && ((#[trigger] docs[k]).1 matches CoverageDocument::Envelope(f) && f.schema_version != 1),
        LoadError::EmptyScenario => exists|k: int|
            0 <= k < docs.len() && ((#[trigger] docs[k]).1 matches CoverageDocument::Envelope(f) && crate::maps::trim(
                f.scenario@,
            ).len() == 0),
        LoadError::Path(e) => (exists|k: int, s: int|
            #[trigger] script_at(docs, k, s) matches Some(sc) && !valid_coverage_path(sc.path@)) || url_fails(
            docs,
            root,
            options,
            err,
        ),
        LoadError::InvalidUtf8 => url_fails(docs, root, options, err),
        LoadError::NoUrl(f) => exists|k: int, i: int|
            #[trigger] entry_at(docs, k, i) matches Some(e) && docs[k].0 == f && e.url is None,
        LoadError::InvalidEntry(u) => exists|k: int, i: int|
            #[trigger] entry_at(docs, k, i) matches Some(e) && e.url == Some(u) && !e.well_formed,
        LoadError::RangesWithoutText(u) => exists|k: int, i: int|
            #[trigger] entry_at(docs, k, i) matches Some(e) && e.url == Some(u) && e.functions is None && e.ranges is Some
                && e.text is None && e.source is None,
        LoadError::NoRanges(u) => exists|k: int, i: int|
            #[trigger] entry_at(docs, k, i) matches Some(e) && e.url == Some(u) && e.functions is None && e.ranges is None,
        LoadError::NothingMatched(f) => exists|k: int|
            0 <= k < docs.len() && (#[trigger] docs[k]).0 == f && (docs[k].1 matches CoverageDocument::Entries(es) && es@.len() > 0),
    }
}

/// Loads parsed coverage files: envelopes by their script paths, entry
/// lists by mapping each URL onto a bundle path; each file is a scenario.
#[verifier::loop_isolation(false)]
pub fn load(documents: Vec<(String, CoverageDocument)>, root: &str, options: &InputOptions) -> (r: Result<
    (CoverageIndex, Vec<String>, Vec<LoadWarning>),
    LoadError,
>)
    ensures
        !prefixes_ok(options.url_prefixes@) ==> r matches Err(LoadError::PrefixWithoutSlash(_)),
        r matches Err(LoadError::PrefixWithoutSlash(p)) ==> exists|i: int|
            0 <= i < options.url_prefixes@.len() && #[trigger] options.url_prefixes@[i] == p && !(p@.len() > 0
                && p@.last() == '/'),
        r matches Err(e) ==> load_error_cause(documents@, root@, *options, e),
        r matches Ok((index, scenarios, _)) ==> {
            &&& index_ok(index@)
            &&& scenarios@.len() == documents@.len()
            &&& forall|k: int|
                0 <= k < scenarios@.len() ==> (#[trigger] scenarios@[k])@ == scenario_of(
                    documents@[k].0@,
                    documents@[k].1,
                )
        },
{
    for i in 0..options.url_prefixes.len()
        invariant
            forall|j: int| 0 <= j < i ==> (#[trigger] options.url_prefixes@[j])@.len() > 0 && options.url_prefixes@[j]@.last() == '/',
    {
        let p = chars_of(options.url_prefixes[i].as_str());
        if !(p.len() > 0 && p[p.len() - 1] == '/') {
            return Err(LoadError::PrefixWithoutSlash(options.url_prefixes[i].clone()));
        }
    }
    let ghost docs = documents@;
    let mut rest = documents;
    let mut index: CoverageIndex = Vec::new();
    let mut scenarios: Vec<String> = Vec::new();
    let mut warnings: Vec<LoadWarning> = Vec::new();
    let n = rest.len();
    for d in 0..n
        invariant
            n == docs.len(),
            rest@ == docs.subrange(d as int, n as int),
            prefixes_ok(options.url_prefixes@),
            index_ok(index@),
            scenarios@.len() == d,
            forall|k: int| 0 <= k < d ==> (#[trigger] scenarios@[k])@ == scenario_of(docs[k].0@, docs[k].1),
    {
        let (file, doc) = rest.remove(0);
        proof {
            assert(docs[d as int] == (file, doc));
            assert(rest@ =~= docs.subrange(d + 1, n as int));
        }
        match doc {
            CoverageDocument::Unsupported => {
                proof {
                    assert(docs[d as int].0 == file && docs[d as int].1 is Unsupported);
                }
                return Err(LoadError::UnsupportedFormat(file));
            },
            CoverageDocument::Envelope(f) => {
                if f.schema_version != 1 {
                    proof {
                        assert(docs[d as int].1 matches CoverageDocument::Envelope(g) && g.schema_version != 1);
                    }
                    return Err(LoadError::SchemaVersion);
                }
                let trimmed = crate::maps::trim_chars(&chars_of(f.scenario.as_str()));
                if trimmed.len() == 0 {
                    proof {
                        assert(docs[d as int].1 matches CoverageDocument::Envelope(g) && crate::maps::trim(g.scenario@).len() == 0);
                    }
                    return Err(LoadError::EmptyScenario);
                }
                scenarios.push(f.scenario.clone());
                let ghost all_scripts = f.scripts@;
                let mut scripts = f.scripts;
                let m = scripts.len();
                for k in 0..m
                    invariant
                        m == all_scripts.len(),
                        scripts@ == all_scripts.subrange(k as int, m as int),
                        docs[d as int].1 matches CoverageDocument::Envelope(g) && g.scripts@ == all_scripts,
                        prefixes_ok(options.url_prefixes@),
                        index_ok(index@),
                {
                    let script = scripts.remove(0);
                    proof {
                        assert(script == all_scripts[k as int]);
                        assert(scripts@ =~= all_scripts.subrange(k + 1, m as int));
                    }
                    match validate_path(script.path.as_str()) {
                        Err(e) => {
                            proof {
                                assert(script_at(docs, d as int, k as int) == Some(script));
                            }
                            return Err(LoadError::Path(e));
                        },
                        Ok(()) => {},
                    }
                    let ghost before = index@;
                    let ghost path = script.path@;
                    add_observation(
                        &mut index,
                        script.path,
                        Observation {
                            scenario: f.scenario.clone(),
                            format: "bundle-trace".to_string(),
                            hash: Some(script.sha256),
                            source: None,
                            map_hash: Some(script.source_map_sha256),
                            ranges: Ranges::V8(script.functions),
                        },
                    );
                    proof {
                        lemma_index_ok_after_add(before, index@, path);
                    }
                }
            },
            CoverageDocument::Entries(entries) => {
                scenarios.push(file.clone());
                let mut matched: usize = 0;
                let ghost all_entries = entries@;
                let mut list = entries;
                let m = list.len();
                let empty = m == 0;
                let mut k: usize = 0;
                while k < m
                    invariant
                        k <= m,
                        m == all_entries.len(),
                        list@ == all_entries.subrange(k as int, m as int),
                        docs[d as int].1 matches CoverageDocument::Entries(g) && g@ == all_entries,
                        docs[d as int].0 == file,
                        d < n,
                        n == docs.len(),
                        matched <= k,
                        prefixes_ok(options.url_prefixes@),
                        index_ok(index@),
                    decreases m - k,
                {
                    let ghost at = k as int;
                    k = k + 1;
                    let entry = list.remove(0);
                    proof {
                        assert(entry == all_entries[at]);
                        assert(list@ =~= all_entries.subrange(at + 1, m as int));
                        assert(entry_at(docs, d as int, at) == Some(entry));
                    }
                    let url = match entry.url {
                        None => {
                            proof {
                                assert(entry_at(docs, d as int, at) matches Some(e) && docs[d as int].0 == file && e.url is None);
                            }
                            return Err(LoadError::NoUrl(file));
                        },
                        Some(u) => u,
                    };
                    let local = match local_path(url.as_str(), root, options) {
                        Err(e) => {
                            proof {
                                lemma_longest_prefix(
                                    options.url_prefixes@,
                                    before_query(url@),
                                    options.url_prefixes@.len() as int,
                                );
                                assert(url_fails(docs, root@, *options, e));
                            }
                            return Err(e);
                        },
                        Ok(None) => {
                            warnings.push(LoadWarning::Unbound(file.clone(), url));
                            continue;
                        },
                        Ok(Some(local)) => local,
                    };
                    if !is_javascript_path(&chars_of(local.as_str())) {
                        warnings.push(LoadWarning::NotJavaScript(url));
                        continue;
                    }
                    if !entry.well_formed {
                        return Err(LoadError::InvalidEntry(url));
                    }
                    let has_source = entry.source.is_some();
                    let (ranges, format) = match entry.functions {
                        Some(functions) => (
                            Ranges::V8(functions),
                            if has_source { "playwright-v8".to_string() } else { "v8".to_string() },
                        ),
                        None => match entry.ranges {
                            Some(ranges) => {
                                if entry.text.is_none() && entry.source.is_none() {
                                    return Err(LoadError::RangesWithoutText(url));
                                }
                                (Ranges::Used(ranges), "devtools".to_string())
                            },
                            None => return Err(LoadError::NoRanges(url)),
                        },
                    };
                    matched = matched + 1;
                    let source = match entry.source {
                        Some(s) => Some(s),
                        None => entry.text,
                    };
                    proof {
                        assert(valid_coverage_path(local@));
                    }
                    let ghost before = index@;
                    let ghost path = local@;
                    add_observation(
                        &mut index,
                        local,
                        Observation { scenario: file.clone(), format, hash: None, source, map_hash: None, ranges },
                    );
                    proof {
                        lemma_index_ok_after_add(before, index@, path);
                    }
                }
                if matched == 0 && !empty {
                    proof {
                        assert(docs[d as int].0 == file);
                    }
                    return Err(LoadError::NothingMatched(file));
                }
            },
        }
    }
    Ok((index, scenarios, warnings))
}

} // verus!
