//! Where a bundle's source map comes from: a trailing `sourceMappingURL`
//! comment, an inline data URL, or the conventional adjacent `.map` file.
use vstd::prelude::*;

use base64::Engine;
use vstd::utf8::{decode_utf8, encode_utf8, valid_utf8};

use crate::strings::{chars_of, extend_chars, slice_chars, string_of};
use crate::source_path::{find_char, find_from, lemma_find_char, split_chars, split_on, views};

verus! {

/// `char::is_whitespace`: the Unicode `White_Space` characters.
pub open spec fn is_space(c: char) -> bool {
    ('\u{9}' <= c <= '\u{d}') || c == ' ' || c == '\u{85}' || c == '\u{a0}' || c == '\u{1680}' || ('\u{2000}' <= c
        <= '\u{200a}') || c == '\u{2028}' || c == '\u{2029}' || c == '\u{202f}' || c == '\u{205f}' || c == '\u{3000}'
}

/// `str::trim_end`.
pub open spec fn trim_end(s: Seq<char>) -> Seq<char>
    decreases s.len(),
{
    if s.len() > 0 && is_space(s.last()) {
        trim_end(s.drop_last())
    } else {
        s
    }
}

/// `str::trim_start`.
pub open spec fn trim_start(s: Seq<char>) -> Seq<char>
    decreases s.len(),
{
    if s.len() > 0 && is_space(s[0]) {
        trim_start(s.drop_first())
    } else {
        s
    }
}

/// `str::trim`.
pub open spec fn trim(s: Seq<char>) -> Seq<char> {
    trim_start(trim_end(s))
}

/// `str::strip_prefix`.
pub open spec fn strip_prefix(s: Seq<char>, p: Seq<char>) -> Option<Seq<char>> {
    if p.len() <= s.len() && s.subrange(0, p.len() as int) == p {
        Some(s.subrange(p.len() as int, s.len() as int))
    } else {
        None
    }
}

/// The start of the last occurrence of `p` in `s` that begins before `i`.
pub open spec fn last_match(s: Seq<char>, p: Seq<char>, i: int) -> Option<int>
    decreases i,
{
    if i <= 0 {
        None
    } else if i - 1 + p.len() <= s.len() && s.subrange(i - 1, i - 1 + p.len()) == p {
        Some(i - 1)
    } else {
        last_match(s, p, i - 1)
    }
}

/// The text after the last `\n`.
pub open spec fn last_line(s: Seq<char>) -> Seq<char> {
    match last_match(s, seq!['\n'], s.len() as int) {
        Some(i) => s.subrange(i + 1, s.len() as int),
        None => s,
    }
}

/// The reference of a trailing `/*# sourceMappingURL=.. */` block comment.
pub open spec fn block_annotation(c: Seq<char>) -> Option<Seq<char>> {
    if 2 <= c.len() && c.subrange(c.len() - 2, c.len() as int) == "*/"@ {
        let comment = c.subrange(0, c.len() - 2);
        let at = match last_match(comment, "/*#"@, comment.len() as int) {
            Some(i) => Some(i),
            None => last_match(comment, "/*@"@, comment.len() as int),
        };
        match at {
            Some(i) => match strip_prefix(trim(comment.subrange(i + 3, comment.len() as int)), "sourceMappingURL="@) {
                Some(r) => Some(trim(r)),
                None => None,
            },
            None => None,
        }
    } else {
        None
    }
}

/// The `sourceMappingURL` reference of a bundle: a trailing block comment,
/// else a final `//#` (or `//@`) line comment.
pub open spec fn annotation_of(content: Seq<char>) -> Option<Seq<char>> {
    let c = trim_end(content);
    match block_annotation(c) {
        Some(r) => Some(r),
        None => {
            let line = trim(last_line(c));
            let comment = match strip_prefix(line, "//#"@) {
                Some(x) => Some(x),
                None => strip_prefix(line, "//@"@),
            };
            match comment {
                Some(x) => match strip_prefix(trim(x), "sourceMappingURL="@) {
                    Some(r) => Some(trim(r)),
                    None => None,
                },
                None => None,
            }
        },
    }
}

fn is_space_exec(c: char) -> (r: bool)
    ensures
        r == is_space(c),
{
    ('\u{9}' <= c && c <= '\u{d}') || c == ' ' || c == '\u{85}' || c == '\u{a0}' || c == '\u{1680}' || ('\u{2000}' <= c
        && c <= '\u{200a}') || c == '\u{2028}' || c == '\u{2029}' || c == '\u{202f}' || c == '\u{205f}' || c == '\u{3000}'
}

fn trim_end_chars(s: &Vec<char>) -> (r: Vec<char>)
    ensures
        r@ == trim_end(s@),
{
    let mut n = s.len();
    proof {
        assert(s@.subrange(0, n as int) =~= s@);
    }
    while n > 0 && is_space_exec(s[n - 1])
        invariant
            n <= s@.len(),
            trim_end(s@) == trim_end(s@.subrange(0, n as int)),
        decreases n,
    {
        proof {
            assert(s@.subrange(0, n as int).drop_last() =~= s@.subrange(0, n - 1));
        }
        n = n - 1;
    }
    slice_chars(s, 0, n)
}

pub fn trim_chars(s: &Vec<char>) -> (r: Vec<char>)
    ensures
        r@ == trim(s@),
{
    let e = trim_end_chars(s);
    let mut i: usize = 0;
    proof {
        assert(e@.subrange(0, e@.len() as int) =~= e@);
    }
    while i < e.len() && is_space_exec(e[i])
        invariant
            i <= e@.len(),
            trim_start(e@) == trim_start(e@.subrange(i as int, e@.len() as int)),
        decreases e@.len() - i,
    {
        proof {
            assert(e@.subrange(i as int, e@.len() as int).drop_first() =~= e@.subrange(i + 1, e@.len() as int));
        }
        i = i + 1;
    }
    slice_chars(&e, i, e.len())
}

pub fn strip_prefix_chars(s: &Vec<char>, p: &Vec<char>) -> (r: Option<Vec<char>>)
    ensures
        match r {
            Some(v) => strip_prefix(s@, p@) == Some(v@),
            None => strip_prefix(s@, p@) is None,
        },
{
    if p.len() > s.len() {
        return None;
    }
    for i in 0..p.len()
        invariant
            p@.len() <= s@.len(),
            forall|j: int| 0 <= j < i ==> s@[j] == p@[j],
    {
        if s[i] != p[i] {
            proof {
                assert(s@.subrange(0, p@.len() as int)[i as int] != p@[i as int]);
            }
            return None;
        }
    }
    proof {
        assert(s@.subrange(0, p@.len() as int) =~= p@);
    }
    Some(slice_chars(s, p.len(), s.len()))
}

pub fn matches_at(s: &Vec<char>, p: &Vec<char>, i: usize) -> (r: bool)
    requires
        i <= s@.len(),
    ensures
        r == (i + p@.len() <= s@.len() && s@.subrange(i as int, i + p@.len()) == p@),
{
    if p.len() > s.len() - i {
        return false;
    }
    for j in 0..p.len()
        invariant
            i + p@.len() <= s@.len(),
            s@.len() <= usize::MAX,
            forall|k: int| 0 <= k < j ==> s@[i + k] == p@[k],
    {
        if s[i + j] != p[j] {
            proof {
                assert(s@.subrange(i as int, i + p@.len())[j as int] != p@[j as int]);
            }
            return false;
        }
    }
    proof {
        assert(s@.subrange(i as int, i + p@.len()) =~= p@);
    }
    true
}

pub fn last_match_exec(s: &Vec<char>, p: &Vec<char>) -> (r: Option<usize>)
    ensures
        match r {
            Some(i) => last_match(s@, p@, s@.len() as int) == Some(i as int),
            None => last_match(s@, p@, s@.len() as int) is None,
        },
{
    let mut i = s.len();
    while i > 0
        invariant
            i <= s@.len(),
            last_match(s@, p@, s@.len() as int) == last_match(s@, p@, i as int),
        decreases i,
    {
        if matches_at(s, p, i - 1) {
            return Some(i - 1);
        }
        i = i - 1;
    }
    None
}


/// The `sourceMappingURL` reference of a bundle, if it has one.
pub fn annotation(content: &str) -> (r: Option<String>)
    ensures
        match r {
            Some(x) => annotation_of(content@) == Some(x@),
            None => annotation_of(content@) is None,
        },
{
    let c = trim_end_chars(&chars_of(content));
    let close = chars_of("*/");
    proof {
        reveal_strlit("*/");
    }
    if c.len() >= 2 && matches_at(&c, &close, c.len() - 2) {
        let comment = slice_chars(&c, 0, c.len() - 2);
        let at = match last_match_exec(&comment, &chars_of("/*#")) {
            Some(i) => Some(i),
            None => last_match_exec(&comment, &chars_of("/*@")),
        };
        if let Some(i) = at {
            proof {
                lemma_last_match_bound(comment@, "/*#"@, comment@.len() as int);
                lemma_last_match_bound(comment@, "/*@"@, comment@.len() as int);
                reveal_strlit("/*#");
                reveal_strlit("/*@");
            }
            let tail = trim_chars(&slice_chars(&comment, i + 3, comment.len()));
            if let Some(reference) = strip_prefix_chars(&tail, &chars_of("sourceMappingURL=")) {
                return Some(string_of(&trim_chars(&reference)));
            }
        }
    }
    let newline = vec!['\n'];
    proof {
        assert(newline@ =~= seq!['\n']);
    }
    let line = match last_match_exec(&c, &newline) {
        Some(i) => {
            proof {
                lemma_last_match_bound(c@, seq!['\n'], c@.len() as int);
            }
            slice_chars(&c, i + 1, c.len())
        },
        None => c.clone(),
    };
    let line = trim_chars(&line);
    let comment = match strip_prefix_chars(&line, &chars_of("//#")) {
        Some(x) => Some(x),
        None => strip_prefix_chars(&line, &chars_of("//@")),
    };
    match comment {
        Some(x) => match strip_prefix_chars(&trim_chars(&x), &chars_of("sourceMappingURL=")) {
            Some(reference) => Some(string_of(&trim_chars(&reference))),
            None => None,
        },
        None => None,
    }
}

pub proof fn lemma_last_match_bound(s: Seq<char>, p: Seq<char>, i: int)
    ensures
        last_match(s, p, i) matches Some(j) ==> 0 <= j < i && j + p.len() <= s.len() && s.subrange(j, j + p.len()) == p,
    decreases i,
{
    if i > 0 {
        lemma_last_match_bound(s, p, i - 1);
    }
}


/// The value of an ASCII hex digit.
pub open spec fn hex_value(b: u8) -> Option<u8> {
    if 48 <= b <= 57 {
        Some((b - 48) as u8)
    } else if 97 <= b <= 102 {
        Some((b - 87) as u8)
    } else if 65 <= b <= 70 {
        Some((b - 55) as u8)
    } else {
        None
    }
}

/// Percent-decoding: `%` and two hex digits become that byte; every other
/// byte, a `%` without two hex digits included, stays.
pub open spec fn percent_decoded(b: Seq<u8>) -> Seq<u8>
    decreases b.len(),
{
    if b.len() == 0 {
        Seq::empty()
    } else if b[0] == 37 && b.len() >= 3 && hex_value(b[1]) is Some && hex_value(b[2]) is Some {
        seq![(hex_value(b[1]).unwrap() * 16 + hex_value(b[2]).unwrap()) as u8] + percent_decoded(b.subrange(3, b.len() as int))
    } else {
        seq![b[0]] + percent_decoded(b.drop_first())
    }
}

/// `percent_encoding::percent_decode_str(s)`, collected.
#[verifier::external_body]
fn percent_decode(s: &str) -> (r: Vec<u8>)
    ensures
        r@ == percent_decoded(encode_utf8(s@)),
{
    percent_encoding::percent_decode_str(s).collect()
}

/// `percent_encoding::percent_decode_str(s).decode_utf8()`: the decoded
/// bytes as text where they are valid UTF-8.
#[verifier::external_body]
pub(crate) fn percent_decode_utf8(s: &str) -> (r: Option<String>)
    ensures
        match r {
            Some(t) => valid_utf8(percent_decoded(encode_utf8(s@))) && t@ == decode_utf8(percent_decoded(encode_utf8(s@))),
            None => !valid_utf8(percent_decoded(encode_utf8(s@))),
        },
{
    percent_encoding::percent_decode_str(s).decode_utf8().ok().map(|t| t.into_owned())
}

/// What the standard base64 engine decodes from these bytes, `None` where it refuses them.
pub uninterp spec fn base64_decoded(data: Seq<u8>) -> Option<Seq<u8>>;

/// `base64::engine::general_purpose::STANDARD.decode`: named, a function of the bytes.
#[verifier::external_body]
fn base64_decode(data: &[u8]) -> (r: Option<Vec<u8>>)
    ensures
        match r {
            Some(v) => base64_decoded(data@) == Some(v@),
            None => base64_decoded(data@) is None,
        },
{
    base64::engine::general_purpose::STANDARD.decode(data).ok()
}

/// Where a bundle's map is to be read from.
#[derive(Debug, Clone, PartialEq, Eq)]
pub enum MapReference {
    /// An inline data URL, decoded.
    Inline(Vec<u8>),
    /// A relative path declared by the bundle's annotation (percent-decoded).
    Declared(String),
    /// No annotation: the conventional adjacent `<file>.map`, which may be absent.
    Adjacent(String),
}

/// Why a bundle's map reference was refused.
#[derive(Debug, Clone, PartialEq, Eq)]
pub enum ReferenceError {
    /// A data URL without a comma.
    InvalidDataUrl,
    /// A data URL of a media type other than JSON.
    UnsupportedMediaType,
    /// A base64 data URL that does not decode.
    InvalidBase64,
    /// A reference that is a URL or an absolute path.
    NotLocal,
    /// A reference whose percent-decoding is not UTF-8.
    InvalidUtf8,
    /// A reference that decodes to nothing.
    Empty,
}

/// The code of a character's ASCII lowercase form.
pub open spec fn ascii_lower(c: char) -> u32 {
    if 'A' <= c <= 'Z' {
        ((c as u32) + 32) as u32
    } else {
        c as u32
    }
}

/// `str::eq_ignore_ascii_case`.
pub open spec fn eq_ignore_ascii_case(a: Seq<char>, b: Seq<char>) -> bool {
    a.len() == b.len() && forall|i: int| 0 <= i < a.len() ==> ascii_lower(#[trigger] a[i]) == ascii_lower(b[i])
}

/// The media types a map data URL may declare.
pub open spec fn json_media(m: Seq<char>) -> bool {
    m == "application/json"@ || m == "application/octet-stream"@ || m.len() == 0
}

/// The map of a data URL's text after `data:`.
pub open spec fn data_url_map(rest: Seq<char>) -> Result<Seq<u8>, ReferenceError> {
    let comma = find_char(rest, ',', 0);
    if comma >= rest.len() {
        Err(ReferenceError::InvalidDataUrl)
    } else {
        let metadata = rest.subrange(0, comma);
        let payload = percent_decoded(encode_utf8(rest.subrange(comma + 1, rest.len() as int)));
        if !json_media(split_on(metadata, ';')[0]) {
            Err(ReferenceError::UnsupportedMediaType)
        } else if exists|i: int| 0 <= i < split_on(metadata, ';').len() && eq_ignore_ascii_case(#[trigger] split_on(metadata, ';')[i], "base64"@) {
            match base64_decoded(payload) {
                Some(d) => Ok(d),
                None => Err(ReferenceError::InvalidBase64),
            }
        } else {
            Ok(payload)
        }
    }
}


/// A declared reference as a relative path: no scheme, root or backslash;
/// query and fragment dropped; percent-decoded; not empty.
pub open spec fn local_reference(r: Seq<char>) -> Result<Seq<char>, ReferenceError> {
    if r.contains(':') || (r.len() > 0 && r[0] == '/') || r.contains('\\') {
        Err(ReferenceError::NotLocal)
    } else {
        let q = find_char(r, '?', 0);
        let h = find_char(r, '#', 0);
        let cut = if q < h { q } else { h };
        let bytes = percent_decoded(encode_utf8(r.subrange(0, cut)));
        if !valid_utf8(bytes) {
            Err(ReferenceError::InvalidUtf8)
        } else if decode_utf8(bytes).len() == 0 {
            Err(ReferenceError::Empty)
        } else {
            Ok(decode_utf8(bytes))
        }
    }
}

pub fn contains_char(s: &Vec<char>, c: char) -> (r: bool)
    ensures
        r == s@.contains(c),
{
    for i in 0..s.len()
        invariant
            forall|j: int| 0 <= j < i ==> s@[j] != c,
    {
        if s[i] == c {
            proof {
                assert(s@[i as int] == c);
            }
            return true;
        }
    }
    false
}

fn lower(c: char) -> (r: u32)
    ensures
        r == ascii_lower(c),
{
    if 'A' <= c && c <= 'Z' {
        (c as u32) + 32
    } else {
        c as u32
    }
}

fn same_ignoring_case(a: &Vec<char>, b: &Vec<char>) -> (r: bool)
    ensures
        r == eq_ignore_ascii_case(a@, b@),
{
    if a.len() != b.len() {
        return false;
    }
    for i in 0..a.len()
        invariant
            a@.len() == b@.len(),
            forall|j: int| 0 <= j < i ==> ascii_lower(#[trigger] a@[j]) == ascii_lower(b@[j]),
    {
        if lower(a[i]) != lower(b[i]) {
            return false;
        }
    }
    true
}

fn data_map(rest: &Vec<char>) -> (r: Result<Vec<u8>, ReferenceError>)
    ensures
        match r {
            Ok(v) => data_url_map(rest@) == Ok::<Seq<u8>, ReferenceError>(v@),
            Err(e) => data_url_map(rest@) == Err::<Seq<u8>, ReferenceError>(e),
        },
{
    let comma = find_from(rest, ',', 0);
    proof {
        lemma_find_char(rest@, ',', 0);
    }
    if comma >= rest.len() {
        return Err(ReferenceError::InvalidDataUrl);
    }
    let metadata = slice_chars(rest, 0, comma);
    let payload = percent_decode(string_of(&slice_chars(rest, comma + 1, rest.len())).as_str());
    let parts = split_chars(&metadata, ';');
    proof {
        crate::source_path::lemma_split_nonempty(metadata@, ';');
        assert(views(parts@)[0] == parts@[0]@);
    }
    let media = &parts[0];
    let json = chars_of("application/json");
    let octets = chars_of("application/octet-stream");
    if !(crate::strings::same_chars(media, &json) || crate::strings::same_chars(media, &octets) || media.len() == 0) {
        return Err(ReferenceError::UnsupportedMediaType);
    }
    let base64_word = chars_of("base64");
    let mut encoded = false;
    for i in 0..parts.len()
        invariant
            base64_word@ == "base64"@,
            encoded == exists|j: int| 0 <= j < i && eq_ignore_ascii_case(#[trigger] views(parts@)[j], "base64"@),
    {
        if !encoded && same_ignoring_case(&parts[i], &base64_word) {
            proof {
                assert(views(parts@)[i as int] == parts@[i as int]@);
            }
            encoded = true;
        }
        proof {
            assert(views(parts@)[i as int] == parts@[i as int]@);
        }
    }
    if encoded {
        match base64_decode(payload.as_slice()) {
            Some(d) => Ok(d),
            None => Err(ReferenceError::InvalidBase64),
        }
    } else {
        Ok(payload)
    }
}

/// Where a bundle's map comes from: its annotation's inline data URL or
/// declared relative path, else the adjacent `<file>.map`.
pub fn reference(file_name: &str, content: &str) -> (r: Result<MapReference, ReferenceError>)
    ensures
        match annotation_of(content@) {
            None => r matches Ok(MapReference::Adjacent(n)) && n@ == file_name@ + ".map"@,
            Some(a) => match strip_prefix(a, "data:"@) {
                Some(rest) => match data_url_map(rest) {
                    Ok(d) => r matches Ok(MapReference::Inline(v)) && v@ == d,
                    Err(e) => r == Err::<MapReference, ReferenceError>(e),
                },
                None => match local_reference(a) {
                    Ok(p) => r matches Ok(MapReference::Declared(s)) && s@ == p,
                    Err(e) => r == Err::<MapReference, ReferenceError>(e),
                },
            },
        },
{
    let a = match annotation(content) {
        None => {
            let mut name = chars_of(file_name);
            extend_chars(&mut name, &chars_of(".map"));
            return Ok(MapReference::Adjacent(string_of(&name)));
        },
        Some(a) => chars_of(a.as_str()),
    };
    if let Some(rest) = strip_prefix_chars(&a, &chars_of("data:")) {
        return match data_map(&rest) {
            Ok(d) => Ok(MapReference::Inline(d)),
            Err(e) => Err(e),
        };
    }
    if contains_char(&a, ':') || (a.len() > 0 && a[0] == '/') || contains_char(&a, '\\') {
        return Err(ReferenceError::NotLocal);
    }
    let q = find_from(&a, '?', 0);
    let h = find_from(&a, '#', 0);
    proof {
        lemma_find_char(a@, '?', 0);
        lemma_find_char(a@, '#', 0);
    }
    let cut = if q < h { q } else { h };
    let part = string_of(&slice_chars(&a, 0, cut));
    match percent_decode_utf8(part.as_str()) {
        None => Err(ReferenceError::InvalidUtf8),
        Some(d) => {
            if chars_of(d.as_str()).len() == 0 {
                Err(ReferenceError::Empty)
            } else {
                Ok(MapReference::Declared(d))
            }
        },
    }
}

} // verus!
