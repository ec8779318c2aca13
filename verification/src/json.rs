//! JSON values as the source-map checks read them, and the structural check
//! of a source map's JSON.
use vstd::prelude::*;

use crate::strings::str_eq;

verus! {

/// A parsed JSON value. A number keeps its value where it is a nonnegative
/// integer that fits `u64`, and `None` otherwise.
#[derive(Debug)]
pub enum Json {
    Null,
    Bool(bool),
    Number(Option<u64>),
    Str(String),
    Array(Vec<Json>),
    Object(Vec<(String, Json)>),
}

/// `serde_json::Value`, carried opaquely.
#[verifier::external_type_specification]
#[verifier::external_body]
pub struct ExJsonValue(serde_json::Value);

/// What `serde_json` parses from these bytes, `None` where they are no JSON document.
pub uninterp spec fn parsed_json(data: Seq<u8>) -> Option<Json>;

/// `serde_json::from_slice` into a `serde_json::Value`, converted one for one
/// into `Json`. The contract only names the result: it is a function of the bytes.
#[verifier::external_body]
pub(crate) fn parse_json(data: &[u8]) -> (r: Option<Json>)
    ensures
        r == parsed_json(data@),
{
    serde_json::from_slice::<serde_json::Value>(data).ok().map(|v| json_of_value(&v))
}

/// Converts a `serde_json::Value` variant by variant; nothing is claimed of it
/// beyond what `parse_json` names.
#[verifier::external_body]
fn json_of_value(v: &serde_json::Value) -> Json {
    match v {
        serde_json::Value::Null => Json::Null,
        serde_json::Value::Bool(b) => Json::Bool(*b),
        serde_json::Value::Number(n) => Json::Number(n.as_u64()),
        serde_json::Value::String(s) => Json::Str(s.clone()),
        serde_json::Value::Array(a) => Json::Array(a.iter().map(json_of_value).collect()),
        serde_json::Value::Object(o) => Json::Object(o.iter().map(|(k, x)| (k.clone(), json_of_value(x))).collect()),
    }
}

/// Why a source map's JSON was rejected.
#[derive(Debug, Clone, Copy, PartialEq, Eq, Structural)]
pub enum MapError {
    /// The bytes are no JSON document.
    NotJson,
    /// `version` is not the number 3.
    Version,
    /// `sections` is not an array.
    SectionsNotArray,
    /// A section has no `offset`.
    NoOffset,
    /// An offset's `line` is missing or not a `u32`.
    OffsetLine,
    /// An offset's `column` is missing or not a `u32`.
    OffsetColumn,
    /// Section offsets do not strictly increase.
    SectionsOrder,
    /// A section refers to its map by `url`.
    ExternalSection,
    /// A section has no `map`.
    NoMap,
    /// A regular map has no `sources` array.
    NoSources,
    /// A regular map has no `mappings` string.
    NoMappings,
}

/// The first index at or after `i` whose key is `key`, or the length.
pub open spec fn key_index(o: Seq<(String, Json)>, key: Seq<char>, i: int) -> int
    decreases o.len() - i,
{
    if i >= o.len() {
        o.len() as int
    } else if o[i].0@ == key {
        i
    } else {
        key_index(o, key, i + 1)
    }
}

/// The member `key` of an object, as `serde_json::Value::get` finds it.
pub open spec fn member(j: Json, key: Seq<char>) -> Option<Json> {
    match j {
        Json::Object(o) => {
            let i = key_index(o@, key, 0);
            if 0 <= i < o@.len() {
                Some(o@[i].1)
            } else {
                None
            }
        },
        _ => None,
    }
}

/// A `u32` held by the member `key` of `j`.
pub open spec fn coordinate(j: Json, key: Seq<char>) -> Option<u32> {
    match member(j, key) {
        Some(Json::Number(Some(n))) => if n <= u32::MAX {
            Some(n as u32)
        } else {
            None
        },
        _ => None,
    }
}

pub open spec fn sections_of(j: Json) -> Seq<Json> {
    match member(j, "sections"@) {
        Some(Json::Array(a)) => a@,
        _ => Seq::empty(),
    }
}

pub open spec fn position_before(a: (u32, u32), b: (u32, u32)) -> bool {
    a.0 < b.0 || (a.0 == b.0 && a.1 < b.1)
}

/// The error of section `s` before its embedded map is looked at, or its offset.
pub open spec fn section_head(s: Json, previous: Option<(u32, u32)>) -> Result<(u32, u32), MapError> {
    match member(s, "offset"@) {
        None => Err(MapError::NoOffset),
        Some(offset) => match coordinate(offset, "line"@) {
            None => Err(MapError::OffsetLine),
            Some(line) => match coordinate(offset, "column"@) {
                None => Err(MapError::OffsetColumn),
                Some(column) => if previous matches Some(p) && !position_before(p, (line, column)) {
                    Err(MapError::SectionsOrder)
                } else if member(s, "url"@) is Some {
                    Err(MapError::ExternalSection)
                } else if member(s, "map"@) is None {
                    Err(MapError::NoMap)
                } else {
                    Ok((line, column))
                },
            },
        },
    }
}

/// The first error of a source map's JSON, `None` where it is a valid map.
pub open spec fn map_error(j: Json) -> Option<MapError>
    decreases j, sections_of(j).len() + 1,
{
    if member(j, "version"@) != Some(Json::Number(Some(3))) {
        Some(MapError::Version)
    } else {
        match member(j, "sections"@) {
            Some(Json::Array(a)) => sections_error(j, 0, None),
            Some(_) => Some(MapError::SectionsNotArray),
            None => if !(member(j, "sources"@) matches Some(Json::Array(_))) {
                Some(MapError::NoSources)
            } else if !(member(j, "mappings"@) matches Some(Json::Str(_))) {
                Some(MapError::NoMappings)
            } else {
                None
            },
        }
    }
}

/// The first error among the sections of `j` from index `k` on.
pub open spec fn sections_error(j: Json, k: int, previous: Option<(u32, u32)>) -> Option<MapError>
    decreases j, sections_of(j).len() - k,
{
    let a = sections_of(j);
    if k < 0 || k >= a.len() {
        None
    } else {
        match section_head(a[k], previous) {
            Err(e) => Some(e),
            Ok(position) => match member(a[k], "map"@) {
                Some(inner) => match map_error(inner) {
                    Some(e) => Some(e),
                    None => sections_error(j, k + 1, Some(position)),
                },
                None => None,
            },
        }
    }
}


fn key_position(o: &Vec<(String, Json)>, key: &str) -> (r: usize)
    ensures
        r == key_index(o@, key@, 0),
{
    let mut i: usize = 0;
    while i < o.len() && !str_eq(o[i].0.as_str(), key)
        invariant
            i <= o@.len(),
            key_index(o@, key@, i as int) == key_index(o@, key@, 0),
        decreases o@.len() - i,
    {
        i = i + 1;
    }
    i
}

/// The member `key` of an object.
pub fn member_of<'a>(j: &'a Json, key: &str) -> (r: Option<&'a Json>)
    ensures
        match r {
            Some(x) => member(*j, key@) == Some(*x),
            None => member(*j, key@) is None,
        },
{
    match j {
        Json::Object(o) => {
            let i = key_position(o, key);
            proof {
                lemma_key_index(o@, key@, 0);
            }
            if i < o.len() {
                Some(&o[i].1)
            } else {
                None
            }
        },
        _ => None,
    }
}

proof fn lemma_key_index(o: Seq<(String, Json)>, key: Seq<char>, i: int)
    requires
        0 <= i <= o.len(),
    ensures
        i <= key_index(o, key, i) <= o.len(),
    decreases o.len() - i,
{
    if i < o.len() && o[i].0@ != key {
        lemma_key_index(o, key, i + 1);
    }
}

fn coordinate_of(j: &Json, key: &str) -> (r: Option<u32>)
    ensures
        r == coordinate(*j, key@),
{
    match member_of(j, key) {
        Some(Json::Number(Some(n))) => if *n <= 4294967295u64 {
            Some(*n as u32)
        } else {
            None
        },
        _ => None,
    }
}

fn section_head_of(s: &Json, previous: Option<(u32, u32)>) -> (r: Result<(u32, u32), MapError>)
    ensures
        r == section_head(*s, previous),
{
    let offset = match member_of(s, "offset") {
        None => return Err(MapError::NoOffset),
        Some(offset) => offset,
    };
    let line = match coordinate_of(offset, "line") {
        None => return Err(MapError::OffsetLine),
        Some(line) => line,
    };
    let column = match coordinate_of(offset, "column") {
        None => return Err(MapError::OffsetColumn),
        Some(column) => column,
    };
    if let Some(p) = previous {
        if !(p.0 < line || (p.0 == line && p.1 < column)) {
            return Err(MapError::SectionsOrder);
        }
    }
    if member_of(s, "url").is_some() {
        return Err(MapError::ExternalSection);
    }
    if member_of(s, "map").is_none() {
        return Err(MapError::NoMap);
    }
    Ok((line, column))
}

/// Checks a source map's JSON: version 3; for an index map, sections with
/// `u32` offsets in strictly increasing order, each embedding a valid map and
/// none referring to one by `url`; for a regular map, a `sources` array and a
/// `mappings` string.
pub fn validate_map(j: &Json) -> (r: Result<(), MapError>)
    ensures
        r == (match map_error(*j) {
            None => Ok(()),
            Some(e) => Err(e),
        }),
    decreases *j, sections_of(*j).len() + 1,
{
    match member_of(j, "version") {
        Some(Json::Number(Some(n))) => if *n != 3 {
            return Err(MapError::Version);
        },
        _ => return Err(MapError::Version),
    }
    match member_of(j, "sections") {
        Some(Json::Array(a)) => {
            let mut previous: Option<(u32, u32)> = None;
            let mut k: usize = 0;
            while k < a.len()
                invariant
                    sections_of(*j) == a@,
                    map_error(*j) == sections_error(*j, 0, None),
                    k <= a@.len(),
                    sections_error(*j, 0, None) == sections_error(*j, k as int, previous),
                decreases a@.len() - k,
            {
                let position = match section_head_of(&a[k], previous) {
                    Err(e) => return Err(e),
                    Ok(position) => position,
                };
                match member_of(&a[k], "map") {
                    Some(inner) => {
                        match validate_map(inner) {
                            Err(e) => return Err(e),
                            Ok(()) => {},
                        }
                    },
                    None => return Ok(()),
                }
                previous = Some(position);
                k = k + 1;
            }
            Ok(())
        },
        Some(_) => Err(MapError::SectionsNotArray),
        None => {
            match member_of(j, "sources") {
                Some(Json::Array(_)) => {},
                _ => return Err(MapError::NoSources),
            }
            match member_of(j, "mappings") {
                Some(Json::Str(_)) => {},
                _ => return Err(MapError::NoMappings),
            }
            Ok(())
        },
    }
}

} // verus!
