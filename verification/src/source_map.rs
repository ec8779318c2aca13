//! A decoded source map as plain values: what the attribution reads of it.
use vstd::prelude::*;

verus! {

/// One mapping: a generated position and, where it names a source, the
/// original position in that source.
#[derive(Debug, Clone, Copy)]
pub struct MapToken {
    pub dst_line: u32,
    pub dst_col: u32,
    /// The index into the map's sources, `u32::MAX` where there is none.
    pub src_id: u32,
    pub src_line: u32,
    pub src_col: u32,
    /// The source index names one of the map's sources.
    pub has_source: bool,
}

/// A regular source map: each source with its content, and the mappings in order.
#[derive(Debug)]
pub struct RegularMap {
    pub sources: Vec<Option<String>>,
    pub contents: Vec<Option<String>>,
    pub tokens: Vec<MapToken>,
}

/// An index-map section: its offset and its embedded map.
#[derive(Debug)]
pub struct MapSection {
    pub line: u32,
    pub column: u32,
    pub map: Option<Box<MapTree>>,
}

/// A regular map, an index map of sections, or a Hermes map.
#[derive(Debug)]
pub enum MapTree {
    Regular(RegularMap),
    Index(Vec<MapSection>),
    Hermes,
}

/// `sourcemap::DecodedMap`, carried opaquely.
#[verifier::external_type_specification]
#[verifier::external_body]
pub struct ExDecodedMap(sourcemap::DecodedMap);

/// `sourcemap::SourceMap`, carried opaquely.
#[verifier::external_type_specification]
#[verifier::external_body]
pub struct ExSourceMap(sourcemap::SourceMap);

/// `sourcemap::Error`, carried opaquely.
#[verifier::external_type_specification]
#[verifier::external_body]
pub struct ExSourceMapError(sourcemap::Error);

/// What `sourcemap::decode_slice` decodes from these bytes, `None` where it fails.
pub uninterp spec fn decoded_source_map(data: Seq<u8>) -> Option<MapTree>;

/// `sourcemap::decode_slice`, with the decoded map converted one for one into
/// a `MapTree`. The contract only names the result: it is a function of the
/// bytes, and an error says nothing more than that decoding failed.
#[verifier::external_body]
pub(crate) fn decode_source_map(data: &[u8]) -> (r: Result<MapTree, sourcemap::Error>)
    ensures
        match r {
            Ok(m) => decoded_source_map(data@) == Some(m),
            Err(_) => decoded_source_map(data@) is None,
        },
{
    sourcemap::decode_slice(data).map(|d| tree_of(&d))
}

/// Converts a `sourcemap::DecodedMap` variant by variant, sections with their
/// offsets and embedded maps; nothing is claimed of it beyond what
/// `decode_source_map` names.
#[verifier::external_body]
fn tree_of(d: &sourcemap::DecodedMap) -> MapTree {
    match d {
        sourcemap::DecodedMap::Regular(m) => MapTree::Regular(regular_of(m)),
        sourcemap::DecodedMap::Index(index) => MapTree::Index(index.sections().map(|s| MapSection {
            line: s.get_offset().0,
            column: s.get_offset().1,
            map: s.get_sourcemap().map(|m| Box::new(tree_of(m))),
        }).collect()),
        sourcemap::DecodedMap::Hermes(_) => MapTree::Hermes,
    }
}

/// Copies a `sourcemap::SourceMap`'s sources, contents and tokens; nothing is
/// claimed of it beyond what `decode_source_map` names.
#[verifier::external_body]
fn regular_of(m: &sourcemap::SourceMap) -> RegularMap {
    let n = m.get_source_count();
    RegularMap {
        sources: (0..n).map(|i| m.get_source(i).map(String::from)).collect(),
        contents: (0..n).map(|i| m.get_source_contents(i).map(String::from)).collect(),
        tokens: m.tokens().map(|t| MapToken {
            dst_line: t.get_dst_line(),
            dst_col: t.get_dst_col(),
            src_id: t.get_src_id(),
            src_line: t.get_src_line(),
            src_col: t.get_src_col(),
            has_source: t.get_source().is_some(),
        }).collect(),
    }
}

} // verus!
