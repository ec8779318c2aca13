use vstd::prelude::*;

pub mod accounting;
pub mod analysis;
pub mod annotations;
pub mod analyze;
pub mod attribution;
pub mod baseline;
pub mod bundle;
pub mod coverage;
pub mod decoding;
pub mod input;
pub mod evidence;
pub mod graph;
pub mod json;
pub mod laws;
pub mod maps;
pub mod metadata;
pub mod source_map;
pub mod recommendations;
pub mod report;
pub mod scenario;
pub mod selection;
pub mod sort;
pub mod source_path;
pub mod strings;
pub mod summary;
pub mod text;

verus! {

} // verus!
