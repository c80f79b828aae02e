//! The raw per-tag records as the data-acquisition collaborator delivers
//! them, already decoded from the wire into plain values: timestamps as
//! `i64` instants, float values as IEEE-754 bit patterns, mappings as pair
//! lists. The serving layer converts its calendar and JSON types into these
//! at the boundary.

use vstd::prelude::*;

verus! {

/// A raw sample value as delivered: the wire shape is untagged, but the
/// decoding collaborator resolves it to exactly one of these before it
/// reaches the core.
#[derive(Debug)]
pub enum TagValue {
    Integer(i32),
    Float(u64),
    Text(String),
}

/// Raw tag metadata. `uom` is a single mapping that encodes either a unit
/// of measure (one entry) or a discrete state labelling (several entries).
#[derive(Debug)]
pub struct Tag {
    pub name: String,
    pub description: Option<String>,
    pub format: Option<String>,
    pub uom: Option<Vec<(i32, String)>>,
    pub fields: Option<Vec<(String, String)>>,
    pub data_type: Option<String>,
}

/// One raw observed sample: instant, optional value, raw quality code.
#[derive(Debug)]
pub struct TagData {
    pub timestamp: i64,
    pub value: Option<TagValue>,
    pub quality: i16,
}

/// One tag's metadata together with its raw samples, ordered by arrival.
#[derive(Debug)]
pub struct TagItem {
    pub tag: Tag,
    pub data: Vec<TagData>,
}

/// Everything one retrieval delivered: the covered time range and the raw
/// per-tag records.
#[derive(Debug)]
pub struct GetDataResponse {
    pub start: i64,
    pub end: i64,
    pub tags: Vec<TagItem>,
}

} // verus!
