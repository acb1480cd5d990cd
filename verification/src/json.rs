use vstd::prelude::*;

use crate::errors::GraphError;
use crate::graph::Graph;
use crate::graph::GraphModel;
use crate::graph::LinkRecord;

verus! {

#[verifier::external_type_specification]
#[verifier::external_body]
pub struct ExValue(serde_json::Value);

#[verifier::external_type_specification]
#[verifier::external_body]
pub struct ExJsonError(serde_json::Error);

/// Relies on serde_json::from_str::<Value>: parse a text as a JSON document.
#[verifier::external_body]
fn json_from_str(text: &str) -> (r: Result<serde_json::Value, serde_json::Error>) {
    serde_json::from_str(text)
}

/// Relies on serde_json::Value::get: the member of an object under a key,
/// if the value is an object with that member.
#[verifier::external_body]
fn json_get<'a>(v: &'a serde_json::Value, key: &str) -> (r: Option<&'a serde_json::Value>) {
    v.get(key)
}

/// Relies on serde_json::Value::as_str: the text of a JSON string value.
#[verifier::external_body]
fn json_as_str(v: &serde_json::Value) -> (r: Option<String>) {
    match v.as_str() {
        Some(s) => Some(s.to_string()),
        None => None,
    }
}

/// Relies on serde_json::Value::as_array: the elements of a JSON array
/// value.
#[verifier::external_body]
fn json_as_array(v: &serde_json::Value) -> (r: Option<Vec<serde_json::Value>>) {
    match v.as_array() {
        Some(a) => Some(a.clone()),
        None => None,
    }
}

/// Parse a document text into a JSON value, mapping any parse failure to
/// the library's error.
pub fn parse_document(text: &str) -> (r: Result<serde_json::Value, GraphError>)
    ensures
        r is Err ==> r == Err::<serde_json::Value, GraphError>(GraphError::InvalidJson),
{
    match json_from_str(text) {
        Ok(v) => Ok(v),
        Err(_) => Err(GraphError::InvalidJson),
    }
}

/// The string member of an object under a key, if present and a string.
fn get_string_field(v: &serde_json::Value, key: &str) -> (r: Option<String>) {
    match json_get(v, key) {
        Some(x) => json_as_str(x),
        None => None,
    }
}

/// The string member under a key of the object member under another key.
fn get_nested_string_field(v: &serde_json::Value, outer: &str, inner: &str) -> (r: Option<
    String,
>) {
    match json_get(v, outer) {
        Some(x) => get_string_field(x, inner),
        None => None,
    }
}

/// Read the four required fields of one link record, failing when any is
/// absent or not a string.
pub fn extract_record(v: &serde_json::Value) -> (r: Result<LinkRecord, GraphError>)
    ensures
        r is Err ==> r == Err::<LinkRecord, GraphError>(GraphError::MissingField),
{
    let startnode = match get_string_field(v, "startnode") {
        Some(s) => s,
        None => {
            return Err(GraphError::MissingField);
        },
    };
    let endnode = match get_string_field(v, "sluttnode") {
        Some(s) => s,
        None => {
            return Err(GraphError::MissingField);
        },
    };
    let linestring = match get_nested_string_field(v, "geometri", "wkt") {
        Some(s) => s,
        None => {
            return Err(GraphError::MissingField);
        },
    };
    let reference = match get_nested_string_field(v, "vegreferanse", "kortform") {
        Some(s) => s,
        None => {
            return Err(GraphError::MissingField);
        },
    };
    Ok(LinkRecord { startnode, endnode, linestring, reference })
}

/// Read every link record of the document's top-level array, failing when
/// the array is absent or any record lacks a required field.
pub fn extract_records(doc: &serde_json::Value) -> (r: Result<Vec<LinkRecord>, GraphError>)
    ensures
        r matches Err(e) ==> (e == GraphError::MissingObjects || e == GraphError::MissingField),
{
    let arr = match json_get(doc, "objekter") {
        Some(a) => a,
        None => {
            return Err(GraphError::MissingObjects);
        },
    };
    let items = match json_as_array(arr) {
        Some(a) => a,
        None => {
            return Err(GraphError::MissingObjects);
        },
    };
    let mut records: Vec<LinkRecord> = Vec::new();
    let mut i: usize = 0;
    while i < items.len()
        decreases items@.len() - i,
    {
        match extract_record(&items[i]) {
            Ok(rec) => records.push(rec),
            Err(e) => {
                return Err(e);
            },
        }
        i += 1;
    }
    Ok(records)
}

impl Graph {
    /// Ingest every link record of a parsed JSON document.
    ///
    /// Fails, leaving the graph unchanged, when the document lacks the
    /// top-level array or a record lacks a required field; fails at the
    /// first record whose linestring does not parse. The graph stays
    /// well-formed in every case.
    pub fn add_links(&mut self, doc: &serde_json::Value) -> (r: Result<(), GraphError>)
        requires
            old(self)@.wf(),
        ensures
            final(self)@.wf(),
            r matches Err(e) && (e == GraphError::MissingObjects || e == GraphError::MissingField)
                ==> final(self)@ == old(self)@,
    {
        let records = match extract_records(doc) {
            Ok(r) => r,
            Err(e) => {
                return Err(e);
            },
        };
        proof {
            crate::graph::lemma_with_records_err(
                self@,
                records@.map_values(|x: LinkRecord| x@),
            );
        }
        self.add_records(&records)
    }
}

} // verus!
