use roadgraph::extract_record;
use roadgraph::extract_records;
use roadgraph::parse_document;
use roadgraph::Graph;
use roadgraph::GraphError;

const DOC: &str = r#"{
  "objekter": [
    {
      "startnode": "A",
      "sluttnode": "B",
      "geometri": { "wkt": "LINESTRING (1 2, 3 4)" },
      "vegreferanse": { "kortform": "L1" }
    },
    {
      "startnode": "B",
      "sluttnode": "C",
      "geometri": { "wkt": "LINESTRING Z (3 4 9, 5 6 9)" },
      "vegreferanse": { "kortform": "L2" }
    }
  ]
}"#;

#[test]
fn invalid_text_is_rejected_as_json() {
    assert_eq!(parse_document("not json").unwrap_err(), GraphError::InvalidJson);
}

#[test]
fn record_fields_are_read_from_the_document() {
    let doc = parse_document(DOC).unwrap();
    let records = extract_records(&doc).unwrap();
    assert_eq!(records.len(), 2);
    assert_eq!(records[0].startnode, "A");
    assert_eq!(records[0].endnode, "B");
    assert_eq!(records[0].linestring, "LINESTRING (1 2, 3 4)");
    assert_eq!(records[0].reference, "L1");
    assert_eq!(records[1].reference, "L2");
}

#[test]
fn a_document_without_the_array_is_rejected() {
    let doc = parse_document("{\"other\": 1}").unwrap();
    assert_eq!(extract_records(&doc).unwrap_err(), GraphError::MissingObjects);
    let doc = parse_document("{\"objekter\": 3}").unwrap();
    assert_eq!(extract_records(&doc).unwrap_err(), GraphError::MissingObjects);
}

#[test]
fn a_record_missing_a_field_is_rejected() {
    let doc = parse_document(
        "{\"objekter\": [ {\"startnode\": \"A\", \"sluttnode\": \"B\"} ]}",
    )
    .unwrap();
    assert_eq!(extract_records(&doc).unwrap_err(), GraphError::MissingField);
}

#[test]
fn a_record_with_a_non_string_field_is_rejected() {
    let doc = parse_document(
        "{\"objekter\": [ {\"startnode\": 7, \"sluttnode\": \"B\", \"geometri\": {\"wkt\": \"x\"}, \"vegreferanse\": {\"kortform\": \"L1\"} } ]}",
    )
    .unwrap();
    let one = parse_document("{\"startnode\": 7}").unwrap();
    assert_eq!(extract_record(&one).unwrap_err(), GraphError::MissingField);
    assert_eq!(extract_records(&doc).unwrap_err(), GraphError::MissingField);
}

#[test]
fn a_full_document_builds_the_graph() {
    let doc = parse_document(DOC).unwrap();
    let mut g = Graph::new();
    g.add_links(&doc).unwrap();
    assert_eq!(g.nodes.len(), 3);
    assert_eq!(g.links.len(), 2);
    assert_eq!(g.links[0].id, "L1");
    assert_eq!(g.links[1].id, "L2");
    assert_eq!(g.links[1].coordinates[0].h, "9");
    let steps = g.breadth_first().unwrap();
    assert_eq!(steps.len(), 2);
}

#[test]
fn ingestion_failure_surfaces_the_parse_error() {
    let doc = parse_document(
        "{\"objekter\": [ {\"startnode\": \"A\", \"sluttnode\": \"B\", \"geometri\": {\"wkt\": \"bad\"}, \"vegreferanse\": {\"kortform\": \"L1\"} } ]}",
    )
    .unwrap();
    let mut g = Graph::new();
    assert_eq!(g.add_links(&doc).unwrap_err(), GraphError::MissingPrefix);
}
