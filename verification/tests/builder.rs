use roadgraph::Graph;
use roadgraph::GraphError;
use roadgraph::LinkRecord;

fn rec(start: &str, end: &str, linestring: &str, reference: &str) -> LinkRecord {
    LinkRecord {
        startnode: start.to_string(),
        endnode: end.to_string(),
        linestring: linestring.to_string(),
        reference: reference.to_string(),
    }
}

#[test]
fn one_record_builds_two_nodes_and_one_link() {
    let mut g = Graph::new();
    g.add_record(&rec("A", "B", "LINESTRING (1 2, 3 4)", "L1")).unwrap();
    assert_eq!(g.nodes.len(), 2);
    assert_eq!(g.links.len(), 1);
    assert_eq!(g.nodes[0].id, "A");
    assert_eq!(g.nodes[1].id, "B");
    assert_eq!(g.nodes[0].coordinate.e, "1");
    assert_eq!(g.nodes[1].coordinate.e, "3");
    assert_eq!(g.nodes[0].outgoing_links, vec!["L1".to_string()]);
    assert!(g.nodes[0].incoming_links.is_empty());
    assert_eq!(g.nodes[1].incoming_links, vec!["L1".to_string()]);
    assert_eq!(g.links[0].id, "L1");
    assert_eq!(g.links[0].start, "A");
    assert_eq!(g.links[0].end, "B");
    assert_eq!(g.links[0].coordinates.len(), 2);
}

#[test]
fn inserting_the_same_record_twice_changes_nothing() {
    let r = rec("A", "B", "LINESTRING (1 2, 3 4)", "ref-1");
    let mut g = Graph::new();
    g.add_record(&r).unwrap();
    g.add_record(&r).unwrap();
    assert_eq!(g.links.len(), 1);
    assert_eq!(g.nodes.len(), 2);
    assert_eq!(g.nodes[0].outgoing_links.len(), 1);
    assert_eq!(g.nodes[1].incoming_links.len(), 1);
}

#[test]
fn duplicate_reference_keeps_the_first_geometry() {
    let mut g = Graph::new();
    g.add_record(&rec("A", "B", "LINESTRING (1 2, 3 4)", "ref-1")).unwrap();
    g.add_record(&rec("C", "D", "LINESTRING (5 6, 7 8)", "ref-1")).unwrap();
    assert_eq!(g.links.len(), 1);
    assert_eq!(g.links[0].coordinates[0].e, "1");
    assert_eq!(g.links[0].coordinates[1].e, "3");
    assert_eq!(g.links[0].start, "A");
    // the second record created nothing at all
    assert_eq!(g.nodes.len(), 2);
}

#[test]
fn node_coordinates_are_fixed_at_creation() {
    let mut g = Graph::new();
    g.add_record(&rec("A", "B", "LINESTRING (1 2, 3 4)", "L1")).unwrap();
    g.add_record(&rec("A", "B", "LINESTRING (9 9, 8 8)", "L2")).unwrap();
    // the first occurrence of each node wins
    assert_eq!(g.nodes[0].coordinate.e, "1");
    assert_eq!(g.nodes[1].coordinate.e, "3");
    assert_eq!(g.nodes[0].outgoing_links.len(), 2);
}

#[test]
fn every_link_endpoint_resolves_to_a_node() {
    let mut g = Graph::new();
    g.add_record(&rec("A", "B", "LINESTRING (1 2, 3 4)", "L1")).unwrap();
    g.add_record(&rec("B", "C", "LINESTRING (3 4, 5 6)", "L2")).unwrap();
    g.add_record(&rec("C", "A", "LINESTRING (5 6, 1 2)", "L3")).unwrap();
    for link in &g.links {
        assert!(g.find_node(&link.start).is_some());
        assert!(g.find_node(&link.end).is_some());
    }
}

#[test]
fn every_adjacency_entry_resolves_to_a_matching_link() {
    let mut g = Graph::new();
    g.add_record(&rec("A", "B", "LINESTRING (1 2, 3 4)", "L1")).unwrap();
    g.add_record(&rec("B", "C", "LINESTRING (3 4, 5 6)", "L2")).unwrap();
    g.add_record(&rec("A", "C", "LINESTRING (1 2, 5 6)", "L3")).unwrap();
    for node in &g.nodes {
        for r in &node.outgoing_links {
            let j = g.find_link(r).unwrap();
            assert_eq!(g.links[j].start, node.id);
        }
        for r in &node.incoming_links {
            let j = g.find_link(r).unwrap();
            assert_eq!(g.links[j].end, node.id);
        }
    }
}

#[test]
fn malformed_linestring_aborts_ingestion() {
    let mut g = Graph::new();
    let e = g.add_record(&rec("A", "B", "LINESTRING (1 2, 3)", "L1")).unwrap_err();
    assert_eq!(e, GraphError::MalformedToken);
    assert_eq!(g.nodes.len(), 0);
    assert_eq!(g.links.len(), 0);
}

#[test]
fn add_records_ingests_in_order_and_stops_on_the_first_failure() {
    let mut g = Graph::new();
    let records = vec![
        rec("A", "B", "LINESTRING (1 2, 3 4)", "L1"),
        rec("B", "C", "bad", "L2"),
        rec("C", "D", "LINESTRING (5 6, 7 8)", "L3"),
    ];
    let e = g.add_records(&records).unwrap_err();
    assert_eq!(e, GraphError::MissingPrefix);
    // the first record went in, the third never did
    assert_eq!(g.links.len(), 1);
    assert!(g.find_link(&"L3".to_string()).is_none());
}

#[test]
fn self_loop_record_builds_a_single_node() {
    let mut g = Graph::new();
    g.add_record(&rec("A", "A", "LINESTRING (1 2, 1 2)", "L1")).unwrap();
    assert_eq!(g.nodes.len(), 1);
    assert_eq!(g.nodes[0].outgoing_links.len(), 1);
    assert_eq!(g.nodes[0].incoming_links.len(), 1);
}
