use roadgraph::Coordinate;
use roadgraph::Graph;
use roadgraph::LinkRecord;
use roadgraph::render_step;

fn rec(start: &str, end: &str, linestring: &str, reference: &str) -> LinkRecord {
    LinkRecord {
        startnode: start.to_string(),
        endnode: end.to_string(),
        linestring: linestring.to_string(),
        reference: reference.to_string(),
    }
}

#[test]
fn coordinate_line_pads_both_positions_to_sixteen() {
    let c = Coordinate::new("1".to_string(), "2".to_string(), "N/A".to_string());
    assert_eq!(c.render(), format!("{:<16}\t{:<16}\t{}", "1", "2", "N/A"));
}

#[test]
fn long_components_are_not_truncated() {
    let c = Coordinate::new(
        "12345678901234567890".to_string(),
        "2".to_string(),
        "997.4".to_string(),
    );
    assert_eq!(
        c.render(),
        format!("{:<16}\t{:<16}\t{}", "12345678901234567890", "2", "997.4")
    );
}

#[test]
fn coordinates_block_has_one_line_per_point_and_a_blank_line() {
    let mut g = Graph::new();
    g.add_record(&rec("A", "B", "LINESTRING Z (1 2 3, 4 5 6)", "L1")).unwrap();
    let expected = format!(
        "{:<16}\t{:<16}\t{}\n{:<16}\t{:<16}\t{}\n\n",
        "1", "2", "3", "4", "5", "6"
    );
    assert_eq!(g.links[0].print_coordinates(), expected);
}

#[test]
fn reversed_coordinates_come_out_back_to_front() {
    let mut g = Graph::new();
    g.add_record(&rec("A", "B", "LINESTRING Z (1 2 3, 4 5 6)", "L1")).unwrap();
    let expected = format!(
        "{:<16}\t{:<16}\t{}\n{:<16}\t{:<16}\t{}\n\n",
        "4", "5", "6", "1", "2", "3"
    );
    assert_eq!(g.links[0].print_coordinates_reversed(), expected);
}

#[test]
fn adjacency_lines_join_references_with_commas() {
    let mut g = Graph::new();
    g.add_record(&rec("A", "B", "LINESTRING (1 2, 3 4)", "L1")).unwrap();
    g.add_record(&rec("A", "C", "LINESTRING (1 2, 5 6)", "L2")).unwrap();
    let a = &g.nodes[0];
    assert_eq!(a.print_outgoing_links(&g.links), "L1, L2, ");
    assert_eq!(a.print_incoming_links(&g.links), "");
    assert_eq!(
        a.print_links_to(&g.links),
        "Incoming links: \nOutgoing links: L1, L2, \n"
    );
}

#[test]
fn link_block_lists_both_endpoints_and_the_geometry() {
    let mut g = Graph::new();
    g.add_record(&rec("A", "B", "LINESTRING (1 2, 3 4)", "L1")).unwrap();
    let expected = format!(
        "Link L1:\n\nStartnode: A\nIncoming links: \nOutgoing links: L1, \n\nEndnode: B\nIncoming links: L1, \nOutgoing links: \n\nCoordinates:\n{:<16}\t{:<16}\t{}\n{:<16}\t{:<16}\t{}\n\n\n\n",
        "1", "2", "N/A", "3", "4", "N/A"
    );
    assert_eq!(g.links[0].print(&g.nodes, &g.links), expected);
    assert_eq!(g.print(), expected);
}

#[test]
fn graph_print_concatenates_link_blocks_in_insertion_order() {
    let mut g = Graph::new();
    g.add_record(&rec("A", "B", "LINESTRING (1 2, 3 4)", "L1")).unwrap();
    g.add_record(&rec("B", "C", "LINESTRING (3 4, 5 6)", "L2")).unwrap();
    let both = g.print();
    let first = g.links[0].print(&g.nodes, &g.links);
    let second = g.links[1].print(&g.nodes, &g.links);
    assert_eq!(both, format!("{}{}", first, second));
    assert!(both.starts_with("Link L1:\n"));
}

#[test]
fn get_id_returns_the_reference() {
    let mut g = Graph::new();
    g.add_record(&rec("A", "B", "LINESTRING (1 2, 3 4)", "L1")).unwrap();
    assert_eq!(g.links[0].get_id(), "L1");
}

#[test]
fn forward_step_line_keeps_the_recorded_orientation() {
    let g = {
        let mut g = Graph::new();
        g.add_record(&rec("A", "B", "LINESTRING (1 2, 3 4)", "L1")).unwrap();
        g.add_record(&rec("B", "C", "LINESTRING (3 4, 5 6)", "L2")).unwrap();
        g
    };
    let steps = g.breadth_first_from(0);
    let line = render_step(&steps[0]);
    assert_eq!(line, format!("{:<10}\t------> \t{:<30}\t------> \t{}", "A", "L1", "B"));
}

#[test]
fn backward_step_line_points_the_arrows_left() {
    let g = {
        let mut g = Graph::new();
        g.add_record(&rec("A", "B", "LINESTRING (1 2, 3 4)", "L1")).unwrap();
        g.add_record(&rec("B", "C", "LINESTRING (3 4, 5 6)", "L2")).unwrap();
        g
    };
    let steps = g.breadth_first_from(1);
    // the second step walks L1 against its direction
    let line = render_step(&steps[1]);
    assert_eq!(
        line,
        format!("{:<10}\t<------    \t{:<30}\t<------    \t{}", "B", "L1", "A")
    );
}
