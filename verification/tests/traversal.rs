use roadgraph::Graph;
use roadgraph::GraphError;
use roadgraph::LinkRecord;
use roadgraph::VisitedSet;

fn rec(start: &str, end: &str, linestring: &str, reference: &str) -> LinkRecord {
    LinkRecord {
        startnode: start.to_string(),
        endnode: end.to_string(),
        linestring: linestring.to_string(),
        reference: reference.to_string(),
    }
}

fn chain() -> Graph {
    let mut g = Graph::new();
    g.add_record(&rec("A", "B", "LINESTRING (1 2, 3 4)", "L1")).unwrap();
    g.add_record(&rec("B", "C", "LINESTRING (3 4, 5 6)", "L2")).unwrap();
    g
}

#[test]
fn visit_marks_a_node_once() {
    let g = chain();
    let mut visited = VisitedSet::new();
    g.nodes[0].visit(&mut visited);
    g.nodes[0].visit(&mut visited);
    assert_eq!(visited.ids, vec!["A".to_string()]);
    assert!(visited.contains(&"A".to_string()));
    assert!(!visited.contains(&"B".to_string()));
}

#[test]
fn explore_links_enqueues_unvisited_far_endpoints() {
    let g = chain();
    let mut visited = VisitedSet::new();
    let mut queue = Vec::new();
    // the middle node reaches C over its outgoing link and A over its
    // incoming one
    g.nodes[1].explore_links(&mut visited, &g.links, &mut queue);
    assert_eq!(queue.len(), 2);
    assert_eq!(queue[0].link, "L2");
    assert_eq!(queue[1].link, "L1");
    assert!(visited.contains(&"A".to_string()));
    assert!(visited.contains(&"B".to_string()));
    assert!(visited.contains(&"C".to_string()));
    // a second expansion of the same node adds nothing
    g.nodes[1].explore_links(&mut visited, &g.links, &mut queue);
    assert_eq!(queue.len(), 2);
    assert_eq!(visited.ids.len(), 3);
}

#[test]
fn chain_walk_from_the_middle_visits_both_links_exactly_once() {
    let g = chain();
    // node B sits at position 1
    assert_eq!(g.nodes[1].id, "B");
    let steps = g.breadth_first_from(1);
    assert_eq!(steps.len(), 2);
    assert_eq!(steps[0].from, "B");
    assert_eq!(steps[0].link, "L2");
    assert_eq!(steps[0].to, "C");
    assert!(steps[0].forward);
    assert_eq!(steps[1].from, "B");
    assert_eq!(steps[1].link, "L1");
    assert_eq!(steps[1].to, "A");
    assert!(!steps[1].forward);
}

#[test]
fn chain_walk_from_the_start_goes_forward_twice() {
    let g = chain();
    let steps = g.breadth_first_from(0);
    assert_eq!(steps.len(), 2);
    assert_eq!(steps[0].from, "A");
    assert_eq!(steps[0].link, "L1");
    assert_eq!(steps[0].to, "B");
    assert!(steps[0].forward);
    assert_eq!(steps[1].from, "B");
    assert_eq!(steps[1].link, "L2");
    assert_eq!(steps[1].to, "C");
}

#[test]
fn no_node_is_reached_twice() {
    let mut g = Graph::new();
    g.add_record(&rec("A", "B", "LINESTRING (1 2, 3 4)", "L1")).unwrap();
    g.add_record(&rec("B", "C", "LINESTRING (3 4, 5 6)", "L2")).unwrap();
    g.add_record(&rec("C", "A", "LINESTRING (5 6, 1 2)", "L3")).unwrap();
    g.add_record(&rec("A", "C", "LINESTRING (1 2, 5 6)", "L4")).unwrap();
    for start in 0..g.nodes.len() {
        let steps = g.breadth_first_from(start);
        assert!(steps.len() <= g.nodes.len());
        for i in 0..steps.len() {
            for j in 0..i {
                assert_ne!(steps[i].to, steps[j].to);
            }
        }
    }
}

#[test]
fn random_walk_on_a_chain_reports_two_steps() {
    let g = chain();
    let steps = g.breadth_first().unwrap();
    assert_eq!(steps.len(), 2);
    assert_ne!(steps[0].to, steps[1].to);
}

#[test]
fn empty_graph_fails_the_traversal_precondition() {
    let g = Graph::new();
    assert_eq!(g.breadth_first().unwrap_err(), GraphError::TooFewNodes);
}

#[test]
fn single_node_graph_fails_the_traversal_precondition() {
    let mut g = Graph::new();
    g.add_record(&rec("A", "A", "LINESTRING (1 2, 1 2)", "L1")).unwrap();
    assert_eq!(g.nodes.len(), 1);
    assert_eq!(g.breadth_first().unwrap_err(), GraphError::TooFewNodes);
}
