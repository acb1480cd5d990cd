use roadgraph::create_coordinates;
use roadgraph::create_endcoordinate;
use roadgraph::create_startcoordinate;
use roadgraph::GraphError;

#[test]
fn two_point_2d_linestring_gives_two_points_with_sentinel_height() {
    let coords = create_coordinates("LINESTRING (1 2, 3 4)").unwrap();
    assert_eq!(coords.len(), 2);
    assert_eq!(coords[0].e, "1");
    assert_eq!(coords[0].n, "2");
    assert_eq!(coords[0].h, "N/A");
    assert_eq!(coords[1].e, "3");
    assert_eq!(coords[1].n, "4");
    assert_eq!(coords[1].h, "N/A");
}

#[test]
fn three_point_3d_linestring_takes_third_component_as_height() {
    let coords = create_coordinates("LINESTRING Z (1 2 3, 4 5 6, 7 8 9)").unwrap();
    assert_eq!(coords.len(), 3);
    assert_eq!(coords[0].h, "3");
    assert_eq!(coords[1].h, "6");
    assert_eq!(coords[2].h, "9");
    assert_eq!(coords[2].e, "7");
    assert_eq!(coords[2].n, "8");
}

#[test]
fn numeric_text_is_preserved_exactly() {
    let coords =
        create_coordinates("LINESTRING Z (266711.96 7037272.23 997.4, 266738.27 7037300.26 997.9)")
            .unwrap();
    assert_eq!(coords.len(), 2);
    assert_eq!(coords[0].e, "266711.96");
    assert_eq!(coords[0].n, "7037272.23");
    assert_eq!(coords[0].h, "997.4");
    assert_eq!(coords[1].h, "997.9");
}

#[test]
fn start_and_end_coordinate_are_first_and_last() {
    let s = "LINESTRING Z (1 2 3, 4 5 6, 7 8 9)";
    let first = create_startcoordinate(s).unwrap();
    let last = create_endcoordinate(s).unwrap();
    assert_eq!(first.e, "1");
    assert_eq!(first.n, "2");
    assert_eq!(last.e, "7");
    assert_eq!(last.n, "8");
}

#[test]
fn unknown_prefix_is_rejected() {
    assert_eq!(create_coordinates("POINT (1 2)").unwrap_err(), GraphError::MissingPrefix);
    assert_eq!(create_coordinates("").unwrap_err(), GraphError::MissingPrefix);
    assert_eq!(create_coordinates("LINESTRIN").unwrap_err(), GraphError::MissingPrefix);
}

#[test]
fn prefix_without_body_is_rejected() {
    assert_eq!(create_coordinates("LINESTRING (").unwrap_err(), GraphError::MissingPrefix);
    assert_eq!(create_coordinates("LINESTRING Z (").unwrap_err(), GraphError::MissingPrefix);
}

#[test]
fn token_with_one_component_is_rejected() {
    assert_eq!(
        create_coordinates("LINESTRING (1 2, 3)").unwrap_err(),
        GraphError::MalformedToken
    );
}

#[test]
fn token_with_four_components_is_rejected() {
    assert_eq!(
        create_coordinates("LINESTRING (1 2 3 4)").unwrap_err(),
        GraphError::MalformedToken
    );
}

#[test]
fn start_coordinate_fails_on_malformed_input() {
    assert_eq!(
        create_startcoordinate("LINESTRING (1 2, 3)").unwrap_err(),
        GraphError::MalformedToken
    );
    assert_eq!(create_endcoordinate("nothing").unwrap_err(), GraphError::MissingPrefix);
}
