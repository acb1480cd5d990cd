use vstd::prelude::*;

mod errors;
mod graph;
mod json;
mod render;
mod traverse;
mod wkt;

pub use errors::GraphError;
pub use graph::Graph;
pub use graph::LinkRecord;
pub use graph::Node;
pub use graph::RoadLink;
pub use json::extract_record;
pub use json::extract_records;
pub use json::parse_document;
pub use render::render_step;
pub use traverse::QueueEntry;
pub use traverse::Side;
pub use traverse::TraversalStep;
pub use traverse::VisitedSet;
pub use wkt::Coordinate;
pub use wkt::create_coordinates;
pub use wkt::create_endcoordinate;
pub use wkt::create_startcoordinate;

verus! {

} // verus!
