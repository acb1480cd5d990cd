use vstd::prelude::*;

use crate::errors::GraphError;
use crate::wkt::Coordinate;
use crate::wkt::CoordinateModel;
use crate::wkt::create_coordinates;
use crate::wkt::lemma_parse_nonempty;
use crate::wkt::parse_linestring;

verus! {

/// An intersection or endpoint of the road network, created lazily by the
/// builder; its identifier and coordinate are fixed at creation.
pub struct Node {
    pub id: String,
    pub coordinate: Coordinate,
    pub outgoing_links: Vec<String>,
    pub incoming_links: Vec<String>,
}

/// A road segment between two nodes, with its full geometry.
pub struct RoadLink {
    pub id: String,
    pub start: String,
    pub end: String,
    pub coordinates: Vec<Coordinate>,
}

/// A directed multigraph of road links between intersections, deduplicated
/// by node identifier and by link reference.
pub struct Graph {
    pub nodes: Vec<Node>,
    pub links: Vec<RoadLink>,
}

/// One ingested link record: the four required fields of a source document
/// record, as plain text.
#[derive(Debug)]
pub struct LinkRecord {
    pub startnode: String,
    pub endnode: String,
    pub linestring: String,
    pub reference: String,
}

#[verifier::ext_equal]
pub ghost struct NodeModel {
    pub id: Seq<char>,
    pub coordinate: CoordinateModel,
    pub outgoing: Seq<Seq<char>>,
    pub incoming: Seq<Seq<char>>,
}

#[verifier::ext_equal]
pub ghost struct LinkModel {
    pub id: Seq<char>,
    pub start: Seq<char>,
    pub end: Seq<char>,
    pub coordinates: Seq<CoordinateModel>,
}

#[verifier::ext_equal]
pub ghost struct GraphModel {
    pub nodes: Seq<NodeModel>,
    pub links: Seq<LinkModel>,
}

#[verifier::ext_equal]
pub ghost struct RecordModel {
    pub startnode: Seq<char>,
    pub endnode: Seq<char>,
    pub linestring: Seq<char>,
    pub reference: Seq<char>,
}

impl View for Node {
    type V = NodeModel;

    open spec fn view(&self) -> NodeModel {
        NodeModel {
            id: self.id@,
            coordinate: self.coordinate@,
            outgoing: self.outgoing_links@.map_values(|s: String| s@),
            incoming: self.incoming_links@.map_values(|s: String| s@),
        }
    }
}

impl View for RoadLink {
    type V = LinkModel;

    open spec fn view(&self) -> LinkModel {
        LinkModel {
            id: self.id@,
            start: self.start@,
            end: self.end@,
            coordinates: self.coordinates@.map_values(|c: Coordinate| c@),
        }
    }
}

impl View for Graph {
    type V = GraphModel;

    open spec fn view(&self) -> GraphModel {
        GraphModel {
            nodes: self.nodes@.map_values(|n: Node| n@),
            links: self.links@.map_values(|l: RoadLink| l@),
        }
    }
}

impl View for LinkRecord {
    type V = RecordModel;

    open spec fn view(&self) -> RecordModel {
        RecordModel {
            startnode: self.startnode@,
            endnode: self.endnode@,
            linestring: self.linestring@,
            reference: self.reference@,
        }
    }
}

impl GraphModel {
    /// Some node carries this identifier.
    pub open spec fn has_node(self, id: Seq<char>) -> bool {
        exists|i: int| 0 <= i < self.nodes.len() && (#[trigger] self.nodes[i]).id == id
    }

    /// The position of the node carrying this identifier; meaningful only
    /// under `has_node` and `nodes_unique`.
    pub open spec fn node_index_of(self, id: Seq<char>) -> int {
        choose|i: int| 0 <= i < self.nodes.len() && (#[trigger] self.nodes[i]).id == id
    }

    /// Some link carries this reference.
    pub open spec fn has_link(self, id: Seq<char>) -> bool {
        exists|i: int| 0 <= i < self.links.len() && (#[trigger] self.links[i]).id == id
    }

    /// The position of the link carrying this reference; meaningful only
    /// under `has_link` and `links_unique`.
    pub open spec fn link_index_of(self, id: Seq<char>) -> int {
        choose|i: int| 0 <= i < self.links.len() && (#[trigger] self.links[i]).id == id
    }

    /// Node identifiers are pairwise distinct.
    pub open spec fn nodes_unique(self) -> bool {
        forall|i: int, j: int|
            0 <= i < j < self.nodes.len() ==> (#[trigger] self.nodes[i]).id != (
            #[trigger] self.nodes[j]).id
    }

    /// Link references are pairwise distinct.
    pub open spec fn links_unique(self) -> bool {
        forall|i: int, j: int|
            0 <= i < j < self.links.len() ==> (#[trigger] self.links[i]).id != (
            #[trigger] self.links[j]).id
    }

    /// Every node identifier referenced by a link's start or end exists in
    /// the node mapping: no dangling references.
    pub open spec fn links_closed(self) -> bool {
        forall|i: int|
            0 <= i < self.links.len() ==> self.has_node((#[trigger] self.links[i]).start)
                && self.has_node(self.links[i].end)
    }

    /// Some link carries this reference and starts at this node.
    pub open spec fn link_with_start(self, r: Seq<char>, id: Seq<char>) -> bool {
        exists|j: int|
            0 <= j < self.links.len() && (#[trigger] self.links[j]).id == r
                && self.links[j].start == id
    }

    /// Some link carries this reference and ends at this node.
    pub open spec fn link_with_end(self, r: Seq<char>, id: Seq<char>) -> bool {
        exists|j: int|
            0 <= j < self.links.len() && (#[trigger] self.links[j]).id == r && self.links[j].end
                == id
    }

    /// Every entry of a node's outgoing list resolves to a link starting at
    /// that node, and every entry of its incoming list to a link ending
    /// there.
    pub open spec fn adjacency_consistent(self) -> bool {
        &&& forall|i: int, k: int|
            0 <= i < self.nodes.len() && 0 <= k < self.nodes[i].outgoing.len()
                ==> self.link_with_start(
                #[trigger] self.nodes[i].outgoing[k],
                self.nodes[i].id,
            )
        &&& forall|i: int, k: int|
            0 <= i < self.nodes.len() && 0 <= k < self.nodes[i].incoming.len()
                ==> self.link_with_end(#[trigger] self.nodes[i].incoming[k], self.nodes[i].id)
    }

    /// The well-formedness invariant that construction establishes and every
    /// mutation preserves.
    pub open spec fn wf(self) -> bool {
        &&& self.nodes_unique()
        &&& self.links_unique()
        &&& self.links_closed()
        &&& self.adjacency_consistent()
    }

    /// The graph with a node of this identifier present: unchanged if one
    /// exists, else extended with a fresh node at this coordinate.
    pub open spec fn with_node(self, id: Seq<char>, c: CoordinateModel) -> GraphModel {
        if self.has_node(id) {
            self
        } else {
            GraphModel {
                nodes: self.nodes.push(
                    NodeModel {
                        id,
                        coordinate: c,
                        outgoing: Seq::empty(),
                        incoming: Seq::empty(),
                    },
                ),
                links: self.links,
            }
        }
    }

    /// The graph with `r` appended to the outgoing list of the node
    /// carrying `id`.
    pub open spec fn with_outgoing(self, id: Seq<char>, r: Seq<char>) -> GraphModel
        recommends
            self.has_node(id),
    {
        let i = self.node_index_of(id);
        let n = self.nodes[i];
        GraphModel {
            nodes: self.nodes.update(i, NodeModel { outgoing: n.outgoing.push(r), ..n }),
            links: self.links,
        }
    }

    /// The graph with `r` appended to the incoming list of the node
    /// carrying `id`.
    pub open spec fn with_incoming(self, id: Seq<char>, r: Seq<char>) -> GraphModel
        recommends
            self.has_node(id),
    {
        let i = self.node_index_of(id);
        let n = self.nodes[i];
        GraphModel {
            nodes: self.nodes.update(i, NodeModel { incoming: n.incoming.push(r), ..n }),
            links: self.links,
        }
    }

    /// The graph with the record's link appended.
    pub open spec fn with_link(self, rec: RecordModel, cs: Seq<CoordinateModel>) -> GraphModel {
        GraphModel {
            nodes: self.nodes,
            links: self.links.push(
                LinkModel {
                    id: rec.reference,
                    start: rec.startnode,
                    end: rec.endnode,
                    coordinates: cs,
                },
            ),
        }
    }

    /// What ingesting one parsed record does: nothing for a duplicate
    /// reference; otherwise both endpoint nodes are ensured, their adjacency
    /// lists gain the reference, and the link is appended.
    pub open spec fn with_record(self, rec: RecordModel, cs: Seq<CoordinateModel>) -> GraphModel
        recommends
            cs.len() >= 1,
    {
        if self.has_link(rec.reference) {
            self
        } else {
            self.with_node(rec.startnode, cs.first()).with_outgoing(
                rec.startnode,
                rec.reference,
            ).with_node(rec.endnode, cs.last()).with_incoming(
                rec.endnode,
                rec.reference,
            ).with_link(rec, cs)
        }
    }

    /// What ingesting a sequence of records does, failing on the first
    /// record whose linestring does not parse.
    pub open spec fn with_records(self, recs: Seq<RecordModel>) -> Result<GraphModel, GraphError>
        decreases recs.len(),
    {
        if recs.len() == 0 {
            Ok(self)
        } else {
            match parse_linestring(recs[0].linestring) {
                Err(e) => Err(e),
                Ok(cs) => self.with_record(recs[0], cs).with_records(recs.skip(1)),
            }
        }
    }
}

/// Ingesting a record preserves well-formedness: node identifiers stay
/// pairwise distinct, link references stay pairwise distinct, every link's
/// endpoints exist as nodes, and every adjacency entry resolves to a link
/// with the matching endpoint.
pub proof fn lemma_with_record_wf(g: GraphModel, rec: RecordModel, cs: Seq<CoordinateModel>)
    requires
        g.wf(),
        cs.len() >= 1,
    ensures
        g.with_record(rec, cs).wf(),
{
    if !g.has_link(rec.reference) {
        let g1 = g.with_node(rec.startnode, cs.first());
        if !g.has_node(rec.startnode) {
            assert(g1.nodes[g.nodes.len() as int].id == rec.startnode);
        }
        assert(g1.has_node(rec.startnode));
        assert(g1.nodes_unique()) by {
            assert forall|i: int, j: int| 0 <= i < j < g1.nodes.len() implies (
            #[trigger] g1.nodes[i]).id != (#[trigger] g1.nodes[j]).id by {
                if j >= g.nodes.len() {
                    assert(g1.nodes[i] == g.nodes[i]);
                }
            }
        }
        let si = g1.node_index_of(rec.startnode);
        assert(0 <= si < g1.nodes.len() && g1.nodes[si].id == rec.startnode);
        let g2 = g1.with_outgoing(rec.startnode, rec.reference);
        assert(g2.nodes.len() == g1.nodes.len());
        assert(forall|i: int|
            0 <= i < g2.nodes.len() ==> (#[trigger] g2.nodes[i]).id == g1.nodes[i].id
                && g2.nodes[i].incoming == g1.nodes[i].incoming);
        let g3 = g2.with_node(rec.endnode, cs.last());
        if !g2.has_node(rec.endnode) {
            assert(g3.nodes[g2.nodes.len() as int].id == rec.endnode);
        }
        assert(g3.has_node(rec.endnode));
        assert(g3.nodes_unique()) by {
            assert forall|i: int, j: int| 0 <= i < j < g3.nodes.len() implies (
            #[trigger] g3.nodes[i]).id != (#[trigger] g3.nodes[j]).id by {
                if j >= g2.nodes.len() {
                    assert(g3.nodes[i].id == g1.nodes[i].id);
                    assert(!g2.has_node(rec.endnode));
                }
            }
        }
        let ei = g3.node_index_of(rec.endnode);
        assert(0 <= ei < g3.nodes.len() && g3.nodes[ei].id == rec.endnode);
        let g4 = g3.with_incoming(rec.endnode, rec.reference);
        assert(g4.nodes.len() == g3.nodes.len());
        assert(forall|i: int|
            0 <= i < g4.nodes.len() ==> (#[trigger] g4.nodes[i]).id == g3.nodes[i].id
                && g4.nodes[i].outgoing == g3.nodes[i].outgoing);
        let g5 = g4.with_link(rec, cs);
        let nl = g5.links.len() - 1;
        assert(g5.links[nl].id == rec.reference && g5.links[nl].start == rec.startnode
            && g5.links[nl].end == rec.endnode);

        assert(g5.nodes_unique()) by {
            assert forall|i: int, j: int| 0 <= i < j < g5.nodes.len() implies (
            #[trigger] g5.nodes[i]).id != (#[trigger] g5.nodes[j]).id by {
                assert(g5.nodes[i].id == g3.nodes[i].id && g5.nodes[j].id == g3.nodes[j].id);
            }
        }
        assert(g5.links_unique()) by {
            assert forall|i: int, j: int| 0 <= i < j < g5.links.len() implies (
            #[trigger] g5.links[i]).id != (#[trigger] g5.links[j]).id by {
                if j == nl {
                    assert(g5.links[i] == g.links[i]);
                }
            }
        }
        assert(g5.links_closed()) by {
            assert forall|i: int| 0 <= i < g5.links.len() implies g5.has_node(
                (#[trigger] g5.links[i]).start,
            ) && g5.has_node(g5.links[i].end) by {
                if i < g.links.len() {
                    assert(g5.links[i] == g.links[i]);
                    let ws = choose|w: int|
                        0 <= w < g.nodes.len() && (#[trigger] g.nodes[w]).id == g.links[i].start;
                    let we = choose|w: int|
                        0 <= w < g.nodes.len() && (#[trigger] g.nodes[w]).id == g.links[i].end;
                    assert(g.has_node(g.links[i].start) && g.has_node(g.links[i].end));
                    assert(g5.nodes[ws].id == g.nodes[ws].id);
                    assert(g5.nodes[we].id == g.nodes[we].id);
                } else {
                    assert(g5.nodes[si].id == rec.startnode);
                    assert(g5.nodes[ei].id == rec.endnode);
                }
            }
        }
        assert(g5.adjacency_consistent()) by {
            assert forall|i: int, k: int|
                0 <= i < g5.nodes.len() && 0 <= k < g5.nodes[i].outgoing.len() implies g5
                .link_with_start(#[trigger] g5.nodes[i].outgoing[k], g5.nodes[i].id) by {
                if i == si && k == g5.nodes[i].outgoing.len() - 1 {
                    assert(g5.nodes[i].outgoing[k] == rec.reference);
                    assert(g5.nodes[i].id == rec.startnode);
                    assert(g5.links[nl].id == rec.reference);
                } else {
                    // an entry that was already present in g
                    assert(i < g.nodes.len() && g5.nodes[i].outgoing[k] == g.nodes[i].outgoing[k]
                        && g5.nodes[i].id == g.nodes[i].id);
                    assert(g.link_with_start(g.nodes[i].outgoing[k], g.nodes[i].id));
                    let j = choose|j: int|
                        0 <= j < g.links.len() && (#[trigger] g.links[j]).id
                            == g.nodes[i].outgoing[k] && g.links[j].start == g.nodes[i].id;
                    assert(g5.links[j] == g.links[j]);
                }
            }
            assert forall|i: int, k: int|
                0 <= i < g5.nodes.len() && 0 <= k < g5.nodes[i].incoming.len() implies g5
                .link_with_end(#[trigger] g5.nodes[i].incoming[k], g5.nodes[i].id) by {
                if i == ei && k == g5.nodes[i].incoming.len() - 1 {
                    assert(g5.nodes[i].incoming[k] == rec.reference);
                    assert(g5.nodes[i].id == rec.endnode);
                    assert(g5.links[nl].id == rec.reference);
                } else {
                    assert(i < g.nodes.len() && g5.nodes[i].incoming[k] == g.nodes[i].incoming[k]
                        && g5.nodes[i].id == g.nodes[i].id);
                    assert(g.link_with_end(g.nodes[i].incoming[k], g.nodes[i].id));
                    let j = choose|j: int|
                        0 <= j < g.links.len() && (#[trigger] g.links[j]).id
                            == g.nodes[i].incoming[k] && g.links[j].end == g.nodes[i].id;
                    assert(g5.links[j] == g.links[j]);
                }
            }
        }
    }
}

/// Ingesting the same record twice is a no-op the second time: the link
/// count, the node set and every adjacency list are left unchanged.
pub proof fn lemma_with_record_idempotent(
    g: GraphModel,
    rec: RecordModel,
    cs: Seq<CoordinateModel>,
)
    requires
        cs.len() >= 1,
    ensures
        g.with_record(rec, cs).with_record(rec, cs) == g.with_record(rec, cs),
{
    let h = g.with_record(rec, cs);
    if g.has_link(rec.reference) {
        assert(h == g);
    } else {
        assert(h.links[h.links.len() - 1].id == rec.reference);
        assert(h.has_link(rec.reference));
    }
}

/// Ingesting records can fail only on a linestring: with a missing format
/// prefix or a malformed coordinate token.
pub proof fn lemma_with_records_err(g: GraphModel, recs: Seq<RecordModel>)
    ensures
        g.with_records(recs) matches Err(e) ==> e == GraphError::MissingPrefix || e
            == GraphError::MalformedToken,
    decreases recs.len(),
{
    if recs.len() > 0 {
        match parse_linestring(recs[0].linestring) {
            Err(_) => {},
            Ok(cs) => {
                lemma_with_records_err(g.with_record(recs[0], cs), recs.skip(1));
            },
        }
    }
}

/// A field-for-field copy of a coordinate.
pub fn clone_coordinate(c: &Coordinate) -> (r: Coordinate)
    ensures
        r@ == c@,
{
    Coordinate { e: c.e.clone(), n: c.n.clone(), h: c.h.clone() }
}

impl Node {
    /// A fresh node with empty adjacency lists.
    pub fn new(id: String, coordinate: Coordinate) -> (r: Node)
        ensures
            r@.id == id@,
            r@.coordinate == coordinate@,
            r@.outgoing.len() == 0,
            r@.incoming.len() == 0,
    {
        Node { id, coordinate, outgoing_links: Vec::new(), incoming_links: Vec::new() }
    }

    /// Append a link reference to this node's incoming list.
    pub fn add_incoming(&mut self, linkref: String)
        ensures
            final(self)@.incoming == old(self)@.incoming.push(linkref@),
            final(self)@.outgoing == old(self)@.outgoing,
            final(self)@.id == old(self)@.id,
            final(self)@.coordinate == old(self)@.coordinate,
    {
        self.incoming_links.push(linkref);
        proof {
            assert(self@.incoming =~= old(self)@.incoming.push(
                self.incoming_links@[self.incoming_links@.len() - 1]@,
            ));
        }
    }

    /// Append a link reference to this node's outgoing list.
    pub fn add_outgoing(&mut self, linkref: String)
        ensures
            final(self)@.outgoing == old(self)@.outgoing.push(linkref@),
            final(self)@.incoming == old(self)@.incoming,
            final(self)@.id == old(self)@.id,
            final(self)@.coordinate == old(self)@.coordinate,
    {
        self.outgoing_links.push(linkref);
        proof {
            assert(self@.outgoing =~= old(self)@.outgoing.push(
                self.outgoing_links@[self.outgoing_links@.len() - 1]@,
            ));
        }
    }
}

impl RoadLink {
    /// A link from a record's fields, parsing its linestring; fails exactly
    /// when parsing fails.
    pub fn new(id: String, raw_linestring: String, start: String, end: String) -> (r: Result<
        RoadLink,
        GraphError,
    >)
        ensures
            match r {
                Ok(l) => parse_linestring(raw_linestring@) == Ok::<_, GraphError>(l@.coordinates)
                    && l@.id == id@ && l@.start == start@ && l@.end == end@,
                Err(e) => parse_linestring(raw_linestring@) == Err::<Seq<CoordinateModel>, _>(e),
            },
    {
        let coordinates = match create_coordinates(raw_linestring.as_str()) {
            Ok(cs) => cs,
            Err(e) => {
                return Err(e);
            },
        };
        Ok(RoadLink { id, start, end, coordinates })
    }

    /// Append one coordinate to this link's geometry.
    pub fn add_coordinate(&mut self, c: Coordinate)
        ensures
            final(self)@.coordinates == old(self)@.coordinates.push(c@),
            final(self)@.id == old(self)@.id,
            final(self)@.start == old(self)@.start,
            final(self)@.end == old(self)@.end,
    {
        self.coordinates.push(c);
        proof {
            assert(self@.coordinates =~= old(self)@.coordinates.push(
                self.coordinates@[self.coordinates@.len() - 1]@,
            ));
        }
    }
}

impl Graph {
    /// The empty graph.
    pub fn new() -> (g: Graph)
        ensures
            g@.nodes.len() == 0,
            g@.links.len() == 0,
            g@.wf(),
    {
        Graph { nodes: Vec::new(), links: Vec::new() }
    }

    /// The position of the node carrying this identifier, if one exists.
    pub fn find_node(&self, id: &String) -> (r: Option<usize>)
        ensures
            match r {
                Some(i) => i < self@.nodes.len() && self@.nodes[i as int].id == id@,
                None => !self@.has_node(id@),
            },
    {
        let mut i: usize = 0;
        while i < self.nodes.len()
            invariant
                i <= self.nodes@.len(),
                self@.nodes.len() == self.nodes@.len(),
                forall|j: int| 0 <= j < i ==> (#[trigger] self@.nodes[j]).id != id@,
        decreases self.nodes@.len() - i,
        {
            if self.nodes[i].id == *id {
                return Some(i);
            }
            i += 1;
        }
        None
    }

    /// The position of the link carrying this reference, if one exists.
    pub fn find_link(&self, id: &String) -> (r: Option<usize>)
        ensures
            match r {
                Some(i) => i < self@.links.len() && self@.links[i as int].id == id@,
                None => !self@.has_link(id@),
            },
    {
        let mut i: usize = 0;
        while i < self.links.len()
            invariant
                i <= self.links@.len(),
                self@.links.len() == self.links@.len(),
                forall|j: int| 0 <= j < i ==> (#[trigger] self@.links[j]).id != id@,
        decreases self.links@.len() - i,
        {
            if self.links[i].id == *id {
                return Some(i);
            }
            i += 1;
        }
        None
    }

    /// Ingest one link record.
    ///
    /// Fails, leaving the graph unchanged, exactly when the record's
    /// linestring does not parse. Otherwise the graph changes as
    /// `with_record` says: a duplicate reference is a no-op; a fresh one
    /// ensures both endpoint nodes, appends the reference to their adjacency
    /// lists and appends the link.
    pub fn add_record(&mut self, rec: &LinkRecord) -> (r: Result<(), GraphError>)
        requires
            old(self)@.wf(),
        ensures
            final(self)@.wf(),
            match r {
                Ok(()) => parse_linestring(rec.linestring@) matches Ok(cs) && final(self)@ == old(
                    self,
                )@.with_record(rec@, cs),
                Err(e) => parse_linestring(rec.linestring@) == Err::<Seq<CoordinateModel>, _>(e)
                    && final(self)@ == old(self)@,
            },
    {
        let ghost g0 = self@;
        let coords = match create_coordinates(rec.linestring.as_str()) {
            Ok(c) => c,
            Err(e) => {
                return Err(e);
            },
        };
        let ghost cs = coords@.map_values(|c: Coordinate| c@);
        proof {
            lemma_parse_nonempty(rec.linestring@);
            lemma_with_record_wf(g0, rec@, cs);
        }
        if let Some(_) = self.find_link(&rec.reference) {
            proof {
                assert(g0.has_link(rec@.reference));
            }
            return Ok(());
        }
        let ghost g1 = g0.with_node(rec@.startnode, cs.first());
        let si: usize = match self.find_node(&rec.startnode) {
            Some(i) => i,
            None => {
                let c0 = clone_coordinate(&coords[0]);
                self.nodes.push(
                    Node {
                        id: rec.startnode.clone(),
                        coordinate: c0,
                        outgoing_links: Vec::new(),
                        incoming_links: Vec::new(),
                    },
                );
                self.nodes.len() - 1
            },
        };
        proof {
            assert(self@.nodes =~~= g1.nodes);
            assert(self@ =~~= g1);
            assert(self@.nodes[si as int].id == rec@.startnode);
            assert(g1.has_node(rec@.startnode));
            assert(g1.nodes_unique()) by {
                assert forall|i: int, j: int| 0 <= i < j < g1.nodes.len() implies (
                #[trigger] g1.nodes[i]).id != (#[trigger] g1.nodes[j]).id by {
                    if j >= g0.nodes.len() {
                        assert(g1.nodes[i] == g0.nodes[i]);
                    }
                }
            }
            assert(g1.node_index_of(rec@.startnode) == si as int) by {
                let ip = g1.node_index_of(rec@.startnode);
                assert(0 <= ip < g1.nodes.len() && g1.nodes[ip].id == rec@.startnode);
            }
        }
        self.nodes[si].outgoing_links.push(rec.reference.clone());
        let ghost g2 = g1.with_outgoing(rec@.startnode, rec@.reference);
        proof {
            assert(self@.nodes =~~= g2.nodes);
            assert(self@ =~~= g2);
        }
        let ghost g3 = g2.with_node(rec@.endnode, cs.last());
        let ei: usize = match self.find_node(&rec.endnode) {
            Some(i) => i,
            None => {
                let cl = clone_coordinate(&coords[coords.len() - 1]);
                self.nodes.push(
                    Node {
                        id: rec.endnode.clone(),
                        coordinate: cl,
                        outgoing_links: Vec::new(),
                        incoming_links: Vec::new(),
                    },
                );
                self.nodes.len() - 1
            },
        };
        proof {
            assert(self@.nodes =~~= g3.nodes);
            assert(self@ =~~= g3);
            assert(self@.nodes[ei as int].id == rec@.endnode);
            assert(g3.has_node(rec@.endnode));
            assert(g3.nodes_unique()) by {
                assert forall|i: int, j: int| 0 <= i < j < g3.nodes.len() implies (
                #[trigger] g3.nodes[i]).id != (#[trigger] g3.nodes[j]).id by {
                    if j >= g2.nodes.len() {
                        assert(g3.nodes[i].id == g1.nodes[i].id);
                        assert(!g2.has_node(rec@.endnode));
                    } else {
                        assert(g3.nodes[i].id == g1.nodes[i].id);
                        assert(g3.nodes[j].id == g1.nodes[j].id);
                    }
                }
            }
            assert(g3.node_index_of(rec@.endnode) == ei as int) by {
                let ip = g3.node_index_of(rec@.endnode);
                assert(0 <= ip < g3.nodes.len() && g3.nodes[ip].id == rec@.endnode);
            }
        }
        self.nodes[ei].incoming_links.push(rec.reference.clone());
        let ghost g4 = g3.with_incoming(rec@.endnode, rec@.reference);
        proof {
            assert(self@.nodes =~~= g4.nodes);
            assert(self@ =~~= g4);
        }
        self.links.push(
            RoadLink {
                id: rec.reference.clone(),
                start: rec.startnode.clone(),
                end: rec.endnode.clone(),
                coordinates: coords,
            },
        );
        proof {
            let g5 = g4.with_link(rec@, cs);
            assert(self@.links =~~= g5.links);
            assert(self@ =~~= g5);
            assert(self@ == g0.with_record(rec@, cs));
        }
        Ok(())
    }

    /// Ingest a sequence of link records, in order, stopping at the first
    /// record whose linestring does not parse.
    pub fn add_records(&mut self, records: &Vec<LinkRecord>) -> (r: Result<(), GraphError>)
        requires
            old(self)@.wf(),
        ensures
            final(self)@.wf(),
            match r {
                Ok(()) => old(self)@.with_records(
                    records@.map_values(|x: LinkRecord| x@),
                ) == Ok::<_, GraphError>(final(self)@),
                Err(e) => old(self)@.with_records(records@.map_values(|x: LinkRecord| x@))
                    == Err::<GraphModel, _>(e),
            },
    {
        let ghost recs = records@.map_values(|x: LinkRecord| x@);
        proof {
            assert(recs.skip(0) =~= recs);
        }
        let mut i: usize = 0;
        while i < records.len()
            invariant
                i <= records@.len(),
                recs == records@.map_values(|x: LinkRecord| x@),
                self@.wf(),
                old(self)@.with_records(recs) == self@.with_records(recs.skip(i as int)),
            decreases records@.len() - i,
        {
            let ghost pre = self@;
            match self.add_record(&records[i]) {
                Ok(()) => {},
                Err(e) => {
                    proof {
                        assert(recs.skip(i as int)[0] == recs[i as int]);
                        assert(pre.with_records(recs.skip(i as int)) == Err::<GraphModel, _>(e));
                    }
                    return Err(e);
                },
            }
            proof {
                let tail = recs.skip(i as int);
                assert(tail[0] == recs[i as int]);
                assert(tail.skip(1) =~= recs.skip(i + 1));
                assert(pre.with_records(tail) == self@.with_records(recs.skip(i + 1)));
            }
            i += 1;
        }
        proof {
            assert(recs.skip(i as int) =~= Seq::<RecordModel>::empty());
        }
        Ok(())
    }
}

} // verus!
