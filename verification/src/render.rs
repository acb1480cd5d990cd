use vstd::prelude::*;
use vstd::pervasive::unreached;

use crate::graph::Graph;
use crate::graph::GraphModel;
use crate::graph::LinkModel;
use crate::graph::Node;
use crate::graph::NodeModel;
use crate::graph::RoadLink;
use crate::traverse::StepModel;
use crate::traverse::TraversalStep;
use crate::traverse::find_link_in;
use crate::traverse::lemma_node_wired;
use crate::traverse::node_wired;
use crate::wkt::Coordinate;
use crate::wkt::CoordinateModel;

verus! {

/// `k` space characters.
pub open spec fn spaces(k: nat) -> Seq<char>
    decreases k,
{
    if k == 0 {
        Seq::empty()
    } else {
        spaces((k - 1) as nat).push(' ')
    }
}

/// `s` padded with spaces on the right to width `w`.
pub open spec fn padded(s: Seq<char>, w: nat) -> Seq<char> {
    if s.len() >= w {
        s
    } else {
        s + spaces((w - s.len()) as nat)
    }
}

/// One line of a coordinate: easting and northing each padded to 16
/// characters, then the height, tab-separated.
pub open spec fn coordinate_text(c: CoordinateModel) -> Seq<char> {
    padded(c.e, 16) + "\t"@ + padded(c.n, 16) + "\t"@ + c.h
}

/// The coordinate lines of a geometry, in order, one line each.
pub open spec fn coordinates_text(cs: Seq<CoordinateModel>) -> Seq<char>
    decreases cs.len(),
{
    if cs.len() == 0 {
        Seq::empty()
    } else {
        coordinates_text(cs.drop_last()) + coordinate_text(cs.last()) + "\n"@
    }
}

/// The coordinate lines of a geometry in reverse order.
pub open spec fn coordinates_text_rev(cs: Seq<CoordinateModel>) -> Seq<char>
    decreases cs.len(),
{
    if cs.len() == 0 {
        Seq::empty()
    } else {
        coordinate_text(cs.last()) + "\n"@ + coordinates_text_rev(cs.drop_last())
    }
}

/// A comma-joined run of link references, each followed by a separator.
pub open spec fn refs_text(rs: Seq<Seq<char>>) -> Seq<char>
    decreases rs.len(),
{
    if rs.len() == 0 {
        Seq::empty()
    } else {
        refs_text(rs.drop_last()) + rs.last() + ", "@
    }
}

/// The two adjacency lines of a node.
pub open spec fn links_to_text(n: NodeModel) -> Seq<char> {
    "Incoming links: "@ + refs_text(n.incoming) + "\nOutgoing links: "@ + refs_text(n.outgoing)
        + "\n"@
}

/// The full block describing one link: its reference, both endpoint nodes
/// with their adjacency lines, and its coordinate lines.
pub open spec fn link_text(g: GraphModel, l: LinkModel) -> Seq<char>
    recommends
        g.has_node(l.start),
        g.has_node(l.end),
{
    "Link "@ + l.id + ":\n\nStartnode: "@ + l.start + "\n"@ + links_to_text(
        g.nodes[g.node_index_of(l.start)],
    ) + "\nEndnode: "@ + l.end + "\n"@ + links_to_text(g.nodes[g.node_index_of(l.end)])
        + "\nCoordinates:\n"@ + coordinates_text(l.coordinates) + "\n"@ + "\n\n"@
}

/// The blocks of a run of links, in order.
pub open spec fn links_text(g: GraphModel, ls: Seq<LinkModel>) -> Seq<char>
    decreases ls.len(),
{
    if ls.len() == 0 {
        Seq::empty()
    } else {
        links_text(g, ls.drop_last()) + link_text(g, ls.last())
    }
}

/// One traversal line: the origin node padded to 10, the link reference
/// padded to 30, the reached node, joined by arrows that keep the link's
/// recorded start-to-end orientation.
pub open spec fn step_text(st: StepModel) -> Seq<char> {
    if st.forward {
        padded(st.from, 10) + "\t------> \t"@ + padded(st.link, 30) + "\t------> \t"@ + st.to
    } else {
        padded(st.from, 10) + "\t<------    \t"@ + padded(st.link, 30) + "\t<------    \t"@
            + st.to
    }
}

/// `s` padded with spaces on the right to width `w`.
fn pad_to(s: &str, w: usize) -> (r: String)
    ensures
        r@ == padded(s@, w as nat),
{
    let mut out = String::from_str(s);
    let n = s.unicode_len();
    if n >= w {
        return out;
    }
    let mut i: usize = n;
    proof {
        assert(out@ =~= s@ + spaces(0));
    }
    while i < w
        invariant
            n == s@.len(),
            n <= i <= w,
            out@ == s@ + spaces((i - n) as nat),
        decreases w - i,
    {
        out.append(" ");
        i += 1;
        proof {
            reveal_strlit(" ");
            assert(out@ =~= s@ + spaces((i - n) as nat));
        }
    }
    out
}

impl Coordinate {
    /// This coordinate's output line.
    pub fn render(&self) -> (r: String)
        ensures
            r@ == coordinate_text(self@),
    {
        let mut out = pad_to(self.e.as_str(), 16);
        out.append("\t");
        let pn = pad_to(self.n.as_str(), 16);
        out.append(pn.as_str());
        out.append("\t");
        out.append(self.h.as_str());
        proof {
            assert(out@ =~= coordinate_text(self@));
        }
        out
    }
}

impl RoadLink {
    /// This link's reference.
    pub fn get_id(&self) -> (r: String)
        ensures
            r@ == self@.id,
    {
        self.id.clone()
    }

    /// The coordinate lines of this link's geometry, followed by a blank
    /// line.
    pub fn print_coordinates(&self) -> (r: String)
        ensures
            r@ == coordinates_text(self@.coordinates) + "\n"@,
    {
        let ghost cs = self@.coordinates;
        let mut out = String::new();
        let mut i: usize = 0;
        proof {
            assert(cs.take(0) =~= Seq::<CoordinateModel>::empty());
            assert(out@ =~= coordinates_text(cs.take(0)));
        }
        while i < self.coordinates.len()
            invariant
                cs == self@.coordinates,
                i <= self.coordinates@.len(),
                cs.len() == self.coordinates@.len(),
                cs == self.coordinates@.map_values(|c: Coordinate| c@),
                out@ == coordinates_text(cs.take(i as int)),
            decreases self.coordinates@.len() - i,
        {
            let line = self.coordinates[i].render();
            out.append(line.as_str());
            out.append("\n");
            proof {
                assert(cs.take(i + 1).drop_last() =~= cs.take(i as int));
                assert(cs.take(i + 1).last() == cs[i as int]);
                assert(out@ =~= coordinates_text(cs.take(i + 1)));
            }
            i += 1;
        }
        proof {
            assert(cs.take(cs.len() as int) =~= cs);
        }
        out.append("\n");
        out
    }

    /// The coordinate lines of this link's geometry in reverse order,
    /// followed by a blank line.
    pub fn print_coordinates_reversed(&self) -> (r: String)
        ensures
            r@ == coordinates_text_rev(self@.coordinates) + "\n"@,
    {
        let ghost cs = self@.coordinates;
        let mut out = String::new();
        let mut i: usize = self.coordinates.len();
        proof {
            assert(cs.take(cs.len() as int) =~= cs);
            assert(out@ + coordinates_text_rev(cs.take(i as int)) =~= coordinates_text_rev(cs));
        }
        while i > 0
            invariant
                cs == self@.coordinates,
                i <= self.coordinates@.len(),
                cs.len() == self.coordinates@.len(),
                cs == self.coordinates@.map_values(|c: Coordinate| c@),
                out@ + coordinates_text_rev(cs.take(i as int)) == coordinates_text_rev(cs),
            decreases i,
        {
            i -= 1;
            let line = self.coordinates[i].render();
            out.append(line.as_str());
            out.append("\n");
            proof {
                assert(cs.take(i + 1).drop_last() =~= cs.take(i as int));
                assert(cs.take(i + 1).last() == cs[i as int]);
                assert(out@ + coordinates_text_rev(cs.take(i as int)) =~= coordinates_text_rev(
                    cs,
                ));
            }
        }
        proof {
            assert(cs.take(0) =~= Seq::<CoordinateModel>::empty());
            assert(out@ =~= coordinates_text_rev(cs));
        }
        out.append("\n");
        out
    }
}

/// A comma-joined run of the references of this list, each resolved in the
/// link list before it is written out.
fn render_refs(refs: &Vec<String>, links: &Vec<RoadLink>) -> (r: String)
    requires
        forall|k: int|
            0 <= k < refs@.len() ==> crate::traverse::some_link_with(
                links@.map_values(|l: RoadLink| l@),
                (#[trigger] refs@[k])@,
            ),
    ensures
        r@ == refs_text(refs@.map_values(|s: String| s@)),
{
    let ghost rm = refs@.map_values(|s: String| s@);
    let mut out = String::new();
    let mut i: usize = 0;
    proof {
        assert(rm.take(0) =~= Seq::<Seq<char>>::empty());
        assert(out@ =~= refs_text(rm.take(0)));
    }
    while i < refs.len()
        invariant
            rm == refs@.map_values(|s: String| s@),
            i <= refs@.len(),
            forall|k: int|
                0 <= k < refs@.len() ==> crate::traverse::some_link_with(
                    links@.map_values(|l: RoadLink| l@),
                    (#[trigger] refs@[k])@,
                ),
            out@ == refs_text(rm.take(i as int)),
        decreases refs@.len() - i,
    {
        let id = match find_link_in(links, &refs[i]) {
            Some(j) => links[j].get_id(),
            None => unreached(),
        };
        out.append(id.as_str());
        out.append(", ");
        proof {
            assert(rm.take(i + 1).drop_last() =~= rm.take(i as int));
            assert(rm.take(i + 1).last() == rm[i as int]);
            assert(out@ =~= refs_text(rm.take(i + 1)));
        }
        i += 1;
    }
    proof {
        assert(rm.take(rm.len() as int) =~= rm);
    }
    out
}

impl Node {
    /// The comma-joined outgoing references of this node.
    pub fn print_outgoing_links(&self, links: &Vec<RoadLink>) -> (r: String)
        requires
            node_wired(self@, links@.map_values(|l: RoadLink| l@)),
        ensures
            r@ == refs_text(self@.outgoing),
    {
        proof {
            let lmx = links@.map_values(|l: RoadLink| l@);
            assert forall|k: int|
                0 <= k < self.outgoing_links@.len() implies crate::traverse::some_link_with(
                lmx,
                (#[trigger] self.outgoing_links@[k])@,
            ) by {
                assert(self@.outgoing[k] == self.outgoing_links@[k]@);
                assert(crate::traverse::some_link_with_start(lmx, self@.outgoing[k], self@.id));
            }
        }
        render_refs(&self.outgoing_links, links)
    }

    /// The comma-joined incoming references of this node.
    pub fn print_incoming_links(&self, links: &Vec<RoadLink>) -> (r: String)
        requires
            node_wired(self@, links@.map_values(|l: RoadLink| l@)),
        ensures
            r@ == refs_text(self@.incoming),
    {
        proof {
            let lmx = links@.map_values(|l: RoadLink| l@);
            assert forall|k: int|
                0 <= k < self.incoming_links@.len() implies crate::traverse::some_link_with(
                lmx,
                (#[trigger] self.incoming_links@[k])@,
            ) by {
                assert(self@.incoming[k] == self.incoming_links@[k]@);
                assert(crate::traverse::some_link_with_end(lmx, self@.incoming[k], self@.id));
            }
        }
        render_refs(&self.incoming_links, links)
    }

    /// The two adjacency lines of this node.
    pub fn print_links_to(&self, links: &Vec<RoadLink>) -> (r: String)
        requires
            node_wired(self@, links@.map_values(|l: RoadLink| l@)),
        ensures
            r@ == links_to_text(self@),
    {
        let mut out = String::from_str("Incoming links: ");
        let inc = self.print_incoming_links(links);
        out.append(inc.as_str());
        out.append("\nOutgoing links: ");
        let outg = self.print_outgoing_links(links);
        out.append(outg.as_str());
        out.append("\n");
        proof {
            assert(out@ =~= links_to_text(self@));
        }
        out
    }
}

/// The position of the node carrying this identifier, if one exists.
fn find_node_in(nodes: &Vec<Node>, id: &String) -> (r: Option<usize>)
    ensures
        match r {
            Some(i) => i < nodes@.len() && nodes@[i as int]@.id == id@,
            None => !(exists|i: int|
                0 <= i < nodes@.len() && (#[trigger] nodes@[i])@.id == id@),
        },
{
    let mut i: usize = 0;
    while i < nodes.len()
        invariant
            i <= nodes@.len(),
            forall|j: int| 0 <= j < i ==> (#[trigger] nodes@[j])@.id != id@,
        decreases nodes@.len() - i,
    {
        if nodes[i].id == *id {
            return Some(i);
        }
        i += 1;
    }
    None
}

impl RoadLink {
    /// The full block describing this link within a well-formed graph's
    /// node and link lists.
    pub fn print(&self, nodes: &Vec<Node>, links: &Vec<RoadLink>) -> (r: String)
        requires
            ({
                let g = GraphModel {
                    nodes: nodes@.map_values(|n: Node| n@),
                    links: links@.map_values(|l: RoadLink| l@),
                };
                g.wf() && g.has_node(self@.start) && g.has_node(self@.end)
            }),
        ensures
            r@ == link_text(
                GraphModel {
                    nodes: nodes@.map_values(|n: Node| n@),
                    links: links@.map_values(|l: RoadLink| l@),
                },
                self@,
            ),
    {
        let ghost g = GraphModel {
            nodes: nodes@.map_values(|n: Node| n@),
            links: links@.map_values(|l: RoadLink| l@),
        };
        let mut out = String::from_str("Link ");
        out.append(self.id.as_str());
        out.append(":\n\nStartnode: ");
        out.append(self.start.as_str());
        out.append("\n");
        let si = match find_node_in(nodes, &self.start) {
            Some(i) => i,
            None => unreached(),
        };
        proof {
            assert(g.node_index_of(self@.start) == si as int) by {
                let ip = g.node_index_of(self@.start);
                assert(0 <= ip < g.nodes.len() && g.nodes[ip].id == self@.start);
                assert(g.nodes[si as int] == nodes@[si as int]@);
            }
            lemma_node_wired(g, si as int);
            assert(g.nodes[si as int] == nodes@[si as int]@);
        }
        let st = nodes[si].print_links_to(links);
        out.append(st.as_str());
        out.append("\nEndnode: ");
        out.append(self.end.as_str());
        out.append("\n");
        let ei = match find_node_in(nodes, &self.end) {
            Some(i) => i,
            None => unreached(),
        };
        proof {
            assert(g.node_index_of(self@.end) == ei as int) by {
                let ip = g.node_index_of(self@.end);
                assert(0 <= ip < g.nodes.len() && g.nodes[ip].id == self@.end);
                assert(g.nodes[ei as int] == nodes@[ei as int]@);
            }
            lemma_node_wired(g, ei as int);
            assert(g.nodes[ei as int] == nodes@[ei as int]@);
        }
        let en = nodes[ei].print_links_to(links);
        out.append(en.as_str());
        out.append("\nCoordinates:\n");
        let cs = self.print_coordinates();
        out.append(cs.as_str());
        out.append("\n\n");
        proof {
            assert(out@ =~= link_text(g, self@));
        }
        out
    }
}

impl Graph {
    /// The blocks of every link of this graph, in insertion order.
    pub fn print(&self) -> (r: String)
        requires
            self@.wf(),
        ensures
            r@ == links_text(self@, self@.links),
    {
        let ghost g = self@;
        let ghost lm = g.links;
        let mut out = String::new();
        let mut i: usize = 0;
        proof {
            assert(lm.take(0) =~= Seq::<LinkModel>::empty());
            assert(out@ =~= links_text(g, lm.take(0)));
        }
        while i < self.links.len()
            invariant
                g == self@,
                lm == g.links,
                g.wf(),
                i <= self.links@.len(),
                out@ == links_text(g, lm.take(i as int)),
            decreases self.links@.len() - i,
        {
            proof {
                assert(lm[i as int] == self.links@[i as int]@);
                assert(g.links_closed());
                assert(g.has_node(lm[i as int].start) && g.has_node(lm[i as int].end));
            }
            let block = self.links[i].print(&self.nodes, &self.links);
            out.append(block.as_str());
            proof {
                assert(lm.take(i + 1).drop_last() =~= lm.take(i as int));
                assert(lm.take(i + 1).last() == lm[i as int]);
                assert(out@ =~= links_text(g, lm.take(i + 1)));
            }
            i += 1;
        }
        proof {
            assert(lm.take(lm.len() as int) =~= lm);
        }
        out
    }
}

/// One traversal step's output line.
pub fn render_step(st: &TraversalStep) -> (r: String)
    ensures
        r@ == step_text(st@),
{
    let mut out = pad_to(st.from.as_str(), 10);
    let pl = pad_to(st.link.as_str(), 30);
    if st.forward {
        out.append("\t------> \t");
        out.append(pl.as_str());
        out.append("\t------> \t");
    } else {
        out.append("\t<------    \t");
        out.append(pl.as_str());
        out.append("\t<------    \t");
    }
    out.append(st.to.as_str());
    proof {
        assert(out@ =~= step_text(st@));
    }
    out
}

} // verus!
