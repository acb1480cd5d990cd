use rand::Rng;
use vstd::prelude::*;
use vstd::pervasive::unreached;
use vstd::seq_lib::*;
use vstd::set_lib::lemma_len_subset;

use crate::errors::GraphError;
use crate::graph::Graph;
use crate::graph::GraphModel;
use crate::graph::LinkModel;
use crate::graph::Node;
use crate::graph::RoadLink;

verus! {

broadcast use vstd::seq_lib::group_seq_properties;

/// Which endpoint of a dequeued link is still unexplored: the link was
/// reached from its other endpoint.
#[derive(Clone, Copy, Debug, PartialEq, Eq, Structural)]
pub enum Side {
    ExploreFromStart,
    ExploreFromEnd,
}

/// One pending traversal item: a link reference and the side of the link
/// still to explore.
pub struct QueueEntry {
    pub link: String,
    pub side: Side,
}

#[verifier::ext_equal]
pub ghost struct EntryModel {
    pub link: Seq<char>,
    pub side: Side,
}

impl View for QueueEntry {
    type V = EntryModel;

    open spec fn view(&self) -> EntryModel {
        EntryModel { link: self.link@, side: self.side }
    }
}

/// One reported traversal step: the node it came from, the link taken, the
/// node reached, and whether the link was walked in its recorded direction.
#[derive(Debug)]
pub struct TraversalStep {
    pub from: String,
    pub link: String,
    pub to: String,
    pub forward: bool,
}

#[verifier::ext_equal]
pub ghost struct StepModel {
    pub from: Seq<char>,
    pub link: Seq<char>,
    pub to: Seq<char>,
    pub forward: bool,
}

impl View for TraversalStep {
    type V = StepModel;

    open spec fn view(&self) -> StepModel {
        StepModel { from: self.from@, link: self.link@, to: self.to@, forward: self.forward }
    }
}

/// The set of node identifiers discovered so far, as an append-only list
/// without duplicates.
pub struct VisitedSet {
    pub ids: Vec<String>,
}

impl View for VisitedSet {
    type V = Seq<Seq<char>>;

    open spec fn view(&self) -> Seq<Seq<char>> {
        self.ids@.map_values(|s: String| s@)
    }
}

impl VisitedSet {
    /// The empty visited set.
    pub fn new() -> (s: VisitedSet)
        ensures
            s@.len() == 0,
    {
        VisitedSet { ids: Vec::new() }
    }

    /// Whether this identifier has been discovered.
    pub fn contains(&self, id: &String) -> (r: bool)
        ensures
            r == self@.contains(id@),
    {
        let mut i: usize = 0;
        while i < self.ids.len()
            invariant
                i <= self.ids@.len(),
                self@.len() == self.ids@.len(),
                forall|j: int| 0 <= j < i ==> self@[j] != id@,
            decreases self.ids@.len() - i,
        {
            if self.ids[i] == *id {
                assert(self@[i as int] == id@);
                return true;
            }
            i += 1;
        }
        false
    }

    /// Mark this identifier discovered; marking an already-discovered
    /// identifier changes nothing.
    pub fn mark(&mut self, id: &String)
        ensures
            final(self)@ == if old(self)@.contains(id@) {
                old(self)@
            } else {
                old(self)@.push(id@)
            },
    {
        if !self.contains(id) {
            self.ids.push(id.clone());
            proof {
                assert(self@ =~= old(self)@.push(id@));
            }
        }
    }
}

/// Some link in the sequence carries this reference.
pub open spec fn some_link_with(links: Seq<LinkModel>, r: Seq<char>) -> bool {
    exists|j: int| 0 <= j < links.len() && (#[trigger] links[j]).id == r
}

/// The position of the link carrying this reference; meaningful only under
/// `some_link_with` and `links_distinct`.
pub open spec fn link_at(links: Seq<LinkModel>, r: Seq<char>) -> int {
    choose|j: int| 0 <= j < links.len() && (#[trigger] links[j]).id == r
}

/// Link references are pairwise distinct.
pub open spec fn links_distinct(links: Seq<LinkModel>) -> bool {
    forall|i: int, j: int|
        0 <= i < j < links.len() ==> (#[trigger] links[i]).id != (#[trigger] links[j]).id
}

/// Some link carries this reference and starts at this node.
pub open spec fn some_link_with_start(links: Seq<LinkModel>, r: Seq<char>, id: Seq<char>) -> bool {
    exists|j: int|
        0 <= j < links.len() && (#[trigger] links[j]).id == r && links[j].start == id
}

/// Some link carries this reference and ends at this node.
pub open spec fn some_link_with_end(links: Seq<LinkModel>, r: Seq<char>, id: Seq<char>) -> bool {
    exists|j: int| 0 <= j < links.len() && (#[trigger] links[j]).id == r && links[j].end == id
}

/// Every adjacency entry of this node resolves in the link sequence, with
/// the matching endpoint.
pub open spec fn node_wired(n: crate::graph::NodeModel, links: Seq<LinkModel>) -> bool {
    &&& forall|k: int|
        0 <= k < n.outgoing.len() ==> some_link_with_start(links, #[trigger] n.outgoing[k], n.id)
    &&& forall|k: int|
        0 <= k < n.incoming.len() ==> some_link_with_end(links, #[trigger] n.incoming[k], n.id)
}

/// The far endpoint that a pending entry resolves to: the link's start for
/// `ExploreFromStart`, its end otherwise.
pub open spec fn entry_target(links: Seq<LinkModel>, e: EntryModel) -> Seq<char>
    recommends
        some_link_with(links, e.link),
{
    let l = links[link_at(links, e.link)];
    if e.side == Side::ExploreFromStart {
        l.start
    } else {
        l.end
    }
}

/// `x` is the start or end of some link.
pub open spec fn is_link_endpoint(links: Seq<LinkModel>, x: Seq<char>) -> bool {
    exists|j: int|
        0 <= j < links.len() && ((#[trigger] links[j]).start == x || links[j].end == x)
}

/// What one expansion round leaves behind: the queue is extended, each new
/// entry resolves to a link, the far endpoints of the new entries were
/// undiscovered, are now discovered, and are pairwise distinct; the visited
/// set grows by the explored node and those far endpoints only.
pub open spec fn explore_post(
    lm: Seq<LinkModel>,
    oldq: Seq<EntryModel>,
    newq: Seq<EntryModel>,
    oldv: Seq<Seq<char>>,
    newv: Seq<Seq<char>>,
    nid: Seq<char>,
) -> bool {
    &&& newv.no_duplicates()
    &&& oldq.len() <= newq.len()
    &&& (forall|k: int| 0 <= k < oldq.len() ==> #[trigger] newq[k] == oldq[k])
    &&& (forall|k: int|
        oldq.len() <= k < newq.len() ==> some_link_with(lm, (#[trigger] newq[k]).link))
    &&& (forall|k: int|
        oldq.len() <= k < newq.len() ==> !oldv.contains(entry_target(lm, #[trigger] newq[k])))
    &&& (forall|k: int|
        oldq.len() <= k < newq.len() ==> newv.contains(entry_target(lm, #[trigger] newq[k])))
    &&& (forall|k1: int, k2: int|
        oldq.len() <= k1 < k2 < newq.len() ==> entry_target(lm, #[trigger] newq[k1])
            != entry_target(lm, #[trigger] newq[k2]))
    &&& (forall|x: Seq<char>| oldv.contains(x) ==> newv.contains(x))
    &&& newv.contains(nid)
    &&& (forall|x: Seq<char>|
        #[trigger] newv.contains(x) ==> oldv.contains(x) || x == nid || is_link_endpoint(lm, x))
}

/// One sweep over an adjacency list: walk the references in order and, for
/// each whose far endpoint is undiscovered, mark that endpoint and append
/// an entry for it, in that order.
pub open spec fn expand_refs(
    lm: Seq<LinkModel>,
    refs: Seq<Seq<char>>,
    side: Side,
    v: Seq<Seq<char>>,
    q: Seq<EntryModel>,
) -> (Seq<Seq<char>>, Seq<EntryModel>)
    decreases refs.len(),
{
    if refs.len() == 0 {
        (v, q)
    } else {
        let e = EntryModel { link: refs[0], side };
        let far = entry_target(lm, e);
        if v.contains(far) {
            expand_refs(lm, refs.skip(1), side, v, q)
        } else {
            expand_refs(lm, refs.skip(1), side, v.push(far), q.push(e))
        }
    }
}

/// Exactly what expanding a node does to the visited set and the queue:
/// the node is marked, then its outgoing list is swept against the links'
/// ends, then its incoming list against their starts.
pub open spec fn explore_result(
    lm: Seq<LinkModel>,
    n: crate::graph::NodeModel,
    v: Seq<Seq<char>>,
    q: Seq<EntryModel>,
) -> (Seq<Seq<char>>, Seq<EntryModel>) {
    let v1 = if v.contains(n.id) {
        v
    } else {
        v.push(n.id)
    };
    let r1 = expand_refs(lm, n.outgoing, Side::ExploreFromEnd, v1, q);
    expand_refs(lm, n.incoming, Side::ExploreFromStart, r1.0, r1.1)
}

/// The position of the link carrying this reference, if one exists.
pub fn find_link_in(links: &Vec<RoadLink>, id: &String) -> (r: Option<usize>)
    ensures
        match r {
            Some(i) => i < links@.len() && links@[i as int]@.id == id@,
            None => !some_link_with(links@.map_values(|l: RoadLink| l@), id@),
        },
{
    let mut i: usize = 0;
    while i < links.len()
        invariant
            i <= links@.len(),
            forall|j: int| 0 <= j < i ==> (#[trigger] links@[j])@.id != id@,
        decreases links@.len() - i,
    {
        if links[i].id == *id {
            return Some(i);
        }
        i += 1;
    }
    proof {
        let lm = links@.map_values(|l: RoadLink| l@);
        assert forall|j: int| 0 <= j < lm.len() implies (#[trigger] lm[j]).id != id@ by {
            assert(lm[j] == links@[j]@);
        }
    }
    None
}

impl Node {
    /// Mark this node's identifier discovered.
    pub fn visit(&self, visited: &mut VisitedSet)
        ensures
            final(visited)@ == if old(visited)@.contains(self.id@) {
                old(visited)@
            } else {
                old(visited)@.push(self.id@)
            },
    {
        visited.mark(&self.id);
    }

    /// Expand the traversal frontier at this node: mark it discovered, then
    /// enqueue every outgoing link whose end is undiscovered and every
    /// incoming link whose start is undiscovered, marking those far
    /// endpoints discovered at enqueue time.
    pub fn explore_links(
        &self,
        visited: &mut VisitedSet,
        links: &Vec<RoadLink>,
        queue: &mut Vec<QueueEntry>,
    )
        requires
            node_wired(self@, links@.map_values(|l: RoadLink| l@)),
            links_distinct(links@.map_values(|l: RoadLink| l@)),
            old(visited)@.no_duplicates(),
        ensures
            explore_post(
                links@.map_values(|l: RoadLink| l@),
                old(queue)@.map_values(|e: QueueEntry| e@),
                final(queue)@.map_values(|e: QueueEntry| e@),
                old(visited)@,
                final(visited)@,
                self.id@,
            ),
            (final(visited)@, final(queue)@.map_values(|e: QueueEntry| e@)) == explore_result(
                links@.map_values(|l: RoadLink| l@),
                self@,
                old(visited)@,
                old(queue)@.map_values(|e: QueueEntry| e@),
            ),
    {
        let ghost lm = links@.map_values(|l: RoadLink| l@);
        let ghost oldq = queue@.map_values(|e: QueueEntry| e@);
        let ghost oldv = visited@;
        let ghost goal = explore_result(lm, self@, oldv, oldq);
        if !visited.contains(&self.id) {
            visited.mark(&self.id);
        }
        let mut a: usize = 0;
        proof {
            assert(self@.outgoing.skip(0) =~= self@.outgoing);
        }
        while a < self.outgoing_links.len()
            invariant
                node_wired(self@, lm),
                links_distinct(lm),
                lm == links@.map_values(|l: RoadLink| l@),
                oldq == old(queue)@.map_values(|e: QueueEntry| e@),
                oldv == old(visited)@,
                oldv.no_duplicates(),
                a <= self.outgoing_links@.len(),
                explore_post(
                    lm,
                    oldq,
                    queue@.map_values(|e: QueueEntry| e@),
                    oldv,
                    visited@,
                    self.id@,
                ),
                goal == explore_result(lm, self@, oldv, oldq),
                ({
                    let r1 = expand_refs(
                        lm,
                        self@.outgoing.skip(a as int),
                        Side::ExploreFromEnd,
                        visited@,
                        queue@.map_values(|e: QueueEntry| e@),
                    );
                    goal == expand_refs(lm, self@.incoming, Side::ExploreFromStart, r1.0, r1.1)
                }),
            decreases self.outgoing_links@.len() - a,
        {
            let r = &self.outgoing_links[a];
            proof {
                assert(self@.outgoing[a as int] == r@);
                assert(some_link_with_start(lm, r@, self@.id));
            }
            let j = match find_link_in(links, r) {
                Some(j) => j,
                None => unreached(),
            };
            let far = &links[j].end;
            let ghost e = EntryModel { link: r@, side: Side::ExploreFromEnd };
            proof {
                assert(lm[j as int] == links@[j as int]@);
                let jj = link_at(lm, e.link);
                assert(0 <= jj < lm.len() && lm[jj].id == e.link);
                assert(jj == j);
                assert(entry_target(lm, e) == far@);
                assert(self@.outgoing.skip(a as int)[0] == r@);
                assert(self@.outgoing.skip(a as int).skip(1) =~= self@.outgoing.skip(a + 1));
            }
            if !visited.contains(far) {
                let ghost v0 = visited@;
                let ghost q0 = queue@.map_values(|e: QueueEntry| e@);
                visited.mark(far);
                queue.push(QueueEntry { link: r.clone(), side: Side::ExploreFromEnd });
                proof {
                    assert(queue@.map_values(|e: QueueEntry| e@) =~= q0.push(e));
                    assert(visited@ == v0.push(far@));
                    assert(is_link_endpoint(lm, far@));
                }
            }
            a += 1;
        }
        let mut b: usize = 0;
        proof {
            assert(self@.outgoing.skip(self@.outgoing.len() as int)
                =~= Seq::<Seq<char>>::empty());
            assert(self@.incoming.skip(0) =~= self@.incoming);
        }
        while b < self.incoming_links.len()
            invariant
                node_wired(self@, lm),
                links_distinct(lm),
                lm == links@.map_values(|l: RoadLink| l@),
                oldq == old(queue)@.map_values(|e: QueueEntry| e@),
                oldv == old(visited)@,
                oldv.no_duplicates(),
                b <= self.incoming_links@.len(),
                explore_post(
                    lm,
                    oldq,
                    queue@.map_values(|e: QueueEntry| e@),
                    oldv,
                    visited@,
                    self.id@,
                ),
                goal == explore_result(lm, self@, oldv, oldq),
                goal == expand_refs(
                    lm,
                    self@.incoming.skip(b as int),
                    Side::ExploreFromStart,
                    visited@,
                    queue@.map_values(|e: QueueEntry| e@),
                ),
            decreases self.incoming_links@.len() - b,
        {
            let r = &self.incoming_links[b];
            proof {
                assert(self@.incoming[b as int] == r@);
                assert(some_link_with_end(lm, r@, self@.id));
            }
            let j = match find_link_in(links, r) {
                Some(j) => j,
                None => unreached(),
            };
            let far = &links[j].start;
            let ghost e = EntryModel { link: r@, side: Side::ExploreFromStart };
            proof {
                assert(lm[j as int] == links@[j as int]@);
                let jj = link_at(lm, e.link);
                assert(0 <= jj < lm.len() && lm[jj].id == e.link);
                assert(jj == j);
                assert(entry_target(lm, e) == far@);
                assert(self@.incoming.skip(b as int)[0] == r@);
                assert(self@.incoming.skip(b as int).skip(1) =~= self@.incoming.skip(b + 1));
            }
            if !visited.contains(far) {
                let ghost v0 = visited@;
                let ghost q0 = queue@.map_values(|e: QueueEntry| e@);
                visited.mark(far);
                queue.push(QueueEntry { link: r.clone(), side: Side::ExploreFromStart });
                proof {
                    assert(queue@.map_values(|e: QueueEntry| e@) =~= q0.push(e));
                    assert(visited@ == v0.push(far@));
                    assert(is_link_endpoint(lm, far@));
                }
            }
            b += 1;
        }
        proof {
            assert(self@.incoming.skip(self@.incoming.len() as int)
                =~= Seq::<Seq<char>>::empty());
        }
    }
}

/// In a graph with consistent adjacency, every node's entries resolve in
/// the graph's own link list.
pub proof fn lemma_node_wired(g: GraphModel, i: int)
    requires
        g.adjacency_consistent(),
        0 <= i < g.nodes.len(),
    ensures
        node_wired(g.nodes[i], g.links),
{
    let n = g.nodes[i];
    assert forall|k: int| 0 <= k < n.outgoing.len() implies some_link_with_start(
        g.links,
        #[trigger] n.outgoing[k],
        n.id,
    ) by {
        assert(g.link_with_start(n.outgoing[k], n.id));
    }
    assert forall|k: int| 0 <= k < n.incoming.len() implies some_link_with_end(
        g.links,
        #[trigger] n.incoming[k],
        n.id,
    ) by {
        assert(g.link_with_end(n.incoming[k], n.id));
    }
}

/// One traversal step resolves to an existing link, walked in its recorded
/// direction or against it.
pub open spec fn step_ok(g: GraphModel, st: StepModel) -> bool {
    exists|j: int|
        0 <= j < g.links.len() && (#[trigger] g.links[j]).id == st.link && if st.forward {
            st.from == g.links[j].start && st.to == g.links[j].end
        } else {
            st.from == g.links[j].end && st.to == g.links[j].start
        }
}

/// The step reported for one dequeued entry: walking toward the link's
/// start reports end-to-start against the recorded direction, walking
/// toward its end reports start-to-end with it.
pub open spec fn step_of(lm: Seq<LinkModel>, e: EntryModel) -> StepModel
    recommends
        some_link_with(lm, e.link),
{
    let l = lm[link_at(lm, e.link)];
    if e.side == Side::ExploreFromStart {
        StepModel { from: l.end, link: e.link, to: l.start, forward: false }
    } else {
        StepModel { from: l.start, link: e.link, to: l.end, forward: true }
    }
}

/// The steps still to be reported from a traversal state: one step per
/// pending entry, each followed by the expansion of the node it reaches.
/// The fuel only serves termination; the walk itself stops when the queue
/// empties.
pub open spec fn walk_from(
    g: GraphModel,
    v: Seq<Seq<char>>,
    q: Seq<EntryModel>,
    head: int,
    fuel: nat,
) -> Seq<StepModel>
    decreases fuel,
{
    if head >= q.len() || fuel == 0 {
        Seq::empty()
    } else {
        let st = step_of(g.links, q[head]);
        let n = g.nodes[g.node_index_of(st.to)];
        let r1 = explore_result(g.links, n, v, q);
        seq![st] + walk_from(g, r1.0, r1.1, head + 1, (fuel - 1) as nat)
    }
}

/// The whole report of a walk started at the node in position `s`.
pub open spec fn full_walk(g: GraphModel, s: int) -> Seq<StepModel>
    recommends
        0 <= s < g.nodes.len(),
{
    let r0 = explore_result(
        g.links,
        g.nodes[s],
        Seq::<Seq<char>>::empty(),
        Seq::<EntryModel>::empty(),
    );
    walk_from(g, r0.0, r0.1, 0, (g.nodes.len() + 1) as nat)
}

/// A breadth-first report over this graph: every step resolves to a link,
/// no two steps reach the same node, and there are at most as many steps as
/// nodes.
pub open spec fn valid_traversal(g: GraphModel, steps: Seq<StepModel>) -> bool {
    &&& steps.len() <= g.nodes.len()
    &&& (forall|k: int| 0 <= k < steps.len() ==> step_ok(g, #[trigger] steps[k]))
    &&& (forall|k1: int, k2: int|
        0 <= k1 < k2 < steps.len() ==> (#[trigger] steps[k1]).to != (#[trigger] steps[k2]).to)
}

/// A list of pairwise-distinct node identifiers of `g` is no longer than
/// the node list itself.
proof fn lemma_distinct_ids_bound(ts: Seq<Seq<char>>, g: GraphModel)
    requires
        ts.no_duplicates(),
        g.nodes_unique(),
        forall|k: int| 0 <= k < ts.len() ==> g.has_node(#[trigger] ts[k]),
    ensures
        ts.len() <= g.nodes.len(),
{
    let ids = Seq::new(g.nodes.len() as nat, |i: int| g.nodes[i].id);
    assert(ids.no_duplicates());
    assert forall|k: int| 0 <= k < ts.len() implies ids.contains(#[trigger] ts[k]) by {
        let w = choose|w: int| 0 <= w < g.nodes.len() && (#[trigger] g.nodes[w]).id == ts[k];
        assert(ids[w] == ts[k]);
    }
    ts.unique_seq_to_set();
    ids.unique_seq_to_set();
    assert(ts.to_set().subset_of(ids.to_set())) by {
        assert forall|x: Seq<char>| ts.to_set().contains(x) implies ids.to_set().contains(
            x,
        ) by {
            assert(ts.contains(x));
            let k = choose|k: int| 0 <= k < ts.len() && ts[k] == x;
            assert(ids.contains(ts[k]));
        }
    }
    lemma_len_subset(ts.to_set(), ids.to_set());
}

/// The state of the breadth-first loop: every queue entry resolves to a
/// link and to a discovered far endpoint, those endpoints are pairwise
/// distinct, everything discovered is a node, and the steps reported so far
/// mirror the dequeued prefix of the queue.
pub open spec fn bfs_inv(
    g: GraphModel,
    lm: Seq<LinkModel>,
    qm: Seq<EntryModel>,
    v: Seq<Seq<char>>,
    sm: Seq<StepModel>,
    head: int,
) -> bool {
    &&& 0 <= head <= qm.len()
    &&& qm.len() <= g.nodes.len()
    &&& sm.len() == head
    &&& v.no_duplicates()
    &&& (forall|x: Seq<char>| #[trigger] v.contains(x) ==> g.has_node(x))
    &&& (forall|k: int| 0 <= k < qm.len() ==> some_link_with(lm, (#[trigger] qm[k]).link))
    &&& (forall|k: int| 0 <= k < qm.len() ==> v.contains(entry_target(lm, #[trigger] qm[k])))
    &&& (forall|k1: int, k2: int|
        0 <= k1 < k2 < qm.len() ==> entry_target(lm, #[trigger] qm[k1]) != entry_target(
            lm,
            #[trigger] qm[k2],
        ))
    &&& (forall|k: int|
        0 <= k < head ==> (#[trigger] sm[k]).to == entry_target(lm, qm[k]) && step_ok(g, sm[k]))
}

impl Graph {
    /// Walk the graph breadth-first from the node at `start`, treating links
    /// as undirected edges for reachability while reporting each link in its
    /// recorded direction. Every reported step reaches a node no other step
    /// reaches, so no node is explored twice.
    pub fn breadth_first_from(&self, start: usize) -> (steps: Vec<TraversalStep>)
        requires
            self@.wf(),
            start < self@.nodes.len(),
        ensures
            valid_traversal(self@, steps@.map_values(|s: TraversalStep| s@)),
            steps@.map_values(|s: TraversalStep| s@) == full_walk(self@, start as int),
    {
        let ghost g = self@;
        let ghost lm = self.links@.map_values(|l: RoadLink| l@);
        proof {
            assert(lm == g.links);
        }
        let mut visited = VisitedSet::new();
        let mut queue: Vec<QueueEntry> = Vec::new();
        let mut steps: Vec<TraversalStep> = Vec::new();
        proof {
            assert(g.adjacency_consistent());
            assert(node_wired(self.nodes@[start as int]@, lm)) by {
                let n = g.nodes[start as int];
                assert forall|k: int| 0 <= k < n.outgoing.len() implies some_link_with_start(
                    lm,
                    #[trigger] n.outgoing[k],
                    n.id,
                ) by {
                    assert(g.link_with_start(n.outgoing[k], n.id));
                }
                assert forall|k: int| 0 <= k < n.incoming.len() implies some_link_with_end(
                    lm,
                    #[trigger] n.incoming[k],
                    n.id,
                ) by {
                    assert(g.link_with_end(n.incoming[k], n.id));
                }
            }
        }
        let ghost startid = g.nodes[start as int].id;
        let ghost full = full_walk(g, start as int);
        proof {
            assert(visited@ =~= Seq::<Seq<char>>::empty());
            assert(queue@.map_values(|e: QueueEntry| e@) =~= Seq::<EntryModel>::empty());
        }
        self.nodes[start].explore_links(&mut visited, &self.links, &mut queue);
        proof {
            let q1 = queue@.map_values(|e: QueueEntry| e@);
            assert(explore_post(lm, Seq::<EntryModel>::empty(), q1, Seq::<Seq<char>>::empty(),
                visited@, startid));
            assert((visited@, q1) == explore_result(lm, g.nodes[start as int],
                Seq::<Seq<char>>::empty(), Seq::<EntryModel>::empty()));
            assert(full == walk_from(g, visited@, q1, 0, (g.nodes.len() + 1) as nat));
            assert forall|x: Seq<char>| #[trigger] visited@.contains(x) implies g.has_node(
                x,
            ) by {
                if x != startid {
                    assert(is_link_endpoint(lm, x));
                    let w = choose|w: int|
                        0 <= w < lm.len() && ((#[trigger] lm[w]).start == x || lm[w].end == x);
                    assert(g.has_node(g.links[w].start) && g.has_node(g.links[w].end));
                }
            }
            lemma_queue_bound(lm, g, q1, visited@);
            assert(steps@.map_values(|s: TraversalStep| s@) =~= Seq::<StepModel>::empty());
            assert(Seq::<StepModel>::empty() + walk_from(g, visited@, q1, 0, (g.nodes.len()
                + 1) as nat) =~= walk_from(g, visited@, q1, 0, (g.nodes.len() + 1) as nat));
        }
        let mut head: usize = 0;
        while head < queue.len()
            invariant
                g == self@,
                lm == g.links,
                self@.wf(),
                bfs_inv(
                    g,
                    lm,
                    queue@.map_values(|e: QueueEntry| e@),
                    visited@,
                    steps@.map_values(|s: TraversalStep| s@),
                    head as int,
                ),
                head <= queue@.len(),
                full == full_walk(g, start as int),
                full == steps@.map_values(|s: TraversalStep| s@) + walk_from(
                    g,
                    visited@,
                    queue@.map_values(|e: QueueEntry| e@),
                    head as int,
                    (g.nodes.len() + 1 - head) as nat,
                ),
            decreases g.nodes.len() - head,
        {
            let ghost qm = queue@.map_values(|e: QueueEntry| e@);
            let ghost sm = steps@.map_values(|s: TraversalStep| s@);
            proof {
                assert(qm[head as int] == queue@[head as int]@);
            }
            let linkref = queue[head].link.clone();
            let side = queue[head].side;
            proof {
                assert(some_link_with(lm, qm[head as int].link));
            }
            let j = match find_link_in(&self.links, &linkref) {
                Some(j) => j,
                None => unreached(),
            };
            proof {
                assert(lm[j as int] == self.links@[j as int]@);
                let jj = link_at(lm, linkref@);
                assert(0 <= jj < lm.len() && lm[jj].id == linkref@);
                assert(jj == j);
            }
            let step = if side == Side::ExploreFromStart {
                TraversalStep {
                    from: self.links[j].end.clone(),
                    link: linkref.clone(),
                    to: self.links[j].start.clone(),
                    forward: false,
                }
            } else {
                TraversalStep {
                    from: self.links[j].start.clone(),
                    link: linkref.clone(),
                    to: self.links[j].end.clone(),
                    forward: true,
                }
            };
            proof {
                assert(step@.to == entry_target(lm, qm[head as int]));
                assert(step_ok(g, step@));
                assert(step@ == step_of(lm, qm[head as int]));
            }
            let next_id = step.to.clone();
            steps.push(step);
            proof {
                assert(steps@.map_values(|s: TraversalStep| s@) =~= sm.push(step@));
                assert(visited@.contains(next_id@));
                assert(g.has_node(next_id@));
            }
            let ni = match self.find_node(&next_id) {
                Some(i) => i,
                None => unreached(),
            };
            proof {
                assert(g.nodes[ni as int] == self.nodes@[ni as int]@);
                assert(g.node_index_of(next_id@) == ni as int) by {
                    let ip = g.node_index_of(next_id@);
                    assert(0 <= ip < g.nodes.len() && g.nodes[ip].id == next_id@);
                }
                assert(node_wired(self.nodes@[ni as int]@, lm)) by {
                    let n = g.nodes[ni as int];
                    assert forall|k: int| 0 <= k < n.outgoing.len() implies some_link_with_start(
                        lm,
                        #[trigger] n.outgoing[k],
                        n.id,
                    ) by {
                        assert(g.link_with_start(n.outgoing[k], n.id));
                    }
                    assert forall|k: int| 0 <= k < n.incoming.len() implies some_link_with_end(
                        lm,
                        #[trigger] n.incoming[k],
                        n.id,
                    ) by {
                        assert(g.link_with_end(n.incoming[k], n.id));
                    }
                }
            }
            let ghost v0 = visited@;
            self.nodes[ni].explore_links(&mut visited, &self.links, &mut queue);
            proof {
                let q1 = queue@.map_values(|e: QueueEntry| e@);
                let v1 = visited@;
                assert(explore_post(lm, qm, q1, v0, v1, g.nodes[ni as int].id));
                // one unfolding of the walk matches this iteration exactly
                assert((v1, q1) == explore_result(lm, g.nodes[ni as int], v0, qm));
                let fuel = (g.nodes.len() + 1 - head) as nat;
                assert(walk_from(g, v0, qm, head as int, fuel) == seq![step@] + walk_from(
                    g,
                    v1,
                    q1,
                    head + 1,
                    (fuel - 1) as nat,
                ));
                assert(sm.push(step@) + walk_from(g, v1, q1, head + 1, (fuel - 1) as nat)
                    =~= sm + (seq![step@] + walk_from(g, v1, q1, head + 1, (fuel - 1) as nat)));
                assert forall|x: Seq<char>| #[trigger] visited@.contains(x) implies g.has_node(
                    x,
                ) by {
                    if !v0.contains(x) && x != g.nodes[ni as int].id {
                        assert(is_link_endpoint(lm, x));
                        let w = choose|w: int|
                            0 <= w < lm.len() && ((#[trigger] lm[w]).start == x || lm[w].end
                                == x);
                        assert(g.links_closed());
                        assert(g.has_node(g.links[w].start) && g.has_node(g.links[w].end));
                    }
                }
                // the new entries' targets stay distinct from the old ones
                assert forall|k1: int, k2: int|
                    0 <= k1 < k2 < q1.len() implies entry_target(lm, #[trigger] q1[k1])
                    != entry_target(lm, #[trigger] q1[k2]) by {
                    lemma_targets_distinct(lm, qm, q1, v0, v1, k1, k2);
                }
                lemma_queue_bound(lm, g, q1, visited@);
            }
            head += 1;
        }
        proof {
            let sm = steps@.map_values(|s: TraversalStep| s@);
            let qm = queue@.map_values(|e: QueueEntry| e@);
            assert(sm.len() == head);
            assert(walk_from(g, visited@, qm, head as int, (g.nodes.len() + 1 - head) as nat)
                =~= Seq::<StepModel>::empty());
            assert(sm + Seq::<StepModel>::empty() =~= sm);
            assert(sm == full_walk(g, start as int));
            assert forall|k1: int, k2: int| 0 <= k1 < k2 < sm.len() implies (
            #[trigger] sm[k1]).to != (#[trigger] sm[k2]).to by {
                assert(sm[k1].to == entry_target(lm, qm[k1]));
                assert(sm[k2].to == entry_target(lm, qm[k2]));
            }
            assert(valid_traversal(g, sm));
        }
        steps
    }
}

/// Relies on rand::thread_rng and rand::Rng::gen_range over `0..n`: a value
/// drawn from a non-empty range lies in that range, whatever the generator
/// yields.
#[verifier::external_body]
fn random_index_below(n: usize) -> (r: usize)
    requires
        n >= 1,
    ensures
        r < n,
{
    rand::thread_rng().gen_range(0..n)
}

impl Graph {
    /// Walk the graph breadth-first from a node chosen at random among all
    /// but the last, failing when the graph has fewer than two nodes:
    /// random selection needs an index in a non-empty sub-range of the node
    /// list.
    pub fn breadth_first(&self) -> (r: Result<Vec<TraversalStep>, GraphError>)
        requires
            self@.wf(),
        ensures
            match r {
                Ok(steps) => self@.nodes.len() >= 2 && valid_traversal(
                    self@,
                    steps@.map_values(|s: TraversalStep| s@),
                ) && (exists|s: int|
                    0 <= s < self@.nodes.len() - 1 && steps@.map_values(|st: TraversalStep| st@)
                        == full_walk(self@, s)),
                Err(e) => self@.nodes.len() < 2 && e == GraphError::TooFewNodes,
            },
    {
        if self.nodes.len() < 2 {
            return Err(GraphError::TooFewNodes);
        }
        let start = random_index_below(self.nodes.len() - 1);
        let steps = self.breadth_first_from(start);
        proof {
            assert(0 <= start < self@.nodes.len() - 1 && steps@.map_values(
                |st: TraversalStep| st@,
            ) == full_walk(self@, start as int));
        }
        Ok(steps)
    }
}

/// A queue whose entries resolve to pairwise-distinct discovered node
/// identifiers is no longer than the node list.
proof fn lemma_queue_bound(
    lm: Seq<LinkModel>,
    g: GraphModel,
    q: Seq<EntryModel>,
    v: Seq<Seq<char>>,
)
    requires
        lm == g.links,
        g.nodes_unique(),
        forall|k1: int, k2: int|
            0 <= k1 < k2 < q.len() ==> entry_target(lm, #[trigger] q[k1]) != entry_target(
                lm,
                #[trigger] q[k2],
            ),
        forall|k: int| 0 <= k < q.len() ==> v.contains(entry_target(lm, #[trigger] q[k])),
        forall|x: Seq<char>| #[trigger] v.contains(x) ==> g.has_node(x),
    ensures
        q.len() <= g.nodes.len(),
{
    let ts = Seq::new(q.len() as nat, |k: int| entry_target(lm, q[k]));
    assert(ts.no_duplicates()) by {
        assert forall|x: int, y: int|
            0 <= x < ts.len() && 0 <= y < ts.len() && x != y implies ts[x] != ts[y] by {
            if x < y {
                assert(entry_target(lm, q[x]) != entry_target(lm, q[y]));
            } else {
                assert(entry_target(lm, q[y]) != entry_target(lm, q[x]));
            }
        }
    }
    assert forall|k: int| 0 <= k < ts.len() implies g.has_node(#[trigger] ts[k]) by {
        assert(v.contains(entry_target(lm, q[k])));
    }
    lemma_distinct_ids_bound(ts, g);
}

/// Any two distinct positions of a queue satisfying the traversal
/// invariants resolve to distinct far endpoints.
proof fn lemma_targets_distinct(
    lm: Seq<LinkModel>,
    q0: Seq<EntryModel>,
    q1: Seq<EntryModel>,
    v0: Seq<Seq<char>>,
    v1: Seq<Seq<char>>,
    x: int,
    y: int,
)
    requires
        explore_post_targets(lm, q0, q1, v0, v1),
        0 <= x < y < q1.len(),
        forall|k1: int, k2: int|
            0 <= k1 < k2 < q0.len() ==> entry_target(lm, #[trigger] q0[k1]) != entry_target(
                lm,
                #[trigger] q0[k2],
            ),
        forall|k: int| 0 <= k < q0.len() ==> v0.contains(entry_target(lm, #[trigger] q0[k])),
    ensures
        entry_target(lm, q1[x]) != entry_target(lm, q1[y]),
{
    if y < q0.len() {
    } else if x < q0.len() {
        assert(v0.contains(entry_target(lm, q1[x])));
        assert(!v0.contains(entry_target(lm, q1[y])));
    }
}

/// The queue-extension part of `explore_post`, as a reusable premise.
pub open spec fn explore_post_targets(
    lm: Seq<LinkModel>,
    q0: Seq<EntryModel>,
    q1: Seq<EntryModel>,
    v0: Seq<Seq<char>>,
    v1: Seq<Seq<char>>,
) -> bool {
    &&& q0.len() <= q1.len()
    &&& (forall|k: int| 0 <= k < q0.len() ==> #[trigger] q1[k] == q0[k])
    &&& (forall|k: int|
        q0.len() <= k < q1.len() ==> !v0.contains(entry_target(lm, #[trigger] q1[k])))
    &&& (forall|k1: int, k2: int|
        q0.len() <= k1 < k2 < q1.len() ==> entry_target(lm, #[trigger] q1[k1]) != entry_target(
            lm,
            #[trigger] q1[k2],
        ))
}

} // verus!
