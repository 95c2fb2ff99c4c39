//! The graph of a trail network: its nodes are the junctions and the ends of
//! ways, and an edge carries a whole stretch between two of them.
use std::collections::HashMap;
use vstd::prelude::*;

use crate::geo::LatLon;
use crate::number::{Real, Single};
use crate::trails::network;
use crate::trails::network::TrailNetwork;
use crate::trails::way::{Snap, Way};

verus! {

broadcast use vstd::std_specs::hash::group_hash_axioms;

/// A cost in milliseconds: an integer, so that it is ordered without surprise.
pub type CostMs = u64;

/// Metres of ascent and of descent, from the start of a stretch to its end.
#[derive(Clone, Copy, Debug, PartialEq, Eq, Structural)]
pub struct Climb {
    pub up: Real,
    pub down: Real,
}

/// A stretch of a way between two nodes of the graph.
#[derive(Clone, Copy, Debug, PartialEq, Eq, Structural)]
pub struct Edge {
    pub a: u32,
    pub b: u32,
    pub way_id: i64,
    /// Where the stretch starts and ends among the points of the way, the start
    /// first.
    pub from: u32,
    pub to: u32,
    pub len_m: Real,
    /// Nothing while the elevations are not there.
    pub climb: Option<Climb>,
}

/// Where a snapped point falls in the graph.
#[derive(Clone, Copy, Debug, PartialEq, Eq, Structural)]
pub struct EdgePos {
    pub edge: u32,
    /// Metres to node `a` of the edge, along the stretch.
    pub to_a_m: Real,
    pub to_b_m: Real,
}

/// A stretch of a way before it is an edge: the way's place in the network and
/// two of its points.
#[derive(Clone, Copy, Debug, PartialEq, Eq, Structural)]
pub struct Stretch {
    pub way: usize,
    pub from: usize,
    pub to: usize,
}

// ---------------------------------------------------------------------------
// Where ways are cut
// ---------------------------------------------------------------------------

/// How often an id occurs.
pub open spec fn occurrences(nodes: Seq<i64>, id: i64) -> nat
    decreases nodes.len(),
{
    if nodes.len() == 0 {
        0
    } else {
        occurrences(nodes.drop_last(), id) + if nodes.last() == id {
            1nat
        } else {
            0nat
        }
    }
}

/// How often an id occurs on some ways.
pub open spec fn total_occurrences(ways: Seq<Way>, id: i64) -> nat
    decreases ways.len(),
{
    if ways.len() == 0 {
        0
    } else {
        total_occurrences(ways.drop_last(), id) + occurrences(ways.last().nodes@, id)
    }
}

/// Each point of a way has an identity.
pub open spec fn aligned(w: Way) -> bool {
    w.nodes@.len() == w.points@.len()
}

/// A way is cut at a point whose node occurs more than once, and at its end.
pub open spec fn is_cut(ways: Seq<Way>, w: Way, i: int) -> bool {
    total_occurrences(ways, w.nodes@[i]) > 1 || i == w.points@.len() - 1
}

/// The last cut up to a point, or the start of the way.
pub open spec fn last_cut(ways: Seq<Way>, w: Way, i: int) -> int
    decreases i,
{
    if i <= 0 {
        0
    } else if is_cut(ways, w, i) {
        i
    } else {
        last_cut(ways, w, i - 1)
    }
}

/// The stretches of a way up to a point.
pub open spec fn stretches_to(ways: Seq<Way>, k: int, i: int) -> Seq<Stretch>
    decreases i,
{
    if i <= 0 {
        seq![]
    } else if is_cut(ways, ways[k], i) {
        stretches_to(ways, k, i - 1).push(
            Stretch {
                way: k as usize,
                from: last_cut(ways, ways[k], i - 1) as usize,
                to: i as usize,
            },
        )
    } else {
        stretches_to(ways, k, i - 1)
    }
}

/// The stretches of the first `count` ways. A way whose points have no identity
/// each is left out.
pub open spec fn stretches_of(ways: Seq<Way>, count: nat) -> Seq<Stretch>
    decreases count,
{
    if count == 0 {
        seq![]
    } else {
        let k = count - 1;
        stretches_of(ways, k as nat) + if aligned(ways[k]) {
            stretches_to(ways, k, ways[k].points@.len() - 1)
        } else {
            seq![]
        }
    }
}

/// The stretches of all ways.
pub open spec fn all_stretches(ways: Seq<Way>) -> Seq<Stretch> {
    stretches_of(ways, ways.len())
}

// ---------------------------------------------------------------------------
// The graph that stretches make
// ---------------------------------------------------------------------------

/// The first place of an id.
pub open spec fn first_at(ids: Seq<i64>, id: i64) -> Option<int>
    decreases ids.len(),
{
    if ids.len() == 0 {
        None
    } else {
        match first_at(ids.drop_last(), id) {
            Some(i) => Some(i),
            None => if ids.last() == id {
                Some(ids.len() - 1)
            } else {
                None
            },
        }
    }
}

/// What a graph stands for: the ids of its nodes, their positions, and its edges.
#[verifier::ext_equal]
pub struct Shape {
    pub ids: Seq<i64>,
    pub nodes: Seq<LatLon>,
    pub edges: Seq<Edge>,
}

/// A graph with a node for an id, which is new only where there was none.
pub open spec fn with_node(s: Shape, id: i64, pos: LatLon) -> Shape {
    if first_at(s.ids, id) is Some {
        s
    } else {
        Shape { ids: s.ids.push(id), nodes: s.nodes.push(pos), edges: s.edges }
    }
}

/// A graph with an edge for a stretch. A stretch without a length adds nothing,
/// and one that ends where it starts adds no edge.
pub open spec fn with_stretch(s: Shape, ways: Seq<Way>, st: Stretch, len_m: Real) -> Shape {
    let w = ways[st.way as int];
    if !(Real { bits: 0 }).below(len_m) {
        s
    } else {
        let s1 = with_node(s, w.nodes@[st.from as int], w.points@[st.from as int]);
        let s2 = with_node(s1, w.nodes@[st.to as int], w.points@[st.to as int]);
        let a = first_at(s2.ids, w.nodes@[st.from as int])->0;
        let b = first_at(s2.ids, w.nodes@[st.to as int])->0;
        if a == b {
            s2
        } else {
            Shape {
                edges: s2.edges.push(
                    Edge {
                        a: a as u32,
                        b: b as u32,
                        way_id: w.id,
                        from: st.from as u32,
                        to: st.to as u32,
                        len_m,
                        climb: None,
                    },
                ),
                ..s2
            }
        }
    }
}

/// The graph of some stretches, each with its length.
pub open spec fn shape_of(ways: Seq<Way>, stretches: Seq<Stretch>, lengths: Seq<Real>) -> Shape
    decreases stretches.len(),
{
    if stretches.len() == 0 {
        Shape { ids: seq![], nodes: seq![], edges: seq![] }
    } else {
        with_stretch(
            shape_of(ways, stretches.drop_last(), lengths),
            ways,
            stretches.last(),
            lengths[stretches.len() - 1],
        )
    }
}

/// The edges at a node, in their order.
pub open spec fn incident(edges: Seq<Edge>, n: int) -> Seq<u32>
    decreases edges.len(),
{
    if edges.len() == 0 {
        seq![]
    } else {
        let rest = incident(edges.drop_last(), n);
        if edges.last().a == n || edges.last().b == n {
            rest.push((edges.len() - 1) as u32)
        } else {
            rest
        }
    }
}

/// The edges of a way, in their order.
pub open spec fn edges_of_way(edges: Seq<Edge>, way_id: i64) -> Seq<u32>
    decreases edges.len(),
{
    if edges.len() == 0 {
        seq![]
    } else {
        let rest = edges_of_way(edges.drop_last(), way_id);
        if edges.last().way_id == way_id {
            rest.push((edges.len() - 1) as u32)
        } else {
            rest
        }
    }
}

/// The edges join nodes that there are, never a node with itself, and run
/// forward on their way.
pub open spec fn edges_ok(edges: Seq<Edge>, nodes: nat) -> bool {
    &&& edges.len() <= u32::MAX
    &&& forall|e: int|
        0 <= e < edges.len() ==> (#[trigger] edges[e]).a < nodes && edges[e].b < nodes && edges[e].a
            != edges[e].b && edges[e].from < edges[e].to
}

/// The points of the edges are points of the ways they name.
pub open spec fn edges_on(edges: Seq<Edge>, ways: Seq<Way>) -> bool {
    forall|e: int|
        0 <= e < edges.len() ==> {
            &&& network::place_of(ways, (#[trigger] edges[e]).way_id) is Some
            &&& edges[e].to < ways[network::place_of(ways, edges[e].way_id)->0].points@.len()
        }
}

/// The ends of an edge, each with the cost of getting there.
pub open spec fn sources_at(e: Edge, to_a_ms: CostMs, to_b_ms: CostMs) -> Seq<(u32, CostMs)> {
    seq![(e.a, to_a_ms), (e.b, to_b_ms)]
}

/// The trail graph.
pub struct Graph {
    /// Position of each node.
    pub nodes: Vec<LatLon>,
    /// Node id to its place.
    osm_to_node: HashMap<i64, u32>,
    pub edges: Vec<Edge>,
    /// Node to the edges at it.
    adj: Vec<Vec<u32>>,
    /// Way to its edges.
    by_way: HashMap<i64, Vec<u32>>,
    /// The ids of the nodes.
    ids: Ghost<Seq<i64>>,
}

impl Default for Graph {
    fn default() -> (g: Self)
        ensures
            g.wf(),
            g.shape() == (Shape { ids: seq![], nodes: seq![], edges: seq![] }),
    {
        Graph {
            nodes: Vec::new(),
            osm_to_node: HashMap::new(),
            edges: Vec::new(),
            adj: Vec::new(),
            by_way: HashMap::new(),
            ids: Ghost(Seq::empty()),
        }
    }
}

impl Graph {
    /// What the graph stands for.
    pub closed spec fn shape(&self) -> Shape {
        Shape { ids: self.ids@, nodes: self.nodes@, edges: self.edges@ }
    }

    closed spec fn held_edges(&self, way_id: i64) -> Seq<u32> {
        if self.by_way@.contains_key(way_id) {
            self.by_way@[way_id]@
        } else {
            seq![]
        }
    }

    /// The lookups agree with the nodes and the edges.
    pub closed spec fn wf(&self) -> bool {
        &&& self.ids@.len() == self.nodes@.len()
        &&& self.adj@.len() == self.nodes@.len()
        &&& self.nodes@.len() <= u32::MAX
        &&& edges_ok(self.edges@, self.nodes@.len())
        &&& forall|id: i64| #[trigger]
            self.osm_to_node@.contains_key(id) <==> first_at(self.ids@, id) is Some
        &&& forall|id: i64| #[trigger]
            self.osm_to_node@.contains_key(id) ==> first_at(self.ids@, id) == Some(
                self.osm_to_node@[id] as int,
            )
        &&& forall|n: int|
            0 <= n < self.adj@.len() ==> (#[trigger] self.adj@[n])@ == incident(self.edges@, n)
        &&& forall|w: i64| #[trigger] self.held_edges(w) == edges_of_way(self.edges@, w)
        &&& forall|w: i64| #[trigger]
            self.by_way@.contains_key(w) ==> self.by_way@[w]@.len() > 0
    }

    /// What is known of a graph in good order.
    pub proof fn lemma_wf(&self)
        requires
            self.wf(),
        ensures
            self.shape().ids.len() == self.shape().nodes.len(),
            self.shape().nodes.len() <= u32::MAX,
            edges_ok(self.shape().edges, self.shape().nodes.len()),
    {
    }

    pub fn is_empty(&self) -> (b: bool)
        ensures
            b == (self.shape().edges.len() == 0),
    {
        self.edges.len() == 0
    }

    pub fn node_count(&self) -> (n: usize)
        ensures
            n == self.shape().nodes.len(),
    {
        self.nodes.len()
    }

    /// How many edges there are.
    pub fn edge_count(&self) -> (n: usize)
        ensures
            n == self.shape().edges.len(),
    {
        self.edges.len()
    }

    /// The edge at a place.
    pub fn edge(&self, e: u32) -> (r: Edge)
        requires
            e < self.shape().edges.len(),
        ensures
            r == self.shape().edges[e as int],
    {
        self.edges[e as usize]
    }

    /// The position of a node.
    pub fn position(&self, n: u32) -> (p: LatLon)
        requires
            n < self.shape().nodes.len(),
        ensures
            p == self.shape().nodes[n as int],
    {
        self.nodes[n as usize]
    }

    /// The edges at a node.
    pub fn edges_at(&self, n: u32) -> (r: &Vec<u32>)
        requires
            self.wf(),
            n < self.shape().nodes.len(),
        ensures
            r@ == incident(self.shape().edges, n as int),
    {
        &self.adj[n as usize]
    }

    /// The node of an id.
    pub fn node_of(&self, id: i64) -> (r: Option<u32>)
        requires
            self.wf(),
        ensures
            match r {
                Some(n) => first_at(self.shape().ids, id) == Some(n as int),
                None => first_at(self.shape().ids, id) is None,
            },
    {
        match self.osm_to_node.get(&id) {
            Some(n) => Some(*n),
            None => None,
        }
    }

    /// The node of an id, which is made where there is none.
    fn node(&mut self, id: i64, pos: LatLon) -> (n: u32)
        requires
            old(self).wf(),
            old(self).shape().nodes.len() < u32::MAX,
        ensures
            final(self).wf(),
            final(self).shape() == with_node(old(self).shape(), id, pos),
            first_at(final(self).shape().ids, id) == Some(n as int),
            n < final(self).shape().nodes.len(),
    {
        let ghost was = *self;
        if let Some(n) = self.osm_to_node.get(&id) {
            let n: u32 = *n;
            proof {
                assert(self.osm_to_node@.contains_key(id));
                lemma_first_at(self.ids@, id);
            }
            return n;
        }
        let n: u32 = self.nodes.len() as u32;
        self.nodes.push(pos);
        let none: Vec<u32> = Vec::new();
        self.adj.push(none);
        self.osm_to_node.insert(id, n);
        self.ids = Ghost(self.ids@.push(id));
        proof {
            assert(!was.osm_to_node@.contains_key(id));
            assert(self.ids@.drop_last() =~= was.ids@);
            lemma_incident_none(self.edges@, n as int, n as nat);
            assert forall|k: int| 0 <= k < self.adj@.len() implies (#[trigger] self.adj@[k])@
                == incident(self.edges@, k) by {
                if k < was.adj@.len() {
                    assert(self.adj@[k] == was.adj@[k]);
                }
            }
            assert forall|w: i64| #[trigger] self.held_edges(w) == edges_of_way(self.edges@, w) by {
                assert(self.held_edges(w) == was.held_edges(w));
            }
            assert forall|i: i64| #[trigger] self.osm_to_node@.contains_key(i) <==> first_at(
                self.ids@,
                i,
            ) is Some by {
                if i != id {
                    assert(was.osm_to_node@.contains_key(i) <==> first_at(was.ids@, i) is Some);
                }
            }
            assert forall|i: i64| #[trigger] self.osm_to_node@.contains_key(i) implies first_at(
                self.ids@,
                i,
            ) == Some(self.osm_to_node@[i] as int) by {
                if i != id {
                    assert(was.osm_to_node@.contains_key(i));
                }
            }
        }
        n
    }

    /// Adds an edge between two nodes.
    fn push_edge(&mut self, edge: Edge)
        requires
            old(self).wf(),
            edge.a < old(self).shape().nodes.len(),
            edge.b < old(self).shape().nodes.len(),
            edge.a != edge.b,
            edge.from < edge.to,
            old(self).shape().edges.len() < u32::MAX,
        ensures
            final(self).wf(),
            final(self).shape() == (Shape {
                edges: old(self).shape().edges.push(edge),
                ..old(self).shape()
            }),
    {
        let ghost was = *self;
        let idx: u32 = self.edges.len() as u32;
        let a: usize = edge.a as usize;
        let b: usize = edge.b as usize;
        self.adj[a].push(idx);
        self.adj[b].push(idx);
        let mut list: Vec<u32> = match self.by_way.remove(&edge.way_id) {
            Some(v) => v,
            None => Vec::new(),
        };
        list.push(idx);
        self.by_way.insert(edge.way_id, list);
        self.edges.push(edge);
        proof {
            assert(self.edges@.drop_last() =~= was.edges@);
            assert forall|n: int| 0 <= n < self.adj@.len() implies (#[trigger] self.adj@[n])@
                == incident(self.edges@, n) by {
                assert(was.adj@[n]@ == incident(was.edges@, n));
                assert(self.adj@[n]@ =~= incident(self.edges@, n));
            }
            assert forall|w: i64| #[trigger] self.held_edges(w) == edges_of_way(self.edges@, w) by {
                assert(was.held_edges(w) == edges_of_way(was.edges@, w));
                assert(self.held_edges(w) =~= edges_of_way(self.edges@, w));
            }
            assert forall|e: int| 0 <= e < self.edges@.len() implies (#[trigger] self.edges@[e]).a
                < self.nodes@.len() && self.edges@[e].b < self.nodes@.len() && self.edges@[e].a
                != self.edges@[e].b && self.edges@[e].from < self.edges@[e].to by {
                if e < was.edges@.len() {
                    assert(self.edges@[e] == was.edges@[e]);
                }
            }
        }
    }

    /// Adds a stretch of a way.
    fn push_stretch(&mut self, ways: &Vec<Way>, st: Stretch, len_m: Real)
        requires
            old(self).wf(),
            st.way < ways@.len(),
            aligned(ways@[st.way as int]),
            st.from < st.to,
            st.to < ways@[st.way as int].points@.len(),
            st.to <= u32::MAX,
            old(self).shape().nodes.len() + 2 <= u32::MAX,
            old(self).shape().edges.len() < u32::MAX,
        ensures
            final(self).wf(),
            final(self).shape() == with_stretch(old(self).shape(), ways@, st, len_m),
    {
        let zero = Real { bits: 0 };
        if !zero.lt(len_m) {
            return ;
        }
        let w = &ways[st.way];
        let a: u32 = self.node(w.nodes[st.from], w.points[st.from]);
        let ghost mid = self.shape();
        let b: u32 = self.node(w.nodes[st.to], w.points[st.to]);
        proof {
            if self.shape().ids != mid.ids {
                assert(self.shape().ids.drop_last() =~= mid.ids);
            }
            lemma_first_at_kept(mid.ids, self.shape().ids, w.nodes@[st.from as int]);
        }
        if a != b {
            self.push_edge(
                Edge {
                    a,
                    b,
                    way_id: w.id,
                    from: st.from as u32,
                    to: st.to as u32,
                    len_m,
                    climb: None,
                },
            );
        }
    }

    /// Builds the graph of a network, given the length of each of its stretches.
    pub fn build(net: &TrailNetwork, lengths: &Vec<Real>) -> (g: Self)
        requires
            net.wf(),
            lengths@.len() == all_stretches(net.list()).len(),
            2 * lengths@.len() + 2 <= u32::MAX,
            forall|k: int|
                0 <= k < net.list().len() ==> (#[trigger] net.list()[k]).points@.len() <= u32::MAX,
        ensures
            g.wf(),
            g.shape() == shape_of(net.list(), all_stretches(net.list()), lengths@),
            edges_on(g.shape().edges, net.list()),
    {
        let ways = net.ways();
        let list = stretches(net);
        let mut g = Graph::default();
        let mut i: usize = 0;
        proof {
            net.lemma_wf();
        }
        while i < list.len()
            invariant
                net.wf(),
                ways@ == net.list(),
                list@ == all_stretches(ways@),
                lengths@.len() == list@.len(),
                2 * lengths@.len() + 2 <= u32::MAX,
                i <= list@.len(),
                forall|k: int| 0 <= k < list@.len() ==> stretch_ok(ways@, #[trigger] list@[k]),
                forall|k: int|
                    0 <= k < ways@.len() ==> 2 <= (#[trigger] ways@[k]).points@.len() <= u32::MAX,
                g.wf(),
                g.shape() == shape_of(ways@, list@.take(i as int), lengths@),
                g.shape().nodes.len() <= 2 * i,
                g.shape().edges.len() <= i,
                edges_on(g.shape().edges, ways@),
                forall|k: int|
                    0 <= k < ways@.len() ==> network::place_of(
                        ways@,
                        (#[trigger] ways@[k]).id,
                    ) == Some(k),
            decreases list@.len() - i,
        {
            assert(list@.take(i + 1).drop_last() =~= list@.take(i as int));
            assert(stretch_ok(ways@, list@[i as int]));
            let ghost before = g.shape();
            g.push_stretch(ways, list[i], lengths[i]);
            proof {
                let w = ways@[list@[i as int].way as int];
                assert forall|e: int| 0 <= e < g.shape().edges.len() implies {
                    &&& network::place_of(ways@, (#[trigger] g.shape().edges[e]).way_id) is Some
                    &&& g.shape().edges[e].to < ways@[network::place_of(
                        ways@,
                        g.shape().edges[e].way_id,
                    )->0].points@.len()
                } by {
                    if e < before.edges.len() {
                        assert(g.shape().edges[e] == before.edges[e]);
                    } else {
                        assert(network::place_of(ways@, w.id) is Some);
                    }
                }
            }
            i = i + 1;
        }
        assert(list@.take(i as int) =~= list@);
        g
    }

    /// The edges whose climb is still missing, of ways that are there.
    pub fn missing_climbs(&self, net: &TrailNetwork) -> (v: Vec<u32>)
        requires
            self.wf(),
            net.wf(),
        ensures
            v@ == missing(self.shape().edges, net.list()),
    {
        let mut out: Vec<u32> = Vec::new();
        let mut e: usize = 0;
        while e < self.edges.len()
            invariant
                self.wf(),
                net.wf(),
                e <= self.edges@.len(),
                out@ == missing(self.edges@.take(e as int), net.list()),
            decreases self.edges@.len() - e,
        {
            assert(self.edges@.take(e + 1).drop_last() =~= self.edges@.take(e as int));
            let edge: Edge = self.edges[e];
            if edge.climb.is_none() && net.way_by_id(edge.way_id).is_some() {
                out.push(e as u32);
            }
            e = e + 1;
        }
        assert(self.edges@.take(e as int) =~= self.edges@);
        out
    }

    /// Fills in the climbs that were found, and tells whether every edge has one
    /// now.
    pub fn fill_climbs(&mut self, edges: &Vec<u32>, found: &Vec<Option<Climb>>) -> (
        complete: bool)
        requires
            old(self).wf(),
            edges@.len() == found@.len(),
            forall|k: int|
                0 <= k < edges@.len() ==> #[trigger] edges@[k] < old(self).shape().edges.len(),
        ensures
            final(self).wf(),
            final(self).shape() == (Shape {
                edges: filled(old(self).shape().edges, edges@, found@),
                ..old(self).shape()
            }),
            complete == climbs_known(final(self).shape().edges),
    {
        let ghost was = *self;
        let mut k: usize = 0;
        while k < edges.len()
            invariant
                was == *old(self),
                was.wf(),
                edges@.len() == found@.len(),
                forall|j: int|
                    0 <= j < edges@.len() ==> #[trigger] edges@[j] < was.edges@.len(),
                k <= edges@.len(),
                self.nodes == was.nodes,
                self.osm_to_node == was.osm_to_node,
                self.adj == was.adj,
                self.by_way == was.by_way,
                self.ids == was.ids,
                self.edges@.len() == was.edges@.len(),
                self.edges@ == filled(was.edges@, edges@.take(k as int), found@),
                same_but_climb(self.edges@, was.edges@),
            decreases edges@.len() - k,
        {
            assert(edges@.take(k + 1).drop_last() =~= edges@.take(k as int));
            match found[k] {
                Some(climb) => {
                    let e: usize = edges[k] as usize;
                    let edge: Edge = self.edges[e];
                    self.edges[e] = Edge { climb: Some(climb), ..edge };
                },
                None => {},
            }
            k = k + 1;
        }
        assert(edges@.take(k as int) =~= edges@);
        proof {
            lemma_same_but_climb(self.edges@, was.edges@);
            assert forall|w: i64| #[trigger] self.held_edges(w) == edges_of_way(self.edges@, w) by {
                assert(was.held_edges(w) == edges_of_way(was.edges@, w));
            }
            assert forall|n: int| 0 <= n < self.adj@.len() implies (#[trigger] self.adj@[n])@
                == incident(self.edges@, n) by {
                assert(was.adj@[n]@ == incident(was.edges@, n));
            }
            assert(edges_ok(self.edges@, self.nodes@.len()));
        }
        let mut complete: bool = true;
        let mut e: usize = 0;
        while e < self.edges.len()
            invariant
                e <= self.edges@.len(),
                complete == (forall|j: int|
                    0 <= j < e ==> (#[trigger] self.edges@[j]).climb is Some),
            decreases self.edges@.len() - e,
        {
            if self.edges[e].climb.is_none() {
                assert(self.edges@[e as int].climb is None);
                complete = false;
            }
            e = e + 1;
        }
        complete
    }

    /// Two sources: the ends of the edge one stands on, each with the cost of the
    /// part that leads to it.
    pub fn sources_from(&self, pos: &EdgePos, to_a_ms: CostMs, to_b_ms: CostMs) -> (v: Vec<
        (u32, CostMs),
    >)
        requires
            pos.edge < self.shape().edges.len(),
        ensures
            v@ == sources_at(self.shape().edges[pos.edge as int], to_a_ms, to_b_ms),
    {
        let e: Edge = self.edge(pos.edge);
        let mut v: Vec<(u32, CostMs)> = Vec::new();
        v.push((e.a, to_a_ms));
        v.push((e.b, to_b_ms));
        v
    }

    /// The edge that carries a snapped point: the one whose stretch holds its
    /// segment, or else the first of its way.
    pub fn locate(&self, net: &TrailNetwork, snap: &Snap) -> (r: Option<u32>)
        requires
            self.wf(),
            net.wf(),
        ensures
            r == located(self.shape().edges, net.list(), *snap),
            r matches Some(e) ==> e < self.shape().edges.len(),
    {
        if net.way_by_id(snap.way_id).is_none() {
            return None;
        }
        let ghost list_spec = edges_of_way(self.edges@, snap.way_id);
        assert(self.held_edges(snap.way_id) == list_spec);
        let list = match self.by_way.get(&snap.way_id) {
            Some(v) => v,
            None => {
                return None;
            },
        };
        assert(self.by_way@.contains_key(snap.way_id));
        proof {
            lemma_edges_of_way(self.edges@, snap.way_id);
        }
        let mut k: usize = 0;
        while k < list.len()
            invariant
                self.wf(),
                list@ == edges_of_way(self.edges@, snap.way_id),
                k <= list@.len(),
                forall|j: int| 0 <= j < list@.len() ==> #[trigger] list@[j] < self.edges@.len(),
                forall|j: int|
                    0 <= j < k ==> !carries(self.edges@[#[trigger] list@[j] as int], snap.seg as int),
                first_carrying(self.edges@, list@, snap.seg as int) == first_carrying(
                    self.edges@,
                    list@.skip(k as int),
                    snap.seg as int,
                ) || k == 0,
                network::place_of(net.list(), snap.way_id) is Some,
            decreases list@.len() - k,
        {
            let e: u32 = list[k];
            let edge: Edge = self.edges[e as usize];
            assert(list@.skip(0) =~= list@);
            assert(list@.skip(k as int).skip(1) =~= list@.skip(k + 1));
            assert(list@.skip(k as int)[0] == e);
            if snap.seg >= edge.from as usize && snap.seg < edge.to as usize {
                return Some(e);
            }
            k = k + 1;
        }
        assert(list@.skip(0) =~= list@);
        assert(first_carrying(self.edges@, list@.skip(k as int), snap.seg as int) is None);
        Some(list[0])
    }
}

/// Whether the stretch of an edge holds a segment.
pub open spec fn carries(edge: Edge, seg: int) -> bool {
    edge.from <= seg < edge.to
}

/// The first of some edges whose stretch holds a segment.
pub open spec fn first_carrying(edges: Seq<Edge>, list: Seq<u32>, seg: int) -> Option<u32>
    decreases list.len(),
{
    if list.len() == 0 {
        None
    } else if carries(edges[list[0] as int], seg) {
        Some(list[0])
    } else {
        first_carrying(edges, list.skip(1), seg)
    }
}

/// The edge that carries a snapped point.
pub open spec fn located(edges: Seq<Edge>, ways: Seq<Way>, snap: Snap) -> Option<u32> {
    let list = edges_of_way(edges, snap.way_id);
    if network::place_of(ways, snap.way_id) is None || list.len() == 0 {
        None
    } else {
        match first_carrying(edges, list, snap.seg as int) {
            Some(e) => Some(e),
            None => Some(list[0]),
        }
    }
}

/// The edges whose climb is missing, of ways that are there.
pub open spec fn missing(edges: Seq<Edge>, ways: Seq<Way>) -> Seq<u32>
    decreases edges.len(),
{
    if edges.len() == 0 {
        seq![]
    } else {
        let rest = missing(edges.drop_last(), ways);
        if edges.last().climb is None && network::place_of(ways, edges.last().way_id) is Some {
            rest.push((edges.len() - 1) as u32)
        } else {
            rest
        }
    }
}

/// Every edge has its climb.
pub open spec fn climbs_known(edges: Seq<Edge>) -> bool {
    forall|e: int| 0 <= e < edges.len() ==> (#[trigger] edges[e]).climb is Some
}

/// The edges with the climbs that were found for some of them.
pub open spec fn filled(
    edges: Seq<Edge>,
    which: Seq<u32>,
    found: Seq<Option<Climb>>,
) -> Seq<Edge>
    decreases which.len(),
{
    if which.len() == 0 {
        edges
    } else {
        let rest = filled(edges, which.drop_last(), found);
        let e = which.last() as int;
        match found[which.len() - 1] {
            Some(climb) => rest.update(e, Edge { climb: Some(climb), ..rest[e] }),
            None => rest,
        }
    }
}

/// Climbs and descents added up from point to point: a rise is added to the one,
/// anything else is taken from the other.
pub open spec fn climb_sums<
    D: Fn(Single, Single) -> Single,
    R: Fn(Single, Single) -> Single,
    F: Fn(Single, Single) -> Single,
>(
    elevs: Seq<Single>,
    diff: D,
    rise: R,
    fall: F,
    diffs: Seq<Single>,
    ups: Seq<Single>,
    downs: Seq<Single>,
) -> bool {
    &&& diffs.len() == elevs.len()
    &&& ups.len() == elevs.len()
    &&& downs.len() == elevs.len()
    &&& elevs.len() > 0 ==> ups[0] == (Single { bits: 0 }) && downs[0] == (Single { bits: 0 })
    &&& forall|i: int|
        1 <= i < elevs.len() ==> call_ensures(
            diff,
            (elevs[i], elevs[i - 1]),
            #[trigger] diffs[i],
        ) && if (Single { bits: 0 }).below(diffs[i]) {
            call_ensures(rise, (ups[i - 1], diffs[i]), ups[i]) && downs[i] == downs[i - 1]
        } else {
            call_ensures(fall, (downs[i - 1], diffs[i]), downs[i]) && ups[i] == ups[i - 1]
        }
}

/// The climb and the descent of a stretch, from the elevations of its points.
pub open spec fn climb_is<
    D: Fn(Single, Single) -> Single,
    R: Fn(Single, Single) -> Single,
    F: Fn(Single, Single) -> Single,
>(
    elevs: Seq<Single>,
    diff: D,
    rise: R,
    fall: F,
    climb: (Single, Single),
) -> bool {
    if elevs.len() == 0 {
        climb == (Single { bits: 0 }, Single { bits: 0 })
    } else {
        exists|diffs: Seq<Single>, ups: Seq<Single>, downs: Seq<Single>| #[trigger]
            climb_sums(elevs, diff, rise, fall, diffs, ups, downs) && climb == (
                ups.last(),
                downs.last(),
            )
    }
}

/// Climb and descent along some points, in that order; nothing while an elevation
/// is missing. `diff` takes one elevation from another, `rise` adds a rise to the
/// climb so far, and `fall` takes a fall from the descent so far.
pub fn climb_of<
    D: Fn(Single, Single) -> Single,
    R: Fn(Single, Single) -> Single,
    F: Fn(Single, Single) -> Single,
>(elevs: &Vec<Option<Single>>, diff: D, rise: R, fall: F) -> (r: Option<(Single, Single)>)
    requires
        forall|a: Single, b: Single| call_requires(diff, (a, b)),
        forall|a: Single, b: Single| call_requires(rise, (a, b)),
        forall|a: Single, b: Single| call_requires(fall, (a, b)),
    ensures
        r is Some <==> forall|i: int| 0 <= i < elevs@.len() ==> #[trigger] elevs@[i] is Some,
        r matches Some(climb) ==> climb_is(
            Seq::new(elevs@.len(), |i: int| elevs@[i]->0),
            diff,
            rise,
            fall,
            climb,
        ),
{
    let nought = Single { bits: 0 };
    let mut up = nought;
    let mut down = nought;
    let mut last: Option<Single> = None;
    let ghost all = Seq::new(elevs@.len(), |i: int| elevs@[i]->0);
    let ghost mut diffs: Seq<Single> = seq![];
    let ghost mut ups: Seq<Single> = seq![];
    let ghost mut downs: Seq<Single> = seq![];
    let mut i: usize = 0;
    while i < elevs.len()
        invariant
            nought == (Single { bits: 0 }),
            forall|a: Single, b: Single| call_requires(diff, (a, b)),
            forall|a: Single, b: Single| call_requires(rise, (a, b)),
            forall|a: Single, b: Single| call_requires(fall, (a, b)),
            i <= elevs@.len(),
            all == Seq::new(elevs@.len(), |i: int| elevs@[i]->0),
            forall|k: int| 0 <= k < i ==> #[trigger] elevs@[k] is Some,
            climb_sums(all.take(i as int), diff, rise, fall, diffs, ups, downs),
            last is None <==> i == 0,
            last matches Some(e) ==> e == all[i - 1],
            i == 0 ==> up == nought && down == nought,
            i > 0 ==> up == ups.last() && down == downs.last(),
        decreases elevs@.len() - i,
    {
        let here: Single = match elevs[i] {
            Some(e) => e,
            None => {
                return None;
            },
        };
        let ghost was = (diffs, ups, downs);
        match last {
            Some(before) => {
                let d: Single = diff(here, before);
                if nought.lt(d) {
                    up = rise(up, d);
                } else {
                    down = fall(down, d);
                }
                proof {
                    diffs = diffs.push(d);
                }
            },
            None => {
                proof {
                    diffs = diffs.push(nought);
                }
            },
        }
        proof {
            ups = ups.push(up);
            downs = downs.push(down);
            let now = all.take(i + 1);
            assert forall|k: int| 1 <= k < now.len() implies call_ensures(
                diff,
                (now[k], now[k - 1]),
                #[trigger] diffs[k],
            ) && if (Single { bits: 0 }).below(diffs[k]) {
                call_ensures(rise, (ups[k - 1], diffs[k]), ups[k]) && downs[k] == downs[k - 1]
            } else {
                call_ensures(fall, (downs[k - 1], diffs[k]), downs[k]) && ups[k] == ups[k - 1]
            } by {
                if k < i {
                    let then = all.take(i as int);
                    assert(diffs[k] == was.0[k]);
                    assert(then[k] == now[k] && then[k - 1] == now[k - 1]);
                    assert(ups[k] == was.1[k] && ups[k - 1] == was.1[k - 1]);
                    assert(downs[k] == was.2[k] && downs[k - 1] == was.2[k - 1]);
                }
            }
        }
        last = Some(here);
        i = i + 1;
    }
    assert(all.take(i as int) =~= all);
    Some((up, down))
}

/// Filling in what is missing leaves the climbs that were known, gives each edge
/// that was missing its own what was found for it, and changes nothing else.
pub proof fn law_only_missing_climbs_change(
    edges: Seq<Edge>,
    ways: Seq<Way>,
    found: Seq<Option<Climb>>,
    e: int,
)
    requires
        edges.len() <= u32::MAX,
        found.len() == missing(edges, ways).len(),
        0 <= e < edges.len(),
    ensures
        filled(edges, missing(edges, ways), found).len() == edges.len(),
        edges[e].climb is Some || network::place_of(ways, edges[e].way_id) is None
            ==> filled(edges, missing(edges, ways), found)[e] == edges[e],
        forall|k: int|
            0 <= k < found.len() && #[trigger] missing(edges, ways)[k] == e ==> filled(
                edges,
                missing(edges, ways),
                found,
            )[e] == (Edge { climb: found[k], ..edges[e] }),
{
    let which = missing(edges, ways);
    lemma_missing(edges, ways);
    lemma_filled_len(edges, which, found);
    if edges[e].climb is Some || network::place_of(ways, edges[e].way_id) is None {
        lemma_filled_at(edges, which, found, e, -1);
    }
    assert forall|k: int| 0 <= k < found.len() && #[trigger] which[k] == e implies filled(
        edges,
        which,
        found,
    )[e] == (Edge { climb: found[k], ..edges[e] }) by {
        lemma_filled_at(edges, which, found, e, k);
    }
}

/// What is missing is listed once each, in order.
proof fn lemma_missing(edges: Seq<Edge>, ways: Seq<Way>)
    requires
        edges.len() <= u32::MAX,
    ensures
        forall|k: int|
            0 <= k < missing(edges, ways).len() ==> {
                let e = #[trigger] missing(edges, ways)[k];
                &&& e < edges.len()
                &&& edges[e as int].climb is None
                &&& network::place_of(ways, edges[e as int].way_id) is Some
            },
        forall|j: int, k: int|
            0 <= j < k < missing(edges, ways).len() ==> #[trigger] missing(edges, ways)[j]
                < #[trigger] missing(edges, ways)[k],
    decreases edges.len(),
{
    if edges.len() > 0 {
        let less = edges.drop_last();
        lemma_missing(less, ways);
        let rest = missing(less, ways);
        let all = missing(edges, ways);
        assert forall|k: int| 0 <= k < all.len() implies {
            let e = #[trigger] all[k];
            &&& e < edges.len()
            &&& edges[e as int].climb is None
            &&& network::place_of(ways, edges[e as int].way_id) is Some
        } by {
            if k < rest.len() {
                assert(all[k] == rest[k]);
                assert(less[rest[k] as int] == edges[rest[k] as int]);
            }
        }
        assert forall|j: int, k: int| 0 <= j < k < all.len() implies #[trigger] all[j]
            < #[trigger] all[k] by {
            assert(all[j] == rest[j]);
            if k < rest.len() {
                assert(all[k] == rest[k]);
            }
        }
    }
}

/// One edge among those filled in: it stands at place `k` of the list, or nowhere.
proof fn lemma_filled_at(
    edges: Seq<Edge>,
    which: Seq<u32>,
    found: Seq<Option<Climb>>,
    e: int,
    k: int,
)
    requires
        0 <= e < edges.len(),
        which.len() <= found.len(),
        forall|j: int| 0 <= j < which.len() ==> #[trigger] which[j] < edges.len(),
        forall|j: int| 0 <= j < which.len() ==> (#[trigger] which[j] == e <==> j == k),
        0 <= k < which.len() ==> edges[e].climb is None,
    ensures
        filled(edges, which, found)[e] == if 0 <= k < which.len() {
            Edge { climb: found[k], ..edges[e] }
        } else {
            edges[e]
        },
    decreases which.len(),
{
    if which.len() > 0 {
        let less = which.drop_last();
        lemma_filled_len(edges, less, found);
        assert forall|j: int| 0 <= j < less.len() implies #[trigger] less[j] < edges.len() && (
        less[j] == e <==> j == k) by {
            assert(less[j] == which[j]);
        }
        lemma_filled_at(edges, less, found, e, k);
        assert(which[which.len() - 1] == e <==> which.len() - 1 == k);
    }
}

/// Filling in climbs adds and drops no edge.
pub proof fn lemma_filled_len(edges: Seq<Edge>, which: Seq<u32>, found: Seq<Option<Climb>>)
    requires
        forall|k: int| 0 <= k < which.len() ==> #[trigger] which[k] < edges.len(),
    ensures
        filled(edges, which, found).len() == edges.len(),
    decreases which.len(),
{
    if which.len() > 0 {
        lemma_filled_len(edges, which.drop_last(), found);
        assert(which[which.len() - 1] < edges.len());
    }
}

/// The stretch lies on a way and has a length in points.
pub open spec fn stretch_ok(ways: Seq<Way>, st: Stretch) -> bool {
    &&& st.way < ways.len()
    &&& aligned(ways[st.way as int])
    &&& st.from < st.to
    &&& st.to < ways[st.way as int].points@.len()
}

/// The stretches of a network: each way cut at its junctions.
pub fn stretches(net: &TrailNetwork) -> (v: Vec<Stretch>)
    requires
        net.wf(),
    ensures
        v@ == all_stretches(net.list()),
        forall|k: int| 0 <= k < v@.len() ==> stretch_ok(net.list(), #[trigger] v@[k]),
{
    let ways = net.ways();
    proof {
        net.lemma_wf();
    }
    let again = repeated_nodes(ways);
    let mut out: Vec<Stretch> = Vec::new();
    let mut k: usize = 0;
    while k < ways.len()
        invariant
            net.wf(),
            ways@ == net.list(),
            k <= ways@.len(),
            forall|i: int| 0 <= i < ways@.len() ==> (#[trigger] ways@[i]).points@.len() >= 2,
            marks_repeats(again@, ways@),
            out@ == stretches_of(ways@, k as nat),
            forall|i: int| 0 <= i < out@.len() ==> stretch_ok(ways@, #[trigger] out@[i]),
        decreases ways@.len() - k,
    {
        let w = &ways[k];
        assert(w.points@.len() >= 2);
        if w.nodes.len() == w.points.len() {
            let ghost held = out@;
            let last: usize = w.points.len() - 1;
            let mut cut: usize = 0;
            let mut i: usize = 1;
            assert(out@ =~= held + stretches_to(ways@, k as int, 0));
            while i < w.points.len()
                invariant
                    ways@ == net.list(),
                    k < ways@.len(),
                    *w == ways@[k as int],
                    aligned(*w),
                    marks_repeats(again@, ways@),
                    last == w.points@.len() - 1,
                    1 <= i <= last + 1,
                    cut == last_cut(ways@, *w, i - 1),
                    cut < i,
                    out@ == held + stretches_to(ways@, k as int, i - 1),
                    forall|j: int| 0 <= j < out@.len() ==> stretch_ok(ways@, #[trigger] out@[j]),
                decreases last + 1 - i,
            {
                let repeated: bool = match again.get(&w.nodes[i]) {
                    Some(r) => *r,
                    None => false,
                };
                assert(repeated == (total_occurrences(ways@, w.nodes@[i as int]) > 1));
                if repeated || i == last {
                    let st = Stretch { way: k, from: cut, to: i };
                    let ghost had = out@;
                    out.push(st);
                    assert(out@ =~= held + stretches_to(ways@, k as int, i as int));
                    cut = i;
                }
                i = i + 1;
            }
        } else {
            assert(out@ =~= out@ + Seq::<Stretch>::empty());
        }
        k = k + 1;
    }
    out
}

/// The map tells of every id on the ways whether it occurs more than once.
spec fn marks_repeats(m: Map<i64, bool>, ways: Seq<Way>) -> bool {
    &&& forall|id: i64| #[trigger] m.contains_key(id) <==> total_occurrences(ways, id) > 0
    &&& forall|id: i64| #[trigger]
        m.contains_key(id) ==> m[id] == (total_occurrences(ways, id) > 1)
}

/// Which ids on the ways occur more than once.
fn repeated_nodes(ways: &Vec<Way>) -> (m: HashMap<i64, bool>)
    ensures
        marks_repeats(m@, ways@),
{
    let mut m: HashMap<i64, bool> = HashMap::new();
    let mut k: usize = 0;
    while k < ways.len()
        invariant
            k <= ways@.len(),
            marks_repeats(m@, ways@.take(k as int)),
        decreases ways@.len() - k,
    {
        let w = &ways[k];
        let ghost seen = ways@.take(k as int);
        assert(ways@.take(k + 1).drop_last() =~= seen);
        let mut i: usize = 0;
        while i < w.nodes.len()
            invariant
                i <= w.nodes@.len(),
                forall|id: i64| #[trigger]
                    m@.contains_key(id) <==> total_occurrences(seen, id) + occurrences(
                        w.nodes@.take(i as int),
                        id,
                    ) > 0,
                forall|id: i64| #[trigger]
                    m@.contains_key(id) ==> m@[id] == (total_occurrences(seen, id) + occurrences(
                        w.nodes@.take(i as int),
                        id,
                    ) > 1),
            decreases w.nodes@.len() - i,
        {
            assert(w.nodes@.take(i + 1).drop_last() =~= w.nodes@.take(i as int));
            let id: i64 = w.nodes[i];
            let known: bool = m.contains_key(&id);
            m.insert(id, known);
            i = i + 1;
        }
        assert(w.nodes@.take(i as int) =~= w.nodes@);
        k = k + 1;
    }
    assert(ways@.take(k as int) =~= ways@);
    m
}

/// Every node of a graph is a junction or an end of a way: shape points are
/// none.
pub proof fn law_nodes_are_junctions(ways: Seq<Way>, lengths: Seq<Real>, n: int)
    requires
        lengths.len() == all_stretches(ways).len(),
        forall|i: int| 0 <= i < ways.len() ==> 2 <= (#[trigger] ways[i]).points@.len() <= usize::MAX,
        ways.len() <= usize::MAX,
        0 <= n < shape_of(ways, all_stretches(ways), lengths).ids.len(),
    ensures
        exists|k: int, i: int| #[trigger]
            node_source(ways, k, i, shape_of(ways, all_stretches(ways), lengths).ids[n]),
{
    lemma_all_stretches(ways, ways.len());
    lemma_shape_sources(ways, all_stretches(ways), lengths);
    assert(has_source(ways, shape_of(ways, all_stretches(ways), lengths).ids[n]));
}

/// The id is that of a point of an aligned way which is an end of the way or
/// whose node occurs more than once.
pub open spec fn node_source(ways: Seq<Way>, k: int, i: int, id: i64) -> bool {
    &&& 0 <= k < ways.len()
    &&& aligned(ways[k])
    &&& 0 <= i < ways[k].points@.len()
    &&& ways[k].nodes@[i] == id
    &&& (i == 0 || i == ways[k].points@.len() - 1 || total_occurrences(ways, id) > 1)
}

spec fn has_source(ways: Seq<Way>, id: i64) -> bool {
    exists|k: int, i: int| #[trigger] node_source(ways, k, i, id)
}

/// The ends of a stretch are cuts or the start of the way.
spec fn stretch_cut(ways: Seq<Way>, st: Stretch) -> bool {
    &&& stretch_ok(ways, st)
    &&& node_source(
        ways,
        st.way as int,
        st.from as int,
        ways[st.way as int].nodes@[st.from as int],
    )
    &&& node_source(ways, st.way as int, st.to as int, ways[st.way as int].nodes@[st.to as int])
}

proof fn lemma_all_stretches(ways: Seq<Way>, count: nat)
    requires
        count <= ways.len() <= usize::MAX,
        forall|i: int| 0 <= i < ways.len() ==> 2 <= (#[trigger] ways[i]).points@.len() <= usize::MAX,
    ensures
        forall|k: int|
            0 <= k < stretches_of(ways, count).len() ==> stretch_cut(
                ways,
                #[trigger] stretches_of(ways, count)[k],
            ),
    decreases count,
{
    if count > 0 {
        let k = count - 1;
        lemma_all_stretches(ways, k as nat);
        let head = stretches_of(ways, k as nat);
        let all = stretches_of(ways, count);
        if aligned(ways[k]) {
            let i = ways[k].points@.len() - 1;
            lemma_stretches_to(ways, k, i);
            assert forall|j: int| 0 <= j < all.len() implies stretch_cut(ways, #[trigger] all[j]) by {
                if j < head.len() {
                    assert(all[j] == head[j]);
                } else {
                    assert(all[j] == stretches_to(ways, k, i)[j - head.len()]);
                }
            }
        } else {
            assert(all =~= head);
        }
    }
}

proof fn lemma_stretches_to(ways: Seq<Way>, k: int, i: int)
    requires
        0 <= k < ways.len() <= usize::MAX,
        aligned(ways[k]),
        2 <= ways[k].points@.len() <= usize::MAX,
        0 <= i < ways[k].points@.len(),
    ensures
        forall|j: int|
            0 <= j < stretches_to(ways, k, i).len() ==> stretch_cut(
                ways,
                #[trigger] stretches_to(ways, k, i)[j],
            ),
    decreases i,
{
    if i > 0 {
        lemma_stretches_to(ways, k, i - 1);
        lemma_last_cut(ways, ways[k], i - 1);
        let head = stretches_to(ways, k, i - 1);
        let all = stretches_to(ways, k, i);
        assert forall|j: int| 0 <= j < all.len() implies stretch_cut(ways, #[trigger] all[j]) by {
            if j < head.len() {
                assert(all[j] == head[j]);
            }
        }
    }
}

proof fn lemma_last_cut(ways: Seq<Way>, w: Way, i: int)
    requires
        0 <= i,
    ensures
        0 <= last_cut(ways, w, i) <= i,
        last_cut(ways, w, i) > 0 ==> is_cut(ways, w, last_cut(ways, w, i)),
    decreases i,
{
    if i > 0 && !is_cut(ways, w, i) {
        lemma_last_cut(ways, w, i - 1);
    }
}

proof fn lemma_shape_sources(ways: Seq<Way>, list: Seq<Stretch>, lengths: Seq<Real>)
    requires
        lengths.len() >= list.len(),
        forall|k: int| 0 <= k < list.len() ==> stretch_cut(ways, #[trigger] list[k]),
    ensures
        forall|n: int|
            0 <= n < shape_of(ways, list, lengths).ids.len() ==> has_source(
                ways,
                #[trigger] shape_of(ways, list, lengths).ids[n],
            ),
    decreases list.len(),
{
    if list.len() > 0 {
        let less = list.drop_last();
        assert forall|k: int| 0 <= k < less.len() implies stretch_cut(ways, #[trigger] less[k]) by {
            assert(less[k] == list[k]);
        }
        lemma_shape_sources(ways, less, lengths);
        let st = list.last();
        assert(stretch_cut(ways, list[list.len() - 1]));
        let before = shape_of(ways, less, lengths).ids;
        let after = shape_of(ways, list, lengths).ids;
        assert forall|n: int| 0 <= n < after.len() implies has_source(
            ways,
            #[trigger] after[n],
        ) by {
            if n < before.len() {
                assert(after[n] == before[n]);
            } else {
                let w = ways[st.way as int];
                assert(after[n] == w.nodes@[st.from as int] || after[n] == w.nodes@[st.to as int]);
            }
        }
    }
}

/// The edges differ in their climbs at most.
spec fn same_but_climb(a: Seq<Edge>, b: Seq<Edge>) -> bool {
    &&& a.len() == b.len()
    &&& forall|e: int|
        #![trigger a[e]]
        #![trigger b[e]]
        0 <= e < a.len() ==> {
            &&& a[e].a == b[e].a
            &&& a[e].b == b[e].b
            &&& a[e].way_id == b[e].way_id
            &&& a[e].from == b[e].from
            &&& a[e].to == b[e].to
            &&& a[e].len_m == b[e].len_m
        }
}

proof fn lemma_same_but_climb(a: Seq<Edge>, b: Seq<Edge>)
    requires
        same_but_climb(a, b),
    ensures
        forall|n: int| #[trigger] incident(a, n) == incident(b, n),
        forall|w: i64| #[trigger] edges_of_way(a, w) == edges_of_way(b, w),
    decreases a.len(),
{
    if a.len() > 0 {
        let la = a.drop_last();
        let lb = b.drop_last();
        assert(same_but_climb(la, lb)) by {
            assert forall|e: int| 0 <= e < la.len() implies #[trigger] la[e] == a[e] && lb[e]
                == b[e] by {}
        }
        lemma_same_but_climb(la, lb);
        assert(a.last() == a[a.len() - 1] && b.last() == b[b.len() - 1]);
        assert forall|n: int| #[trigger] incident(a, n) == incident(b, n) by {
            assert(incident(la, n) == incident(lb, n));
        }
        assert forall|w: i64| #[trigger] edges_of_way(a, w) == edges_of_way(b, w) by {
            assert(edges_of_way(la, w) == edges_of_way(lb, w));
        }
    } else {
        assert forall|n: int| #[trigger] incident(a, n) == incident(b, n) by {}
        assert forall|w: i64| #[trigger] edges_of_way(a, w) == edges_of_way(b, w) by {}
    }
}

/// The first place of an id holds it.
proof fn lemma_first_at(ids: Seq<i64>, id: i64)
    ensures
        first_at(ids, id) matches Some(i) ==> 0 <= i < ids.len() && ids[i] == id,
    decreases ids.len(),
{
    if ids.len() > 0 {
        lemma_first_at(ids.drop_last(), id);
    }
}

/// An id keeps its place when ids are added behind.
proof fn lemma_first_at_kept(ids: Seq<i64>, more: Seq<i64>, id: i64)
    requires
        first_at(ids, id) is Some,
        more == ids || (more.len() == ids.len() + 1 && more.drop_last() == ids),
    ensures
        first_at(more, id) == first_at(ids, id),
{
}

/// A node behind all others has no edges.
proof fn lemma_incident_none(edges: Seq<Edge>, n: int, nodes: nat)
    requires
        edges_ok(edges, nodes),
        n >= nodes,
    ensures
        incident(edges, n) == Seq::<u32>::empty(),
    decreases edges.len(),
{
    if edges.len() > 0 {
        let less = edges.drop_last();
        assert(edges_ok(less, nodes)) by {
            assert forall|e: int| 0 <= e < less.len() implies (#[trigger] less[e]).a < nodes
                && less[e].b < nodes && less[e].a != less[e].b && less[e].from < less[e].to by {
                assert(less[e] == edges[e]);
            }
        }
        lemma_incident_none(less, n, nodes);
        assert(edges[edges.len() - 1] == edges.last());
    }
}

/// The edges of a way are edges, and of that way.
pub proof fn lemma_edges_of_way(edges: Seq<Edge>, way_id: i64)
    requires
        edges.len() <= u32::MAX,
    ensures
        forall|j: int|
            0 <= j < edges_of_way(edges, way_id).len() ==> #[trigger] edges_of_way(edges, way_id)[j]
                < edges.len() && edges[edges_of_way(edges, way_id)[j] as int].way_id == way_id,
    decreases edges.len(),
{
    if edges.len() > 0 {
        lemma_edges_of_way(edges.drop_last(), way_id);
    }
}

/// The edges at a node are those that have it as an end.
pub proof fn lemma_incident(edges: Seq<Edge>, n: int)
    requires
        edges.len() <= u32::MAX,
    ensures
        forall|j: int|
            0 <= j < incident(edges, n).len() ==> #[trigger] incident(edges, n)[j] < edges.len()
                && (edges[incident(edges, n)[j] as int].a == n || edges[incident(
                edges,
                n,
            )[j] as int].b == n),
        forall|e: int|
            0 <= e < edges.len() && ((#[trigger] edges[e]).a == n || edges[e].b == n) ==> incident(
                edges,
                n,
            ).contains(e as u32),
    decreases edges.len(),
{
    if edges.len() > 0 {
        let less = edges.drop_last();
        lemma_incident(less, n);
        let all = incident(edges, n);
        let some = incident(less, n);
        assert forall|e: int|
            0 <= e < edges.len() && ((#[trigger] edges[e]).a == n || edges[e].b
                == n) implies all.contains(e as u32) by {
            if e < less.len() {
                assert(less[e] == edges[e]);
                assert(some.contains(e as u32));
                let j = some.index_of(e as u32);
                assert(all[j] == e as u32);
            } else {
                assert(all[all.len() - 1] == e as u32);
            }
        }
    }
}

} // verus!
