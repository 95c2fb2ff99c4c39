//! The graph and the isochrone, made anew when what they rest on has changed.
use vstd::prelude::*;

use crate::geo::LatLon;
use crate::graph::reach;
use crate::graph::route;
use crate::graph::shape;
use crate::graph::{Climb, CostMs, EdgePos, Graph, Reach, Route};
use crate::number::Real;
use crate::track::Track;
use crate::trails::{Snap, TrailNetwork};

verus! {

/// What can be reached from a point within a budget.
pub struct Isochrone {
    pub reach: Reach,
    /// The edges reached, with the cost of their dearer end.
    pub edges: Vec<(u32, CostMs)>,
    pub source: Snap,
    /// The edge that carries the source.
    pub source_edge: u32,
    pub budget_ms: CostMs,
    /// How far the furthest node reached is away, as the crow flies.
    pub reach_m: Real,
}

impl Isochrone {
    /// It was made on a graph.
    pub open spec fn fits(&self, graph: &Graph) -> bool {
        &&& route::explored(&self.reach, graph)
        &&& self.source_edge < graph.shape().edges.len()
        &&& forall|k: int|
            0 <= k < self.edges@.len() ==> (#[trigger] self.edges@[k]).0
                < graph.shape().edges.len()
    }
}

/// The point that an isochrone starts at: the last of the track, if it lies on a
/// trail of the graph.
pub open spec fn source_of(
    show: bool,
    track: &Track,
    edges: Seq<shape::Edge>,
    ways: Seq<crate::trails::Way>,
) -> Option<(Snap, u32)> {
    if !show || track.waypoints@.len() == 0 {
        None
    } else {
        match track.waypoints@.last().snap {
            Some(s) => match shape::located(edges, ways, s) {
                Some(e) => Some((s, e)),
                None => None,
            },
            None => None,
        }
    }
}

/// The largest distance of a node that was reached, of the first `n`, and nought
/// where there is none.
pub open spec fn furthest(dists: Seq<Real>, costs: Seq<CostMs>, n: int) -> Real
    decreases n,
{
    if n <= 0 {
        Real { bits: 0 }
    } else {
        let before = furthest(dists, costs, n - 1);
        if reach::is_reached(costs, (n - 1) as u32) {
            before.greater(dists[n - 1])
        } else {
            before
        }
    }
}

/// Distances that a distance function gives, for the nodes that were reached.
pub open spec fn dists_of<D: Fn(LatLon, LatLon) -> Real>(
    away: D,
    from: LatLon,
    nodes: Seq<LatLon>,
    costs: Seq<CostMs>,
    dists: Seq<Real>,
) -> bool {
    &&& dists.len() == nodes.len()
    &&& forall|n: int|
        0 <= n < nodes.len() && reach::is_reached(costs, n as u32) ==> call_ensures(
            away,
            (from, nodes[n]),
            #[trigger] dists[n],
        )
}

/// How far the furthest node reached is away.
fn furthest_m<D: Fn(LatLon, LatLon) -> Real>(graph: &Graph, r: &Reach, from: LatLon, away: &D) -> (
    m: Real)
    requires
        graph.wf(),
        r.costs().len() == graph.shape().nodes.len(),
        forall|a: LatLon, b: LatLon| call_requires(*away, (a, b)),
    ensures
        exists|dists: Seq<Real>| #[trigger]
            dists_of(*away, from, graph.shape().nodes, r.costs(), dists) && m == furthest(
                dists,
                r.costs(),
                dists.len() as int,
            ),
{
    let n: usize = graph.node_count();
    proof {
        graph.lemma_wf();
    }
    let mut m = Real { bits: 0 };
    let ghost mut dists: Seq<Real> = Seq::empty();
    let mut k: u32 = 0;
    while (k as usize) < n
        invariant
            graph.wf(),
            n == graph.shape().nodes.len(),
            n <= u32::MAX,
            r.costs().len() == n,
            k <= n,
            dists.len() == k,
            forall|a: LatLon, b: LatLon| call_requires(*away, (a, b)),
            forall|j: int|
                0 <= j < k && reach::is_reached(r.costs(), j as u32) ==> call_ensures(
                    *away,
                    (from, graph.shape().nodes[j]),
                    #[trigger] dists[j],
                ),
            m == furthest(dists, r.costs(), k as int),
        decreases n - k,
    {
        let ghost was = dists;
        match r.cost(k) {
            Some(_) => {
                let d: Real = away(from, graph.position(k));
                m = m.max(d);
                proof {
                    dists = dists.push(d);
                }
            },
            None => {
                proof {
                    dists = dists.push(Real { bits: 0 });
                }
            },
        }
        proof {
            lemma_furthest_kept(was, dists, r.costs(), k as int);
            assert forall|j: int|
                0 <= j < k + 1 && reach::is_reached(r.costs(), j as u32) implies call_ensures(
                *away,
                (from, graph.shape().nodes[j]),
                #[trigger] dists[j],
            ) by {
                if j < k {
                    assert(dists[j] == was[j]);
                }
            }
        }
        k = k + 1;
    }
    assert(dists_of(*away, from, graph.shape().nodes, r.costs(), dists));
    m
}

proof fn lemma_furthest_kept(was: Seq<Real>, now: Seq<Real>, costs: Seq<CostMs>, n: int)
    requires
        n <= was.len() <= now.len(),
        forall|j: int| 0 <= j < n ==> was[j] == #[trigger] now[j],
    ensures
        furthest(was, costs, n) == furthest(now, costs, n),
    decreases n,
{
    if n > 0 {
        lemma_furthest_kept(was, now, costs, n - 1);
        assert(was[n - 1] == now[n - 1]);
    }
}

/// What an isochrone is.
pub open spec fn isochrone_from<
    P: Fn(u32, Snap) -> (CostMs, CostMs),
    D: Fn(LatLon, LatLon) -> Real,
>(
    iso: &Isochrone,
    graph: &Graph,
    source: (Snap, u32),
    budget_ms: CostMs,
    costs: Seq<(CostMs, CostMs)>,
    along: P,
    away: D,
) -> bool {
    &&& iso.fits(graph)
    &&& iso.source == source.0
    &&& iso.source_edge == source.1
    &&& iso.budget_ms == budget_ms
    &&& iso.edges@ == reach::edges_reached(graph.shape().edges, iso.reach.costs())
    &&& exists|ms: (CostMs, CostMs)| #[trigger]
        call_ensures(along, (source.1, source.0), ms) && ({
            let sources = shape::sources_at(graph.shape().edges[source.1 as int], ms.0, ms.1);
            let q = graph.quest(sources, budget_ms, costs);
            &&& q.least(iso.reach.costs())
            &&& q.tree(iso.reach.costs(), iso.reach.back(), iso.reach.found())
        })
    &&& exists|dists: Seq<Real>| #[trigger]
        dists_of(away, source.0.pos, graph.shape().nodes, iso.reach.costs(), dists) && iso.reach_m
            == furthest(dists, iso.reach.costs(), dists.len() as int)
}

/// Computes the isochrone from the last point of the track. `along` gives what it
/// costs to get from a point on an edge to the edge's two ends, and `away` how far
/// two positions are apart.
pub fn compute_isochrone<
    P: Fn(u32, Snap) -> (CostMs, CostMs),
    D: Fn(LatLon, LatLon) -> Real,
>(
    show: bool,
    track: &Track,
    graph: &Graph,
    net: &TrailNetwork,
    budget_ms: CostMs,
    costs: &Vec<(CostMs, CostMs)>,
    along: P,
    away: D,
) -> (r: Option<Isochrone>)
    requires
        graph.wf(),
        net.wf(),
        costs@.len() == graph.shape().edges.len(),
        forall|e: u32, s: Snap| call_requires(along, (e, s)),
        forall|a: LatLon, b: LatLon| call_requires(away, (a, b)),
    ensures
        match source_of(show, track, graph.shape().edges, net.list()) {
            None => r is None,
            Some(source) => r matches Some(iso) && isochrone_from(
                &iso,
                graph,
                source,
                budget_ms,
                costs@,
                along,
                away,
            ),
        },
{
    if !show || track.waypoints.len() == 0 {
        return None;
    }
    let source: Snap = match track.waypoints[track.waypoints.len() - 1].snap {
        Some(s) => s,
        None => {
            return None;
        },
    };
    let edge: u32 = match graph.locate(net, &source) {
        Some(e) => e,
        None => {
            return None;
        },
    };
    let ms: (CostMs, CostMs) = along(edge, source);
    let pos = EdgePos { edge, to_a_m: Real { bits: 0 }, to_b_m: Real { bits: 0 } };
    let sources: Vec<(u32, CostMs)> = graph.sources_from(&pos, ms.0, ms.1);
    let found: Reach = graph.explore(&sources, budget_ms, costs);
    let edges: Vec<(u32, CostMs)> = found.reachable_edges(graph);
    let reach_m: Real = furthest_m(graph, &found, source.pos, &away);
    let iso = Isochrone {
        reach: found,
        edges,
        source,
        source_edge: edge,
        budget_ms,
        reach_m,
    };
    assert(iso.fits(graph));
    assert(call_ensures(along, (edge, source), ms));
    assert(isochrone_from(&iso, graph, (source, edge), budget_ms, costs@, along, away));
    Some(iso)
}

/// The route from the source of an isochrone to a point, where the point lies
/// inside. `along` gives what it costs to get to a point on an edge from the
/// edge's two ends, and `same` whether two points coincide.
pub fn route_to<P: Fn(u32, Snap) -> (CostMs, CostMs), S: Fn(LatLon, LatLon) -> bool>(
    iso: &Option<Isochrone>,
    graph: &Graph,
    net: &TrailNetwork,
    target: &Snap,
    along: P,
    same: S,
) -> (r: Option<Vec<LatLon>>)
    requires
        graph.wf(),
        net.wf(),
        shape::edges_on(graph.shape().edges, net.list()),
        *iso matches Some(i) ==> i.fits(graph),
        forall|e: u32, s: Snap| call_requires(along, (e, s)),
        forall|a: LatLon, b: LatLon| call_requires(same, (a, b)),
    ensures
        match (*iso, shape::located(graph.shape().edges, net.list(), *target)) {
            (Some(i), Some(e)) => exists|ms: (CostMs, CostMs)| #[trigger]
                call_ensures(along, (e, *target), ms) && reaches(
                    i,
                    graph,
                    net.list(),
                    *target,
                    e,
                    ms,
                    same,
                    r,
                ),
            _ => r is None,
        },
{
    match iso {
        Some(i) => match graph.locate(net, target) {
            Some(e) => {
                let ms: (CostMs, CostMs) = along(e, *target);
                let found: Option<Route> = route::route(
                    graph,
                    net,
                    &i.reach,
                    (&i.source, i.source_edge),
                    (target, e),
                    ms.0,
                    ms.1,
                    &same,
                );
                assert(call_ensures(along, (e, *target), ms));
                match found {
                    Some(r) => {
                        if r.cost_ms <= i.budget_ms {
                            Some(r.points)
                        } else {
                            None
                        }
                    },
                    None => None,
                }
            },
            None => None,
        },
        None => None,
    }
}

/// What the route to a point is: over the better end of its edge, if it stays in
/// the budget.
pub open spec fn reaches<S: Fn(LatLon, LatLon) -> bool>(
    iso: Isochrone,
    graph: &Graph,
    ways: Seq<crate::trails::Way>,
    target: Snap,
    e: u32,
    ms: (CostMs, CostMs),
    same: S,
    r: Option<Vec<LatLon>>,
) -> bool {
    let edges = graph.shape().edges;
    match route::arrival(edges[e as int], iso.reach.costs(), ms.0, ms.1) {
        None => r is None,
        Some((cost, end, toward_a)) => {
            let chain = iso.reach.chain(end as int);
            let start_edge = edges[iso.source_edge as int];
            &&& r is Some <==> chain.len() <= reach::MAX_CHAIN && cost <= iso.budget_ms
            &&& r matches Some(line) ==> route::without_repeats_of(
                route::stage_points(
                    ways,
                    edges,
                    chain,
                    (iso.source, start_edge, route::chain_start(chain, end) == start_edge.a),
                    (target, edges[e as int], toward_a),
                ),
                same,
                line@,
            )
        },
    }
}

// ---------------------------------------------------------------------------
// When to make them anew
// ---------------------------------------------------------------------------

/// The graph of the network, and the isochrone on it.
pub struct Planner {
    pub graph: Graph,
    /// The network changed, and the graph is of the old one.
    pub graph_dirty: bool,
    /// The climb of every edge is known.
    pub graph_elevated: bool,
    pub iso: Option<Isochrone>,
    pub iso_dirty: bool,
}

impl Planner {
    pub open spec fn wf(&self) -> bool {
        &&& self.graph.wf()
        &&& self.iso matches Some(i) ==> i.fits(&self.graph)
    }

    pub fn new() -> (p: Self)
        ensures
            p.wf(),
            p.graph.shape() == (shape::Shape { ids: seq![], nodes: seq![], edges: seq![] }),
            p.iso is None,
            !p.graph_dirty,
            !p.graph_elevated,
            !p.iso_dirty,
    {
        Planner {
            graph: Graph::default(),
            graph_dirty: false,
            graph_elevated: false,
            iso: None,
            iso_dirty: false,
        }
    }

    /// New trails have come. They may complete legs that were placed already.
    pub fn network_changed(&mut self, track: &mut Track)
        requires
            old(self).wf(),
        ensures
            final(self).wf(),
            *final(self) == (Planner { graph_dirty: true, ..*old(self) }),
            *final(track) == (Track { dirty: true, ..*old(track) }),
    {
        track.invalidate();
        self.graph_dirty = true;
    }

    /// What the isochrone rests on has changed: the pace, the budget, or whether
    /// it is shown.
    pub fn reach_changed(&mut self)
        requires
            old(self).wf(),
        ensures
            final(self).wf(),
            *final(self) == (Planner { iso_dirty: true, ..*old(self) }),
    {
        self.iso_dirty = true;
    }

    /// Takes the last point back.
    pub fn drop_last(&mut self, track: &mut Track)
        requires
            old(self).wf(),
        ensures
            final(self).wf(),
            *final(self) == (Planner { iso_dirty: true, ..*old(self) }),
            final(track).waypoints@ == if old(track).waypoints@.len() > 0 {
                old(track).waypoints@.drop_last()
            } else {
                old(track).waypoints@
            },
            *final(track) == (Track {
                waypoints: final(track).waypoints,
                dirty: true,
                ..*old(track)
            }),
    {
        track.pop();
        self.iso_dirty = true;
    }

    /// Takes every point back.
    pub fn drop_all(&mut self, track: &mut Track)
        requires
            old(self).wf(),
        ensures
            final(self).wf(),
            *final(self) == (Planner { iso_dirty: true, ..*old(self) }),
            final(track).waypoints@.len() == 0,
            *final(track) == (Track {
                waypoints: final(track).waypoints,
                dirty: true,
                ..*old(track)
            }),
    {
        track.clear();
        self.iso_dirty = true;
    }

    /// Makes the graph anew, if the network has changed, given the length of each
    /// stretch of it. The climbs are then to be read again, and the isochrone is
    /// to be made anew.
    pub fn rebuild(&mut self, net: &TrailNetwork, lengths: &Vec<Real>) -> (done: bool)
        requires
            old(self).wf(),
            net.wf(),
            lengths@.len() == shape::all_stretches(net.list()).len(),
            2 * lengths@.len() + 2 <= u32::MAX,
            forall|k: int|
                0 <= k < net.list().len() ==> (#[trigger] net.list()[k]).points@.len() <= u32::MAX,
        ensures
            final(self).wf(),
            done == old(self).graph_dirty,
            !done ==> *final(self) == *old(self),
            done ==> {
                &&& final(self).graph.shape() == shape::shape_of(
                    net.list(),
                    shape::all_stretches(net.list()),
                    lengths@,
                )
                &&& shape::edges_on(final(self).graph.shape().edges, net.list())
                &&& final(self).iso is None
                &&& !final(self).graph_dirty
                &&& !final(self).graph_elevated
                &&& final(self).iso_dirty
            },
    {
        if !self.graph_dirty {
            return false;
        }
        self.graph = Graph::build(net, lengths);
        self.graph_dirty = false;
        self.graph_elevated = false;
        self.iso = None;
        self.iso_dirty = true;
        true
    }

    /// Whether climbs are to be read: there are edges, and not all are known.
    pub fn wants_climbs(&self) -> (b: bool)
        ensures
            b == (self.graph.shape().edges.len() > 0 && !self.graph_elevated),
    {
        !self.graph.is_empty() && !self.graph_elevated
    }

    /// Fills in the climbs that were found. Once all are known the isochrone is to
    /// be made anew: the one shown until then was too hopeful.
    pub fn fill_climbs(&mut self, edges: &Vec<u32>, found: &Vec<Option<Climb>>)
        requires
            old(self).wf(),
            edges@.len() == found@.len(),
            forall|k: int|
                0 <= k < edges@.len() ==> #[trigger] edges@[k] < old(
                    self,
                ).graph.shape().edges.len(),
        ensures
            final(self).wf(),
            final(self).graph.shape() == (shape::Shape {
                edges: shape::filled(old(self).graph.shape().edges, edges@, found@),
                ..old(self).graph.shape()
            }),
            final(self).graph_elevated == shape::climbs_known(final(self).graph.shape().edges),
            final(self).iso_dirty == (old(self).iso_dirty || final(self).graph_elevated),
            final(self).iso == old(self).iso,
            final(self).graph_dirty == old(self).graph_dirty,
    {
        let ghost was = self.graph.shape();
        let done: bool = self.graph.fill_climbs(edges, found);
        self.graph_elevated = done;
        if done {
            self.iso_dirty = true;
        }
        proof {
            shape::lemma_filled_len(was.edges, edges@, found@);
        }
    }

    /// Makes the isochrone anew, if what it rests on has changed.
    pub fn refresh_isochrone<
        P: Fn(u32, Snap) -> (CostMs, CostMs),
        D: Fn(LatLon, LatLon) -> Real,
    >(
        &mut self,
        show: bool,
        track: &Track,
        net: &TrailNetwork,
        budget_ms: CostMs,
        costs: &Vec<(CostMs, CostMs)>,
        along: P,
        away: D,
    ) -> (done: bool)
        requires
            old(self).wf(),
            net.wf(),
            costs@.len() == old(self).graph.shape().edges.len(),
            forall|e: u32, s: Snap| call_requires(along, (e, s)),
            forall|a: LatLon, b: LatLon| call_requires(away, (a, b)),
        ensures
            final(self).wf(),
            done == old(self).iso_dirty,
            !final(self).iso_dirty,
            final(self).graph == old(self).graph,
            final(self).graph_dirty == old(self).graph_dirty,
            final(self).graph_elevated == old(self).graph_elevated,
            !done ==> final(self).iso == old(self).iso,
            done ==> match source_of(show, track, old(self).graph.shape().edges, net.list()) {
                None => final(self).iso is None,
                Some(source) => final(self).iso matches Some(iso) && isochrone_from(
                    &iso,
                    &old(self).graph,
                    source,
                    budget_ms,
                    costs@,
                    along,
                    away,
                ),
            },
    {
        if !self.iso_dirty {
            return false;
        }
        self.iso_dirty = false;
        self.iso = compute_isochrone(
            show,
            track,
            &self.graph,
            net,
            budget_ms,
            costs,
            along,
            away,
        );
        true
    }
}

/// How far an isochrone gets is the distance of its furthest node: none that was
/// reached is further away, and where it is not nought, one is as far.
pub proof fn law_no_node_is_further(dists: Seq<Real>, costs: Seq<CostMs>, n: int)
    requires
        0 <= n <= dists.len(),
        n <= u32::MAX,
        costs.len() == dists.len(),
        forall|k: int| 0 <= k < n ==> !(#[trigger] dists[k]).nan(),
    ensures
        !furthest(dists, costs, n).nan(),
        forall|k: int|
            0 <= k < n && costs[k] != u64::MAX ==> (#[trigger] dists[k]).at_most(
                furthest(dists, costs, n),
            ),
        furthest(dists, costs, n) == (Real { bits: 0 }) || exists|k: int|
            0 <= k < n && costs[k] != u64::MAX && #[trigger] dists[k] == furthest(dists, costs, n),
    decreases n,
{
    if n > 0 {
        law_no_node_is_further(dists, costs, n - 1);
        let before = furthest(dists, costs, n - 1);
        let now = furthest(dists, costs, n);
        assert(!dists[n - 1].nan());
        if before != (Real { bits: 0 }) {
            let k = choose|k: int|
                0 <= k < n - 1 && costs[k] != u64::MAX && #[trigger] dists[k] == before;
            assert(now == before ==> dists[k] == now);
        }
        if now != before {
            assert(dists[n - 1] == now);
        }
    }
}

/// An isochrone starts at both ends of the edge that its source lies on, each at
/// what it costs to get to that end, and no node in it costs more than the budget.
pub proof fn law_an_isochrone_starts_at_both_ends<
    P: Fn(u32, Snap) -> (CostMs, CostMs),
    D: Fn(LatLon, LatLon) -> Real,
>(
    iso: &Isochrone,
    graph: &Graph,
    source: (Snap, u32),
    budget_ms: CostMs,
    costs: Seq<(CostMs, CostMs)>,
    along: P,
    away: D,
)
    requires
        graph.wf(),
        isochrone_from(iso, graph, source, budget_ms, costs, along, away),
    ensures
        exists|to_a: CostMs, to_b: CostMs|
            {
                let e = graph.shape().edges[source.1 as int];
                &&& #[trigger] call_ensures(along, (source.1, source.0), (to_a, to_b))
                &&& to_a <= budget_ms && to_a < u64::MAX ==> iso.reach.costs()[e.a as int] <= to_a
                &&& to_b <= budget_ms && to_b < u64::MAX ==> iso.reach.costs()[e.b as int] <= to_b
            },
        forall|n: int|
            0 <= n < iso.reach.costs().len() && #[trigger] iso.reach.costs()[n] != u64::MAX
                ==> iso.reach.costs()[n] <= budget_ms,
{
    graph.lemma_wf();
    let e = graph.shape().edges[source.1 as int];
    let ms = choose|ms: (CostMs, CostMs)| #[trigger]
        call_ensures(along, (source.1, source.0), ms) && ({
            let sources = shape::sources_at(graph.shape().edges[source.1 as int], ms.0, ms.1);
            let q = graph.quest(sources, budget_ms, costs);
            &&& q.least(iso.reach.costs())
            &&& q.tree(iso.reach.costs(), iso.reach.back(), iso.reach.found())
        });
    let q = graph.quest(shape::sources_at(e, ms.0, ms.1), budget_ms, costs);
    let dist = iso.reach.costs();
    let here = Seq::<int>::empty();
    assert(shape::edges_ok(graph.shape().edges, graph.shape().nodes.len()));
    assert(q.sources[0] == (e.a, ms.0) && q.sources[1] == (e.b, ms.1));
    if ms.0 <= budget_ms && ms.0 < u64::MAX {
        assert(q.leads(0, here, e.a as int, ms.0 as int));
        assert(q.reachable(e.a as int, ms.0 as int));
    }
    if ms.1 <= budget_ms && ms.1 < u64::MAX {
        assert(q.leads(1, here, e.b as int, ms.1 as int));
        assert(q.reachable(e.b as int, ms.1 as int));
    }
    assert(ms == (ms.0, ms.1));
    assert(call_ensures(along, (source.1, source.0), (ms.0, ms.1)));
    assert forall|n: int| 0 <= n < dist.len() && #[trigger] dist[n] != u64::MAX implies dist[n]
        <= budget_ms by {
        assert(q.reachable(n, dist[n] as int));
    }
}

/// An isochrone starts from the last point of the track, and only where it is shown
/// and that point lies on an edge of its way.
pub proof fn law_an_isochrone_starts_from_the_last_point(
    show: bool,
    track: &Track,
    edges: Seq<shape::Edge>,
    ways: Seq<crate::trails::Way>,
)
    requires
        edges.len() <= u32::MAX,
    ensures
        source_of(show, track, edges, ways) matches Some((snap, e)) ==> {
            &&& show
            &&& track.waypoints@.len() > 0
            &&& track.waypoints@[track.waypoints@.len() - 1].snap == Some(snap)
            &&& e < edges.len()
            &&& edges[e as int].way_id == snap.way_id
        },
        source_of(show, track, edges, ways) is None ==> !show || track.waypoints@.len() == 0 || (
        track.waypoints@[track.waypoints@.len() - 1].snap matches Some(snap) ==> shape::located(
            edges,
            ways,
            snap,
        ) is None),
{
    if show && track.waypoints@.len() > 0 {
        if let Some(s) = track.waypoints@.last().snap {
            crate::graph::laws::law_a_point_lies_on_an_edge_of_its_way(edges, ways, s);
        }
    }
}

/// A route leaves its source by the end of the edge that the way there starts at,
/// stays within the budget, and goes from the source to the target.
#[verifier::spinoff_prover]
#[verifier::rlimit(40)]
pub proof fn law_a_route_leaves_by_the_end_its_way_starts_at<S: Fn(LatLon, LatLon) -> bool>(
    iso: Isochrone,
    graph: &Graph,
    ways: Seq<crate::trails::Way>,
    target: Snap,
    e: u32,
    ms: (CostMs, CostMs),
    same: S,
    r: Option<Vec<LatLon>>,
) -> (points: Seq<LatLon>)
    requires
        graph.wf(),
        reaches(iso, graph, ways, target, e, ms, same, r),
        r is Some,
        iso.fits(graph),
        e < graph.shape().edges.len(),
        shape::edges_on(graph.shape().edges, ways),
        ({
            let end = (route::arrival(
                graph.shape().edges[e as int],
                iso.reach.costs(),
                ms.0,
                ms.1,
            )->0).1;
            let first = route::chain_start(iso.reach.chain(end as int), end);
            let start_edge = graph.shape().edges[iso.source_edge as int];
            first == start_edge.a || first == start_edge.b
        }),
    ensures
        route::without_repeats_of(points, same, r->0@),
        points.len() >= 2,
        points[0] == iso.source.pos,
        points.last() == target.pos,
        ({
            let (cost, end, _) = route::arrival(
                graph.shape().edges[e as int],
                iso.reach.costs(),
                ms.0,
                ms.1,
            )->0;
            let chain = iso.reach.chain(end as int);
            let first = route::chain_start(chain, end);
            let start_edge = graph.shape().edges[iso.source_edge as int];
            let way = route::way_points(ways, start_edge);
            &&& cost <= iso.budget_ms
            &&& exists|h: int|
                1 < h < points.len() && #[trigger] points[h - 1] == way[if first == start_edge.a {
                    start_edge.from as int
                } else {
                    start_edge.to as int
                }] && points.len() > h + route::chain_points(
                    ways,
                    graph.shape().edges,
                    chain,
                ).len()
        }),
{
    graph.lemma_wf();
    let edges = graph.shape().edges;
    let (cost, end, toward_a) = route::arrival(edges[e as int], iso.reach.costs(), ms.0, ms.1)->0;
    let chain = iso.reach.chain(end as int);
    let start_edge = edges[iso.source_edge as int];
    let first = route::chain_start(chain, end);
    let points = route::stage_points(
        ways,
        edges,
        chain,
        (iso.source, start_edge, first == start_edge.a),
        (target, edges[e as int], toward_a),
    );
    assert(shape::edges_ok(edges, graph.shape().nodes.len()));
    assert(start_edge.from < start_edge.to < route::way_points(ways, start_edge).len());
    assert(edges[e as int].from < edges[e as int].to < route::way_points(
        ways,
        edges[e as int],
    ).len());
    let h = route::law_a_stage_leaves_by_an_end(
        ways,
        edges,
        chain,
        (iso.source, start_edge, first == start_edge.a),
        (target, edges[e as int], toward_a),
    );
    assert(points[h - 1] == route::way_points(ways, start_edge)[if first == start_edge.a {
        start_edge.from as int
    } else {
        start_edge.to as int
    }]);
    points
}

/// The edges of an isochrone are those whose two ends it reaches, each at the cost of
/// the end that is reached last.
pub proof fn law_an_isochrone_has_the_edges_it_reaches<
    P: Fn(u32, Snap) -> (CostMs, CostMs),
    D: Fn(LatLon, LatLon) -> Real,
>(
    iso: &Isochrone,
    graph: &Graph,
    source: (Snap, u32),
    budget_ms: CostMs,
    costs: Seq<(CostMs, CostMs)>,
    along: P,
    away: D,
    e: int,
)
    requires
        graph.wf(),
        isochrone_from(iso, graph, source, budget_ms, costs, along, away),
        0 <= e < graph.shape().edges.len(),
    ensures
        ({
            let edge = graph.shape().edges[e];
            let a = iso.reach.costs()[edge.a as int];
            let b = iso.reach.costs()[edge.b as int];
            &&& a != u64::MAX && b != u64::MAX <==> exists|i: int|
                0 <= i < iso.edges@.len() && (#[trigger] iso.edges@[i]).0 == e
            &&& forall|i: int|
                0 <= i < iso.edges@.len() && (#[trigger] iso.edges@[i]).0 == e ==> iso.edges@[i].1
                    == vstd::math::max(a as int, b as int)
        }),
        iso.source == source.0,
        iso.source_edge == source.1,
        iso.budget_ms == budget_ms,
{
    graph.lemma_wf();
    let edges = graph.shape().edges;
    assert(shape::edges_ok(edges, graph.shape().nodes.len()));
    assert forall|i: int| 0 <= i < edges.len() implies (#[trigger] edges[i]).a
        < iso.reach.costs().len() && edges[i].b < iso.reach.costs().len() by {}
    crate::graph::laws::law_an_edge_is_reached_with_its_later_end(edges, iso.reach.costs(), e);
}

} // verus!
