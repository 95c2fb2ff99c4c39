//! Stages between two snapped points, over the tree of shortest paths.
use vstd::prelude::*;

use super::reach;
use super::reach::{Reach, MAX_CHAIN, UNREACHED};
use super::shape;
use super::shape::{CostMs, Edge, Graph};
use crate::geo::LatLon;
use crate::trails::network;
use crate::trails::network::TrailNetwork;
use crate::trails::way::{Snap, Way};

verus! {

/// A stage between two snapped points.
#[derive(Clone, Debug)]
pub struct Route {
    pub points: Vec<LatLon>,
    pub cost_ms: CostMs,
}

/// The points of the way that an edge runs on.
pub open spec fn way_points(ways: Seq<Way>, e: Edge) -> Seq<LatLon> {
    ways[network::place_of(ways, e.way_id)->0].points@
}

/// The points of an edge, from `a` to `b` or back.
pub open spec fn edge_points(ways: Seq<Way>, e: Edge, forward: bool) -> Seq<LatLon> {
    let stretch = way_points(ways, e).subrange(e.from as int, e.to + 1);
    if forward {
        stretch
    } else {
        stretch.reverse()
    }
}

/// The segment of a snapped point, kept to the stretch of an edge.
pub open spec fn kept_seg(e: Edge, seg: int) -> int {
    if seg < e.from {
        e.from as int
    } else if seg >= e.to {
        e.to - 1
    } else {
        seg
    }
}

/// The points from a snapped point to an end of its edge.
pub open spec fn partial_points(
    ways: Seq<Way>,
    e: Edge,
    snap: Snap,
    toward_a: bool,
) -> Seq<LatLon> {
    let points = way_points(ways, e);
    let seg = kept_seg(e, snap.seg as int);
    seq![snap.pos] + if toward_a {
        points.subrange(e.from as int, seg + 1).reverse()
    } else {
        points.subrange(seg + 1, e.to + 1)
    }
}

/// The points of a chain of edges, without the first one of each.
pub open spec fn chain_points(
    ways: Seq<Way>,
    edges: Seq<Edge>,
    chain: Seq<(u32, u32)>,
) -> Seq<LatLon>
    decreases chain.len(),
{
    if chain.len() == 0 {
        seq![]
    } else {
        let (p, e) = chain.last();
        chain_points(ways, edges, chain.drop_last()) + edge_points(
            ways,
            edges[e as int],
            edges[e as int].a == p,
        ).skip(1)
    }
}

/// A cost with another one on top, kept to what a cost can be.
pub open spec fn sum_ms(a: CostMs, b: CostMs) -> CostMs {
    if a + b > UNREACHED {
        UNREACHED
    } else {
        (a + b) as CostMs
    }
}

/// The end of the last edge to arrive over: the one with the lesser sum of its
/// own cost and the rest of the edge, `a` among equals. Cost, node, and whether
/// it is `a`.
pub open spec fn arrival(
    e: Edge,
    dist: Seq<CostMs>,
    from_a_ms: CostMs,
    from_b_ms: CostMs,
) -> Option<(CostMs, u32, bool)> {
    let over_a = reach::is_reached(dist, e.a);
    let over_b = reach::is_reached(dist, e.b);
    let cost_a = sum_ms(dist[e.a as int], from_a_ms);
    let cost_b = sum_ms(dist[e.b as int], from_b_ms);
    if over_a && (!over_b || cost_a <= cost_b) {
        Some((cost_a, e.a, true))
    } else if over_b {
        Some((cost_b, e.b, false))
    } else {
        None
    }
}

/// Where a chain starts, which ends at a node.
pub open spec fn chain_start(chain: Seq<(u32, u32)>, end: u32) -> u32 {
    if chain.len() == 0 {
        end
    } else {
        chain[0].0
    }
}

/// The whole line of a stage: from the first snapped point to an end of its edge,
/// along a chain of edges, and to the second one from an end of its own.
pub open spec fn stage_points(
    ways: Seq<Way>,
    edges: Seq<Edge>,
    chain: Seq<(u32, u32)>,
    from: (Snap, Edge, bool),
    to: (Snap, Edge, bool),
) -> Seq<LatLon> {
    partial_points(ways, from.1, from.0, from.2) + chain_points(ways, edges, chain)
        + partial_points(ways, to.1, to.0, to.2).reverse().skip(1)
}

// ---------------------------------------------------------------------------
// Points that coincide
// ---------------------------------------------------------------------------

/// The first `n` points of a line without those that are marked as repeats. The
/// first point is none.
pub open spec fn unrepeated(points: Seq<LatLon>, marks: Seq<bool>, n: int) -> Seq<LatLon>
    decreases n,
{
    if n <= 0 {
        seq![]
    } else if n == 1 || !marks[n - 1] {
        unrepeated(points, marks, n - 1).push(points[n - 1])
    } else {
        unrepeated(points, marks, n - 1)
    }
}

/// A point is marked where it is the same as the last one kept before it, as
/// `same` answered.
pub open spec fn repeats_marked<S: Fn(LatLon, LatLon) -> bool>(
    points: Seq<LatLon>,
    marks: Seq<bool>,
    same: S,
) -> bool {
    &&& marks.len() == points.len()
    &&& forall|i: int|
        1 <= i < points.len() ==> call_ensures(
            same,
            (points[i], unrepeated(points, marks, i).last()),
            #[trigger] marks[i],
        )
}

/// A line without the points that are the same as the one before them.
pub open spec fn without_repeats_of<S: Fn(LatLon, LatLon) -> bool>(
    points: Seq<LatLon>,
    same: S,
    out: Seq<LatLon>,
) -> bool {
    exists|marks: Seq<bool>| #[trigger]
        repeats_marked(points, marks, same) && out == unrepeated(
            points,
            marks,
            points.len() as int,
        )
}

/// Leaves out the points that are the same as the one kept before them, as `same`
/// answers. The first point stays.
pub fn without_repeats<S: Fn(LatLon, LatLon) -> bool>(points: &Vec<LatLon>, same: &S) -> (out: Vec<
    LatLon,
>)
    requires
        forall|a: LatLon, b: LatLon| call_requires(*same, (a, b)),
    ensures
        without_repeats_of(points@, *same, out@),
        points@.len() > 0 ==> out@.len() > 0 && out@[0] == points@[0],
        forall|k: int|
            1 <= k < out@.len() ==> call_ensures(
                *same,
                (#[trigger] out@[k], out@[k - 1]),
                false,
            ),
{
    let mut out: Vec<LatLon> = Vec::new();
    let ghost mut marks: Seq<bool> = seq![];
    let mut i: usize = 0;
    while i < points.len()
        invariant
            forall|a: LatLon, b: LatLon| call_requires(*same, (a, b)),
            i <= points@.len(),
            marks.len() == i,
            out@ == unrepeated(points@, marks, i as int),
            i > 0 ==> out@.len() > 0 && out@[0] == points@[0],
            forall|k: int|
                1 <= k < i ==> call_ensures(
                    *same,
                    (points@[k], unrepeated(points@, marks, k).last()),
                    #[trigger] marks[k],
                ),
            forall|k: int|
                1 <= k < out@.len() ==> call_ensures(
                    *same,
                    (#[trigger] out@[k], out@[k - 1]),
                    false,
                ),
        decreases points@.len() - i,
    {
        let here: LatLon = points[i];
        let ghost had = marks;
        let ghost kept = out@;
        let repeats: bool = if i == 0 {
            false
        } else {
            same(here, out[out.len() - 1])
        };
        proof {
            marks = marks.push(repeats);
            lemma_marks_behind(points@, had, marks, i as int);
            assert forall|k: int| 1 <= k < i + 1 implies call_ensures(
                *same,
                (points@[k], unrepeated(points@, marks, k).last()),
                #[trigger] marks[k],
            ) by {
                if k < i {
                    lemma_marks_behind(points@, had, marks, k);
                    assert(marks[k] == had[k]);
                }
            }
        }
        if !repeats {
            out.push(here);
        }
        i = i + 1;
    }
    assert(repeats_marked(points@, marks, *same));
    out
}

/// Marks further on change nothing.
proof fn lemma_marks_behind(points: Seq<LatLon>, a: Seq<bool>, b: Seq<bool>, n: int)
    requires
        n <= a.len(),
        n <= b.len(),
        forall|k: int| 0 <= k < n ==> a[k] == b[k],
    ensures
        unrepeated(points, a, n) == unrepeated(points, b, n),
    decreases n,
{
    if n > 0 {
        lemma_marks_behind(points, a, b, n - 1);
    }
}

/// Leaving out repeats keeps where a line starts, and where it ends but for a
/// point that is the same. Of the points kept no two neighbours are the same.
pub proof fn law_repeats_are_left_out<S: Fn(LatLon, LatLon) -> bool>(
    points: Seq<LatLon>,
    same: S,
    out: Seq<LatLon>,
)
    requires
        points.len() > 0,
        without_repeats_of(points, same, out),
    ensures
        out.len() > 0,
        out.first() == points.first(),
        out.last() == points.last() || call_ensures(same, (points.last(), out.last()), true),
        forall|k: int|
            1 <= k < out.len() ==> call_ensures(same, (#[trigger] out[k], out[k - 1]), false),
        forall|p: LatLon| #[trigger] out.contains(p) ==> points.contains(p),
{
    let marks = choose|marks: Seq<bool>| #[trigger]
        repeats_marked(points, marks, same) && out == unrepeated(
            points,
            marks,
            points.len() as int,
        );
    lemma_unrepeated(points, marks, same, points.len() as int);
    assert forall|p: LatLon| #[trigger] out.contains(p) implies points.contains(p) by {
        let k = out.index_of(p);
        assert(out[k] == p);
    }
}

proof fn lemma_unrepeated<S: Fn(LatLon, LatLon) -> bool>(
    points: Seq<LatLon>,
    marks: Seq<bool>,
    same: S,
    n: int,
)
    requires
        repeats_marked(points, marks, same),
        1 <= n <= points.len(),
    ensures
        ({
            let out = unrepeated(points, marks, n);
            &&& out.len() > 0
            &&& out[0] == points[0]
            &&& out.last() == points[n - 1] || call_ensures(
                same,
                (points[n - 1], out.last()),
                true,
            )
            &&& forall|k: int|
                1 <= k < out.len() ==> call_ensures(same, (#[trigger] out[k], out[k - 1]), false)
            &&& forall|k: int| 0 <= k < out.len() ==> points.contains(#[trigger] out[k])
        }),
    decreases n,
{
    if n == 1 {
        assert(unrepeated(points, marks, 0).len() == 0);
        assert(points.contains(points[0]));
    } else {
        lemma_unrepeated(points, marks, same, n - 1);
        let had = unrepeated(points, marks, n - 1);
        let out = unrepeated(points, marks, n);
        assert(call_ensures(same, (points[n - 1], had.last()), marks[n - 1]));
        assert(points.contains(points[n - 1]));
        assert forall|k: int| 1 <= k < out.len() implies call_ensures(
            same,
            (#[trigger] out[k], out[k - 1]),
            false,
        ) by {
            if k < had.len() {
                assert(out[k] == had[k]);
                assert(out[k - 1] == had[k - 1]);
            }
        }
        assert forall|k: int| 0 <= k < out.len() implies points.contains(#[trigger] out[k]) by {
            if k < had.len() {
                assert(out[k] == had[k]);
            }
        }
    }
}

/// The exploration is one of a graph.
pub open spec fn explored(reach: &Reach, graph: &Graph) -> bool {
    &&& reach.wf()
    &&& reach.costs().len() == graph.shape().nodes.len()
    &&& forall|n: int|
        0 <= n < reach.back().len() ==> (#[trigger] reach.back()[n] matches Some((p, e)) ==> e
            < graph.shape().edges.len())
}

/// The points of an edge, from `a` to `b` or back, if its way is there.
pub fn edge_geometry(net: &TrailNetwork, edge: &Edge, forward: bool) -> (r: Option<Vec<LatLon>>)
    requires
        net.wf(),
        edge.from < edge.to,
        network::place_of(net.list(), edge.way_id) is Some ==> edge.to < way_points(
            net.list(),
            *edge,
        ).len(),
    ensures
        r is Some <==> network::place_of(net.list(), edge.way_id) is Some,
        r matches Some(v) ==> v@ == edge_points(net.list(), *edge, forward),
{
    let way = match net.way_by_id(edge.way_id) {
        Some(w) => w,
        None => {
            return None;
        },
    };
    let ghost points = way.points@;
    let n: usize = way.points.len();
    let from: usize = edge.from as usize;
    let to: usize = edge.to as usize;
    let mut out: Vec<LatLon> = Vec::new();
    if forward {
        let mut i: usize = from;
        while i <= to
            invariant
                points == way.points@,
                from <= i <= to + 1,
                to < n,
                n == points.len(),
                out@ == points.subrange(from as int, i as int),
            decreases to + 1 - i,
        {
            out.push(way.points[i]);
            assert(out@ =~= points.subrange(from as int, i + 1));
            i = i + 1;
        }
    } else {
        let mut i: usize = to + 1;
        while i > from
            invariant
                points == way.points@,
                from <= i <= to + 1,
                to < n,
                n == points.len(),
                out@ == points.subrange(i as int, to + 1).reverse(),
            decreases i,
        {
            i = i - 1;
            out.push(way.points[i]);
            assert(out@ =~= points.subrange(i as int, to + 1).reverse());
        }
    }
    Some(out)
}

/// The points from a snapped point to an end of its edge, if its way is there.
/// The first point is always the snapped one.
pub fn partial_geometry(net: &TrailNetwork, edge: &Edge, snap: &Snap, toward_a: bool) -> (r: Option<
    Vec<LatLon>,
>)
    requires
        net.wf(),
        edge.from < edge.to,
        network::place_of(net.list(), edge.way_id) is Some ==> edge.to < way_points(
            net.list(),
            *edge,
        ).len(),
    ensures
        r is Some <==> network::place_of(net.list(), edge.way_id) is Some,
        r matches Some(v) ==> v@ == partial_points(net.list(), *edge, *snap, toward_a),
{
    let way = match net.way_by_id(edge.way_id) {
        Some(w) => w,
        None => {
            return None;
        },
    };
    let ghost points = way.points@;
    let n: usize = way.points.len();
    let from: usize = edge.from as usize;
    let to: usize = edge.to as usize;
    let seg: usize = if snap.seg < from {
        from
    } else if snap.seg >= to {
        to - 1
    } else {
        snap.seg
    };
    let mut out: Vec<LatLon> = Vec::new();
    out.push(snap.pos);
    if toward_a {
        let mut i: usize = seg + 1;
        while i > from
            invariant
                points == way.points@,
                from <= i <= seg + 1,
                seg < to < n,
                n == points.len(),
                out@ == seq![snap.pos] + points.subrange(i as int, seg + 1).reverse(),
            decreases i,
        {
            i = i - 1;
            out.push(way.points[i]);
            assert(out@ =~= seq![snap.pos] + points.subrange(i as int, seg + 1).reverse());
        }
    } else {
        let mut i: usize = seg + 1;
        while i <= to
            invariant
                points == way.points@,
                seg < i <= to + 1,
                seg < to < n,
                n == points.len(),
                out@ == seq![snap.pos] + points.subrange(seg + 1, i as int),
            decreases to + 1 - i,
        {
            out.push(way.points[i]);
            assert(out@ =~= seq![snap.pos] + points.subrange(seg + 1, i + 1));
            i = i + 1;
        }
    }
    Some(out)
}

/// Appends points but for the first one.
fn extend_behind_first(out: &mut Vec<LatLon>, more: &Vec<LatLon>)
    requires
        more@.len() > 0,
    ensures
        final(out)@ == old(out)@ + more@.skip(1),
{
    let ghost before = out@;
    let mut i: usize = 1;
    while i < more.len()
        invariant
            1 <= i <= more@.len(),
            out@ == before + more@.subrange(1, i as int),
        decreases more@.len() - i,
    {
        out.push(more[i]);
        assert(out@ =~= before + more@.subrange(1, i + 1));
        i = i + 1;
    }
    assert(more@.subrange(1, i as int) =~= more@.skip(1));
}

/// Appends points backwards, but for the last one.
fn extend_back_before_last(out: &mut Vec<LatLon>, more: &Vec<LatLon>)
    requires
        more@.len() > 0,
    ensures
        final(out)@ == old(out)@ + more@.reverse().skip(1),
{
    let ghost before = out@;
    let mut i: usize = more.len() - 1;
    assert(more@.subrange(i as int, more@.len() - 1).reverse() =~= seq![]);
    assert(out@ =~= before + more@.subrange(i as int, more@.len() - 1).reverse());
    while i > 0
        invariant
            i < more@.len(),
            out@ == before + more@.subrange(i as int, more@.len() - 1).reverse(),
        decreases i,
    {
        i = i - 1;
        out.push(more[i]);
        assert(out@ =~= before + more@.subrange(i as int, more@.len() - 1).reverse());
    }
    assert(more@.subrange(0, more@.len() - 1).reverse() =~= more@.reverse().skip(1));
}

/// The stage between two snapped points, over the tree of shortest paths that
/// was explored from the first one. Each point is given with its edge, and the
/// last one also with the cost from either end of its edge.
///
/// Both ends fall in the middle of an edge: the part between the snapped point
/// and the node is put in, so that the line does not jump to the next junction.
/// Points that are the same as the one before them, as `same` answers, are left
/// out.
pub fn route<S: Fn(LatLon, LatLon) -> bool>(
    graph: &Graph,
    net: &TrailNetwork,
    reach: &Reach,
    from: (&Snap, u32),
    to: (&Snap, u32),
    from_a_ms: CostMs,
    from_b_ms: CostMs,
    same: &S,
) -> (r: Option<Route>)
    requires
        forall|a: LatLon, b: LatLon| call_requires(*same, (a, b)),
        graph.wf(),
        net.wf(),
        explored(reach, graph),
        shape::edges_on(graph.shape().edges, net.list()),
        from.1 < graph.shape().edges.len(),
        to.1 < graph.shape().edges.len(),
    ensures
        ({
            let edges = graph.shape().edges;
            let ways = net.list();
            match arrival(edges[to.1 as int], reach.costs(), from_a_ms, from_b_ms) {
                None => r is None,
                Some((cost, end, toward_a)) => {
                    let chain = reach.chain(end as int);
                    let start_edge = edges[from.1 as int];
                    &&& r is Some <==> chain.len() <= MAX_CHAIN
                    &&& r matches Some(v) ==> {
                        &&& v.cost_ms == cost
                        &&& without_repeats_of(
                            stage_points(
                                ways,
                                edges,
                                chain,
                                (*from.0, start_edge, chain_start(chain, end) == start_edge.a),
                                (*to.0, edges[to.1 as int], toward_a),
                            ),
                            *same,
                            v.points@,
                        )
                    }
                },
            }
        }),
{
    let ghost edges = graph.shape().edges;
    let ghost ways = net.list();
    proof {
        graph.lemma_wf();
        assert(network::place_of(ways, edges[from.1 as int].way_id) is Some);
        assert(network::place_of(ways, edges[to.1 as int].way_id) is Some);
    }
    let end_edge: Edge = graph.edge(to.1);
    let over_a: Option<CostMs> = match reach.cost(end_edge.a) {
        Some(c) => Some(c.saturating_add(from_a_ms)),
        None => None,
    };
    let over_b: Option<CostMs> = match reach.cost(end_edge.b) {
        Some(c) => Some(c.saturating_add(from_b_ms)),
        None => None,
    };
    let (total_ms, end_node, end_toward_a): (CostMs, u32, bool) = match (over_a, over_b) {
        (Some(a), Some(b)) => if a <= b {
            (a, end_edge.a, true)
        } else {
            (b, end_edge.b, false)
        },
        (Some(a), None) => (a, end_edge.a, true),
        (None, Some(b)) => (b, end_edge.b, false),
        (None, None) => {
            return None;
        },
    };
    let chain = match reach.edges_to(end_node) {
        Some(c) => c,
        None => {
            return None;
        },
    };
    proof {
        lemma_chain_edges(reach, graph, end_node as int);
    }
    let start_node: u32 = if chain.len() == 0 {
        end_node
    } else {
        chain[0].0
    };
    let start_edge: Edge = graph.edge(from.1);
    let mut points = match partial_geometry(net, &start_edge, from.0, start_node == start_edge.a) {
        Some(v) => v,
        None => {
            return None;
        },
    };
    let ghost head = points@;
    let mut i: usize = 0;
    assert(points@ =~= head + chain_points(ways, edges, chain@.take(0)));
    while i < chain.len()
        invariant
            graph.wf(),
            net.wf(),
            edges == graph.shape().edges,
            ways == net.list(),
            shape::edges_ok(edges, graph.shape().nodes.len()),
            shape::edges_on(edges, ways),
            forall|k: int| 0 <= k < chain@.len() ==> (#[trigger] chain@[k]).1 < edges.len(),
            i <= chain@.len(),
            points@ == head + chain_points(ways, edges, chain@.take(i as int)),
        decreases chain@.len() - i,
    {
        let ghost had = points@;
        assert(chain@.take(i + 1).drop_last() =~= chain@.take(i as int));
        let parent: u32 = chain[i].0;
        let e: u32 = chain[i].1;
        assert(chain@[i as int].1 < edges.len());
        let edge: Edge = graph.edge(e);
        assert(network::place_of(ways, edges[e as int].way_id) is Some);
        match edge_geometry(net, &edge, edge.a == parent) {
            Some(more) => {
                extend_behind_first(&mut points, &more);
            },
            None => {},
        }
        assert(points@ =~= head + chain_points(ways, edges, chain@.take(i + 1)));
        i = i + 1;
    }
    assert(chain@.take(i as int) =~= chain@);
    let tail = match partial_geometry(net, &end_edge, to.0, end_toward_a) {
        Some(v) => v,
        None => {
            return None;
        },
    };
    extend_back_before_last(&mut points, &tail);
    Some(Route { points: without_repeats(&points, same), cost_ms: total_ms })
}

/// The line of a stage starts at the first snapped point and ends at the second
/// one.
pub proof fn law_route_ends(
    ways: Seq<Way>,
    edges: Seq<Edge>,
    chain: Seq<(u32, u32)>,
    from: (Snap, Edge, bool),
    to: (Snap, Edge, bool),
)
    requires
        from.1.from < from.1.to,
        to.1.from < to.1.to,
        from.1.to < way_points(ways, from.1).len(),
        to.1.to < way_points(ways, to.1).len(),
    ensures
        ({
            let points = stage_points(ways, edges, chain, from, to);
            &&& points.first() == from.0.pos
            &&& points.last() == to.0.pos
        }),
{
    let tail = partial_points(ways, to.1, to.0, to.2);
    let seg = kept_seg(to.1, to.0.seg as int);
    assert(tail.len() >= 2);
    assert(tail.reverse().last() == tail[0]);
}

/// The edges of a chain are edges of the graph.
proof fn lemma_chain_edges(reach: &Reach, graph: &Graph, n: int)
    requires
        explored(reach, graph),
        0 <= n < reach.costs().len(),
    ensures
        forall|k: int|
            0 <= k < reach.chain(n).len() ==> (#[trigger] reach.chain(n)[k]).1
                < graph.shape().edges.len(),
    decreases reach.costs()[n], reach.found()[n],
{
    if let Some((p, e)) = reach.back()[n] {
        lemma_chain_edges(reach, graph, p as int);
        let less = reach.chain(p as int);
        assert(reach.chain(n) == less.push((p, e)));
    }
}

// ---------------------------------------------------------------------------
// What a stage is
// ---------------------------------------------------------------------------

/// A stage costs as little as it can: no more than over either end of its last
/// edge that was reached, that is the cost of the end and of the rest of the edge.
/// It costs just that over the end that it arrives over. There is none where
/// neither end was reached.
pub proof fn law_a_stage_arrives_over_the_cheaper_end(
    e: Edge,
    dist: Seq<CostMs>,
    from_a_ms: CostMs,
    from_b_ms: CostMs,
)
    requires
        e.a < dist.len(),
        e.b < dist.len(),
    ensures
        arrival(e, dist, from_a_ms, from_b_ms) is None <==> dist[e.a as int] == UNREACHED
            && dist[e.b as int] == UNREACHED,
        arrival(e, dist, from_a_ms, from_b_ms) matches Some((cost, end, toward_a)) ==> {
            &&& dist[e.a as int] != UNREACHED ==> cost <= dist[e.a as int] + from_a_ms
            &&& dist[e.b as int] != UNREACHED ==> cost <= dist[e.b as int] + from_b_ms
            &&& end == if toward_a {
                e.a
            } else {
                e.b
            }
            &&& dist[end as int] != UNREACHED
            &&& cost == vstd::math::min(
                dist[end as int] + if toward_a {
                    from_a_ms
                } else {
                    from_b_ms
                },
                UNREACHED as int,
            )
        },
{
}

/// The line of an edge passes every point of its stretch, one after the other:
/// upwards from `a` to `b`, and downwards back.
pub proof fn law_an_edge_is_walked_point_by_point(ways: Seq<Way>, e: Edge, forward: bool, k: int)
    requires
        e.from < e.to,
        e.to < way_points(ways, e).len(),
        0 <= k <= e.to - e.from,
    ensures
        edge_points(ways, e, forward).len() == e.to - e.from + 1,
        edge_points(ways, e, forward)[k] == if forward {
            way_points(ways, e)[e.from + k]
        } else {
            way_points(ways, e)[e.to - k]
        },
{
}

/// The line from a snapped point to an end of its edge starts at the point and
/// passes the points of the way between them, one after the other, up to the end
/// itself: downwards to `a`, upwards to `b`.
pub proof fn law_a_part_is_walked_point_by_point(
    ways: Seq<Way>,
    e: Edge,
    snap: Snap,
    toward_a: bool,
    k: int,
)
    requires
        e.from <= snap.seg < e.to,
        e.to < way_points(ways, e).len(),
        1 <= k,
        if toward_a {
            snap.seg + 1 - k >= e.from
        } else {
            snap.seg + k <= e.to
        },
    ensures
        partial_points(ways, e, snap, toward_a).first() == snap.pos,
        partial_points(ways, e, snap, toward_a).last() == way_points(ways, e)[if toward_a {
            e.from as int
        } else {
            e.to as int
        }],
        partial_points(ways, e, snap, toward_a)[k] == way_points(ways, e)[if toward_a {
            snap.seg + 1 - k
        } else {
            snap.seg + k
        }],
        partial_points(ways, e, snap, toward_a).len() == 1 + if toward_a {
            snap.seg + 1 - e.from
        } else {
            e.to - snap.seg
        },
{
}

/// The edges of a chain follow each other: the points of each come right behind
/// those of the ones before it, all of them but the first, which is the node that
/// the line has come to already.
pub proof fn law_a_chain_is_walked_edge_by_edge(
    ways: Seq<Way>,
    edges: Seq<Edge>,
    chain: Seq<(u32, u32)>,
    j: int,
    k: int,
)
    requires
        0 <= j < chain.len(),
        forall|i: int|
            0 <= i < chain.len() ==> {
                let e = edges[(#[trigger] chain[i]).1 as int];
                &&& e.from < e.to
                &&& e.to < way_points(ways, e).len()
            },
        1 <= k <= edges[chain[j].1 as int].to - edges[chain[j].1 as int].from,
    ensures
        ({
            let e = edges[chain[j].1 as int];
            let before = chain_points(ways, edges, chain.take(j)).len();
            &&& chain_points(ways, edges, chain.take(j + 1)).len() == before + (e.to - e.from)
            &&& before + k - 1 < chain_points(ways, edges, chain).len()
            &&& chain_points(ways, edges, chain)[before + k - 1] == if e.a == chain[j].0 {
                way_points(ways, e)[e.from + k]
            } else {
                way_points(ways, e)[e.to - k]
            }
        }),
    decreases chain.len(),
{
    let less = chain.drop_last();
    assert(chain.take(j + 1).drop_last() =~= chain.take(j));
    assert(chain.take(j + 1).last() == chain[j]);
    let e = edges[chain[j].1 as int];
    law_an_edge_is_walked_point_by_point(ways, e, e.a == chain[j].0, k);
    if j < less.len() {
        assert forall|i: int| 0 <= i < less.len() implies {
            let e = edges[(#[trigger] less[i]).1 as int];
            &&& e.from < e.to
            &&& e.to < way_points(ways, e).len()
        } by {
            assert(less[i] == chain[i]);
        }
        assert(less[j] == chain[j]);
        assert(less.take(j) =~= chain.take(j));
        assert(less.take(j + 1) =~= chain.take(j + 1));
        law_a_chain_is_walked_edge_by_edge(ways, edges, less, j, k);
    } else {
        assert(chain.take(j) =~= less);
        assert(chain.take(j + 1) =~= chain);
    }
}

/// The line of a stage is made of three parts with nothing between them: up to the
/// node that the chain starts at, along the chain, and from the node that it ends
/// at, which is left out there, to the second point.
pub proof fn law_a_stage_has_three_parts(
    ways: Seq<Way>,
    edges: Seq<Edge>,
    chain: Seq<(u32, u32)>,
    from: (Snap, Edge, bool),
    to: (Snap, Edge, bool),
    k: int,
)
    requires
        0 <= k < stage_points(ways, edges, chain, from, to).len(),
        partial_points(ways, to.1, to.0, to.2).len() > 0,
    ensures
        ({
            let line = stage_points(ways, edges, chain, from, to);
            let head = partial_points(ways, from.1, from.0, from.2);
            let middle = chain_points(ways, edges, chain);
            let tail = partial_points(ways, to.1, to.0, to.2);
            &&& line.len() == head.len() + middle.len() + tail.len() - 1
            &&& line[k] == if k < head.len() {
                head[k]
            } else if k < head.len() + middle.len() {
                middle[k - head.len()]
            } else {
                tail[line.len() - 1 - k]
            }
        }),
{
}

/// The line of a stage goes from the first point to the second, and leaves the edge
/// of the first one by the end that it is told: there the chain takes over.
pub proof fn law_a_stage_leaves_by_an_end(
    ways: Seq<Way>,
    edges: Seq<Edge>,
    chain: Seq<(u32, u32)>,
    from: (Snap, Edge, bool),
    to: (Snap, Edge, bool),
) -> (h: int)
    requires
        from.1.from < from.1.to < way_points(ways, from.1).len(),
        to.1.from < to.1.to < way_points(ways, to.1).len(),
    ensures
        ({
            let line = stage_points(ways, edges, chain, from, to);
            &&& 1 < h < line.len()
            &&& line[0] == from.0.pos
            &&& line.last() == to.0.pos
            &&& line[h - 1] == way_points(ways, from.1)[if from.2 {
                from.1.from as int
            } else {
                from.1.to as int
            }]
            &&& line.len() > h + chain_points(ways, edges, chain).len()
        }),
{
    let line = stage_points(ways, edges, chain, from, to);
    let head = partial_points(ways, from.1, from.0, from.2);
    let tail = partial_points(ways, to.1, to.0, to.2);
    assert(head.len() >= 2 && tail.len() >= 2);
    let h = head.len() as int;
    assert(line[h - 1] == head[h - 1]);
    assert(line.last() == tail[0]);
    h
}

/// A line without repeats grows point by point: one more is left out just where it is
/// the same as the last one kept, and else goes behind the others. Nothing is left
/// out of a line of one point.
pub proof fn law_only_repeats_are_left_out<S: Fn(LatLon, LatLon) -> bool>(
    points: Seq<LatLon>,
    p: LatLon,
    same: S,
    out: Seq<LatLon>,
) -> (before: Seq<LatLon>)
    requires
        without_repeats_of(points.push(p), same, out),
    ensures
        points.len() == 0 ==> out == seq![p],
        points.len() > 0 ==> {
            &&& without_repeats_of(points, same, before)
            &&& before.len() > 0
            &&& (out == before && call_ensures(same, (p, before.last()), true)) || (out
                == before.push(p) && call_ensures(same, (p, before.last()), false))
        },
{
    let all = points.push(p);
    let n = points.len() as int;
    let marks = choose|marks: Seq<bool>| #[trigger]
        repeats_marked(all, marks, same) && out == unrepeated(all, marks, all.len() as int);
    let fewer = marks.take(n);
    let before = unrepeated(points, fewer, n);
    assert(all.take(n) =~= points);
    lemma_unrepeated_prefix(all, marks, n, n);
    if n == 0 {
        assert(unrepeated(all, marks, 0) =~= seq![]);
        assert(out =~= seq![p]);
    } else {
        assert forall|i: int| 1 <= i < points.len() implies call_ensures(
            same,
            (points[i], unrepeated(points, fewer, i).last()),
            #[trigger] fewer[i],
        ) by {
            lemma_unrepeated_prefix(all, marks, n, i);
            assert(fewer[i] == marks[i]);
            assert(all[i] == points[i]);
        }
        assert(repeats_marked(points, fewer, same));
        assert(without_repeats_of(points, same, before));
        law_repeats_are_left_out(points, same, before);
        assert(call_ensures(same, (all[n], unrepeated(all, marks, n).last()), marks[n]));
    }
    before
}

proof fn lemma_unrepeated_prefix(all: Seq<LatLon>, marks: Seq<bool>, m: int, n: int)
    requires
        n <= m <= all.len(),
        m <= marks.len(),
    ensures
        unrepeated(all, marks, n) == unrepeated(all.take(m), marks.take(m), n),
    decreases n,
{
    if n > 0 {
        lemma_unrepeated_prefix(all, marks, m, n - 1);
    }
}

} // verus!
