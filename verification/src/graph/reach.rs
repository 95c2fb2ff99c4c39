//! What can be reached within a budget: the isochrone, and the tree of shortest
//! paths that stages are built from.
use vstd::multiset::Multiset;
use vstd::prelude::*;

use super::shape;
use super::shape::{CostMs, Edge, Graph};
use crate::heap::{Entry, MinHeap};

verus! {

/// The cost of a node that was not reached.
pub const UNREACHED: CostMs = 0xffff_ffff_ffff_ffff;

/// Longest chain of edges that is followed back to a source.
pub const MAX_CHAIN: usize = 100_000;

// ---------------------------------------------------------------------------
// Walks
// ---------------------------------------------------------------------------

/// Where an edge leads from a node, if it is at the node.
pub open spec fn other_end(e: Edge, n: int) -> Option<int> {
    if e.a == n {
        Some(e.b as int)
    } else if e.b == n {
        Some(e.a as int)
    } else {
        None
    }
}

/// What an edge costs from a node: the first of its two costs from `a` to `b`,
/// the second one back.
pub open spec fn edge_cost(
    edges: Seq<Edge>,
    costs: Seq<(CostMs, CostMs)>,
    e: int,
    n: int,
) -> int {
    if edges[e].a == n {
        costs[e].0 as int
    } else {
        costs[e].1 as int
    }
}

/// Where a walk over some edges leads from a node, if each edge is at the node
/// that the walk has come to.
pub open spec fn walk_end(edges: Seq<Edge>, start: int, walk: Seq<int>) -> Option<int>
    decreases walk.len(),
{
    if walk.len() == 0 {
        Some(start)
    } else {
        match walk_end(edges, start, walk.drop_last()) {
            Some(n) => if 0 <= walk.last() < edges.len() {
                other_end(edges[walk.last()], n)
            } else {
                None
            },
            None => None,
        }
    }
}

/// What a walk costs.
pub open spec fn walk_cost(
    edges: Seq<Edge>,
    costs: Seq<(CostMs, CostMs)>,
    start: int,
    walk: Seq<int>,
) -> int
    decreases walk.len(),
{
    if walk.len() == 0 {
        0
    } else {
        walk_cost(edges, costs, start, walk.drop_last()) + edge_cost(
            edges,
            costs,
            walk.last(),
            walk_end(edges, start, walk.drop_last())->0,
        )
    }
}

/// A question to a graph: where from, at which costs, and how far.
#[verifier::ext_equal]
pub struct Quest {
    pub nodes: nat,
    pub edges: Seq<Edge>,
    pub costs: Seq<(CostMs, CostMs)>,
    pub sources: Seq<(u32, CostMs)>,
    pub budget: CostMs,
}

impl Quest {
    /// The edges join nodes that there are, and each has its costs.
    pub open spec fn ok(self) -> bool {
        &&& shape::edges_ok(self.edges, self.nodes)
        &&& self.nodes <= u32::MAX
        &&& self.costs.len() == self.edges.len()
    }

    /// A walk from the `i`-th source leads to a node at a cost within the budget.
    pub open spec fn leads(self, i: int, walk: Seq<int>, n: int, c: int) -> bool {
        &&& 0 <= i < self.sources.len()
        &&& self.sources[i].0 < self.nodes
        &&& walk_end(self.edges, self.sources[i].0 as int, walk) == Some(n)
        &&& c == self.sources[i].1 + walk_cost(
            self.edges,
            self.costs,
            self.sources[i].0 as int,
            walk,
        )
        &&& c <= self.budget
    }

    /// A node can be reached at a cost.
    pub open spec fn reachable(self, n: int, c: int) -> bool {
        exists|i: int, walk: Seq<int>| self.leads(i, walk, n, c)
    }

    /// The costs are the least ones: of every node that can be reached, and of
    /// none other.
    pub open spec fn least(self, dist: Seq<CostMs>) -> bool {
        &&& dist.len() == self.nodes
        &&& forall|n: int|
            0 <= n < dist.len() && #[trigger] dist[n] != UNREACHED ==> self.reachable(
                n,
                dist[n] as int,
            )
        &&& forall|n: int, c: int|
            0 <= n < dist.len() && #[trigger] self.reachable(n, c) && c < UNREACHED ==> dist[n] <= c
    }

    /// The way back from each node: over an edge from a node that is just as much
    /// cheaper as the edge costs, or nothing at a source.
    pub open spec fn tree(
        self,
        dist: Seq<CostMs>,
        prev: Seq<Option<(u32, u32)>>,
        rank: Seq<nat>,
    ) -> bool {
        &&& dist.len() == self.nodes
        &&& prev.len() == self.nodes
        &&& rank.len() == self.nodes
        &&& forall|n: int|
            0 <= n < self.nodes ==> match #[trigger] prev[n] {
                Some((p, e)) => {
                    &&& p < self.nodes
                    &&& e < self.edges.len()
                    &&& other_end(self.edges[e as int], p as int) == Some(n)
                    &&& dist[n] == dist[p as int] + edge_cost(
                        self.edges,
                        self.costs,
                        e as int,
                        p as int,
                    )
                    &&& dist[n] <= self.budget
                    &&& dist[n] != UNREACHED
                    &&& earlier(dist, rank, p as int, n)
                },
                None => dist[n] != UNREACHED ==> dist[n] <= self.budget && self.sources.contains(
                    (n as u32, dist[n]),
                ),
            }
    }
}

/// A node was settled before another: cheaper, or at the same cost and found
/// earlier.
pub open spec fn earlier(dist: Seq<CostMs>, rank: Seq<nat>, p: int, n: int) -> bool {
    dist[p] < dist[n] || (dist[p] == dist[n] && rank[p] < rank[n])
}

/// The chain of nodes and edges that leads from a source to a node.
pub open spec fn chain_to(
    dist: Seq<CostMs>,
    prev: Seq<Option<(u32, u32)>>,
    rank: Seq<nat>,
    n: int,
) -> Seq<(u32, u32)>
    decreases dist[n], rank[n],
{
    match prev[n] {
        Some((p, e)) => if earlier(dist, rank, p as int, n) {
            chain_to(dist, prev, rank, p as int).push((p, e))
        } else {
            seq![]
        },
        None => seq![],
    }
}

// ---------------------------------------------------------------------------
// Exploration
// ---------------------------------------------------------------------------

/// What an exploration found: the cost of each node and the tree of paths.
pub struct Reach {
    pub dist: Vec<CostMs>,
    /// The way back from each node.
    pub prev: Vec<Option<(u32, u32)>>,
    /// When each node was last found.
    pub rank: Ghost<Seq<nat>>,
}

spec fn total(dist: Seq<CostMs>) -> nat
    decreases dist.len(),
{
    if dist.len() == 0 {
        0
    } else {
        total(dist.drop_last()) + dist.last() as nat
    }
}

/// The edges at a node lead nowhere cheaper than is known already.
spec fn relaxed(q: Quest, dist: Seq<CostMs>, n: int) -> bool {
    forall|e: int| #[trigger] relaxed_over(q, dist, n, e)
}

spec fn relaxed_over(q: Quest, dist: Seq<CostMs>, n: int, e: int) -> bool {
    0 <= e < q.edges.len() ==> match other_end(q.edges[e], n) {
        Some(m) => {
            let c = dist[n] + edge_cost(q.edges, q.costs, e, n);
            c <= q.budget && c < UNREACHED ==> dist[m] <= c
        },
        None => true,
    }
}

/// What holds of costs and tree while they are still found out.
spec fn growing(
    q: Quest,
    dist: Seq<CostMs>,
    prev: Seq<Option<(u32, u32)>>,
    rank: Seq<nat>,
    clock: nat,
) -> bool {
    &&& dist.len() == q.nodes
    &&& prev.len() == q.nodes
    &&& rank.len() == q.nodes
    &&& forall|n: int| 0 <= n < q.nodes ==> #[trigger] rank[n] < clock
    &&& forall|n: int|
        0 <= n < q.nodes ==> match #[trigger] prev[n] {
            Some((p, e)) => {
                &&& p < q.nodes
                &&& e < q.edges.len()
                &&& other_end(q.edges[e as int], p as int) == Some(n)
                &&& dist[n] >= dist[p as int] + edge_cost(q.edges, q.costs, e as int, p as int)
                &&& dist[n] <= q.budget
                &&& dist[n] != UNREACHED
                &&& earlier(dist, rank, p as int, n)
            },
            None => dist[n] != UNREACHED ==> dist[n] <= q.budget && q.sources.contains(
                (n as u32, dist[n]),
            ),
        }
}

/// Every entry is of a node that was reached, costs no less than is known of it,
/// and is within the budget.
spec fn heap_ok(q: Quest, dist: Seq<CostMs>, heap: Multiset<Entry>) -> bool {
    forall|x: Entry| #[trigger]
        heap.contains(x) ==> x.1 < q.nodes && x.0 >= dist[x.1 as int] && x.0 < UNREACHED && x.0
            <= q.budget
}

/// Every node that was reached is still to be looked at, or done with.
spec fn pending_or_done(q: Quest, dist: Seq<CostMs>, heap: Multiset<Entry>, n: int) -> bool {
    dist[n] != UNREACHED ==> heap.contains((dist[n], n as u32)) || relaxed(q, dist, n)
}

/// The sources within the budget cost no more than they were given with.
spec fn sources_ok(q: Quest, dist: Seq<CostMs>) -> bool {
    forall|i: int|
        0 <= i < q.sources.len() && (#[trigger] q.sources[i]).0 < q.nodes && q.sources[i].1
            <= q.budget ==> dist[q.sources[i].0 as int] <= q.sources[i].1
}

impl Reach {
    /// The cost of each node.
    pub open spec fn costs(&self) -> Seq<CostMs> {
        self.dist@
    }

    /// The way back from each node.
    pub open spec fn back(&self) -> Seq<Option<(u32, u32)>> {
        self.prev@
    }

    /// When each node was last found.
    pub open spec fn found(&self) -> Seq<nat> {
        self.rank@
    }

    /// The chain of nodes and edges that leads from a source to a node.
    pub open spec fn chain(&self, n: int) -> Seq<(u32, u32)> {
        chain_to(self.costs(), self.back(), self.found(), n)
    }

    /// The paths lead back to where they started, never round in a circle.
    pub open spec fn wf(&self) -> bool {
        &&& self.back().len() == self.costs().len()
        &&& self.found().len() == self.costs().len()
        &&& forall|n: int|
            0 <= n < self.costs().len() ==> (#[trigger] self.back()[n] matches Some((p, e)) ==> p
                < self.costs().len() && earlier(self.costs(), self.found(), p as int, n))
    }

    /// The cost of a node, if it was reached.
    pub fn cost(&self, node: u32) -> (r: Option<CostMs>)
        ensures
            match r {
                Some(c) => node < self.costs().len() && c == self.costs()[node as int] && c
                    != UNREACHED,
                None => node >= self.costs().len() || self.costs()[node as int] == UNREACHED,
            },
    {
        if (node as usize) < self.dist.len() {
            let c: CostMs = self.dist[node as usize];
            if c != UNREACHED {
                return Some(c);
            }
        }
        None
    }

    /// How many nodes were reached.
    pub fn reached_count(&self) -> (k: usize)
        ensures
            k == reached(self.costs()),
    {
        let mut k: usize = 0;
        let mut i: usize = 0;
        while i < self.dist.len()
            invariant
                i <= self.dist@.len(),
                k <= i,
                k == reached(self.dist@.take(i as int)),
            decreases self.dist@.len() - i,
        {
            assert(self.dist@.take(i + 1).drop_last() =~= self.dist@.take(i as int));
            if self.dist[i] != UNREACHED {
                k = k + 1;
            }
            i = i + 1;
        }
        assert(self.dist@.take(i as int) =~= self.dist@);
        k
    }

    /// The edges with both ends reached, each with the cost of its dearer end.
    pub fn reachable_edges(&self, graph: &Graph) -> (v: Vec<(u32, CostMs)>)
        requires
            graph.wf(),
        ensures
            v@ == edges_reached(graph.shape().edges, self.costs()),
            forall|k: int|
                0 <= k < v@.len() ==> (#[trigger] v@[k]).0 < graph.shape().edges.len(),
    {
        proof {
            graph.lemma_wf();
        }
        let ghost edges = graph.shape().edges;
        let n: usize = graph.edge_count();
        let mut out: Vec<(u32, CostMs)> = Vec::new();
        let mut e: usize = 0;
        while e < n
            invariant
                n == edges.len(),
                edges == graph.shape().edges,
                n <= u32::MAX,
                e <= n,
                out@ == edges_reached(edges.take(e as int), self.costs()),
                forall|k: int| 0 <= k < out@.len() ==> (#[trigger] out@[k]).0 < e,
            decreases n - e,
        {
            assert(edges.take(e + 1).drop_last() =~= edges.take(e as int));
            let edge: Edge = graph.edge(e as u32);
            match (self.cost(edge.a), self.cost(edge.b)) {
                (Some(a), Some(b)) => {
                    out.push((e as u32, if a >= b {
                        a
                    } else {
                        b
                    }));
                },
                _ => {},
            }
            e = e + 1;
        }
        assert(edges.take(e as int) =~= edges);
        out
    }

    /// Follows the tree from a node back to its source, and hands out the chain
    /// from the source on. Nothing where the chain is longer than any real one.
    pub fn edges_to(&self, node: u32) -> (r: Option<Vec<(u32, u32)>>)
        requires
            self.wf(),
            node < self.costs().len(),
        ensures
            r is Some <==> self.chain(node as int).len() <= MAX_CHAIN,
            r matches Some(v) ==> v@ == self.chain(node as int),
    {
        let mut out: Vec<(u32, u32)> = Vec::new();
        let mut cur: u32 = node;
        let ghost whole = self.chain(node as int);
        assert(whole =~= self.chain(cur as int) + out@.reverse());
        loop
            invariant_except_break
                self.wf(),
                cur < self.costs().len(),
                whole == self.chain(node as int),
                whole == self.chain(cur as int) + out@.reverse(),
                out@.len() <= MAX_CHAIN,
            ensures
                whole == out@.reverse(),
                out@.len() <= MAX_CHAIN,
            decreases self.costs()[cur as int], self.found()[cur as int],
        {
            match self.prev[cur as usize] {
                Some((parent, edge)) => {
                    assert(self.back()[cur as int] == Some((parent, edge)));
                    let ghost had = out@;
                    out.push((parent, edge));
                    proof {
                        assert(out@.reverse() =~= seq![(parent, edge)] + had.reverse());
                        assert(self.chain(parent as int) + out@.reverse() =~= self.chain(
                            parent as int,
                        ).push((parent, edge)) + had.reverse());
                    }
                    cur = parent;
                    if out.len() > MAX_CHAIN {
                        return None;
                    }
                },
                None => {
                    assert(self.back()[cur as int] is None);
                    assert(whole =~= out@.reverse());
                    break;
                },
            }
        }
        let mut forward: Vec<(u32, u32)> = Vec::new();
        let mut i: usize = out.len();
        while i > 0
            invariant
                i <= out@.len(),
                forward@ == out@.subrange(i as int, out@.len() as int).reverse(),
            decreases i,
        {
            i = i - 1;
            forward.push(out[i]);
            assert(forward@ =~= out@.subrange(i as int, out@.len() as int).reverse());
        }
        assert(out@.subrange(0, out@.len() as int) =~= out@);
        Some(forward)
    }
}

/// How many nodes were reached.
pub open spec fn reached(dist: Seq<CostMs>) -> nat
    decreases dist.len(),
{
    if dist.len() == 0 {
        0
    } else {
        reached(dist.drop_last()) + if dist.last() != UNREACHED {
            1nat
        } else {
            0nat
        }
    }
}

/// Whether a node was reached.
pub open spec fn is_reached(dist: Seq<CostMs>, n: u32) -> bool {
    n < dist.len() && dist[n as int] != UNREACHED
}

/// The edges with both ends reached, each with the cost of its dearer end.
pub open spec fn edges_reached(edges: Seq<Edge>, dist: Seq<CostMs>) -> Seq<(u32, CostMs)>
    decreases edges.len(),
{
    if edges.len() == 0 {
        seq![]
    } else {
        let rest = edges_reached(edges.drop_last(), dist);
        let e = edges.last();
        if is_reached(dist, e.a) && is_reached(dist, e.b) {
            rest.push(
                (
                    (edges.len() - 1) as u32,
                    if dist[e.a as int] >= dist[e.b as int] {
                        dist[e.a as int]
                    } else {
                        dist[e.b as int]
                    },
                ),
            )
        } else {
            rest
        }
    }
}

impl Graph {
    /// The question that [`Graph::explore`] answers.
    pub open spec fn quest(
        &self,
        sources: Seq<(u32, CostMs)>,
        budget: CostMs,
        costs: Seq<(CostMs, CostMs)>,
    ) -> Quest {
        Quest {
            nodes: self.shape().nodes.len(),
            edges: self.shape().edges,
            costs,
            sources,
            budget,
        }
    }

    /// Shortest paths from some weighted sources, bounded by a budget: both the
    /// isochrone and the tree that stages are built from. Each edge is given
    /// with its cost forward and its cost back.
    pub fn explore(
        &self,
        sources: &Vec<(u32, CostMs)>,
        budget_ms: CostMs,
        costs: &Vec<(CostMs, CostMs)>,
    ) -> (r: Reach)
        requires
            self.wf(),
            costs@.len() == self.shape().edges.len(),
        ensures
            r.wf(),
            self.quest(sources@, budget_ms, costs@).least(r.costs()),
            self.quest(sources@, budget_ms, costs@).tree(r.costs(), r.back(), r.found()),
            forall|n: int|
                0 <= n < r.costs().len() && #[trigger] r.costs()[n] != UNREACHED ==> r.costs()[n]
                    <= budget_ms,
    {
        let ghost q = self.quest(sources@, budget_ms, costs@);
        proof {
            self.lemma_wf();
            assert(q.ok());
        }
        let n: usize = self.node_count();
        let mut dist: Vec<CostMs> = Vec::new();
        let mut prev: Vec<Option<(u32, u32)>> = Vec::new();
        let ghost mut rank: Seq<nat> = Seq::empty();
        let mut i: usize = 0;
        while i < n
            invariant
                i <= n,
                dist@.len() == i,
                prev@.len() == i,
                rank.len() == i,
                forall|k: int| 0 <= k < i ==> dist@[k] == UNREACHED,
                forall|k: int| 0 <= k < i ==> prev@[k] is None,
                forall|k: int| 0 <= k < i ==> rank[k] == 0,
            decreases n - i,
        {
            dist.push(UNREACHED);
            prev.push(None);
            proof {
                rank = rank.push(0);
            }
            i = i + 1;
        }
        let mut heap = MinHeap::new();
        let ghost mut clock: nat = 1;
        let mut s: usize = 0;
        while s < sources.len()
            invariant
                q == self.quest(sources@, budget_ms, costs@),
                q.ok(),
                n == q.nodes,
                s <= sources@.len(),
                heap.wf(),
                growing(q, dist@, prev@, rank, clock),
                heap_ok(q, dist@, heap@),
                forall|k: int| 0 <= k < q.nodes ==> #[trigger] prev@[k] is None,
                forall|k: int|
                    0 <= k < q.nodes ==> #[trigger] pending_or_done(q, dist@, heap@, k),
                forall|k: int|
                    0 <= k < s && (#[trigger] sources@[k]).0 < q.nodes && sources@[k].1 <= budget_ms
                        ==> dist@[sources@[k].0 as int] <= sources@[k].1,
            decreases sources@.len() - s,
        {
            let node: u32 = sources[s].0;
            let cost: CostMs = sources[s].1;
            if (node as usize) < n && cost <= budget_ms && cost < dist[node as usize] {
                let ghost was = dist@;
                let ghost queued = heap@;
                dist[node as usize] = cost;
                heap.push((cost, node));
                proof {
                    assert(q.sources[s as int] == (node, cost));
                    lemma_heap_push(q, was, dist@, queued, (cost, node));
                    assert forall|k: int| 0 <= k < q.nodes implies #[trigger] pending_or_done(
                        q,
                        dist@,
                        heap@,
                        k,
                    ) by {
                        assert(pending_or_done(q, was, queued, k));
                        if k != node {
                            lemma_kept(q, was, dist@, queued, heap@, k);
                        }
                    }
                }
            }
            s = s + 1;
        }
        assert(sources_ok(q, dist@));
        proof {
            clock = clock + 1;
        }
        loop
            invariant_except_break
                self.wf(),
                self.shape().edges == q.edges,
                self.shape().nodes.len() == q.nodes,
                costs@ == q.costs,
                budget_ms == q.budget,
                q.ok(),
                n == q.nodes,
                heap.wf(),
                growing(q, dist@, prev@, rank, clock),
                heap_ok(q, dist@, heap@),
                sources_ok(q, dist@),
                forall|k: int|
                    0 <= k < q.nodes ==> #[trigger] pending_or_done(q, dist@, heap@, k),
            ensures
                heap@.len() == 0,
                growing(q, dist@, prev@, rank, clock),
                sources_ok(q, dist@),
                forall|k: int|
                    0 <= k < q.nodes ==> #[trigger] pending_or_done(q, dist@, heap@, k),
            decreases total(dist@), heap@.len(),
        {
            let ghost queued = heap@;
            let entry = heap.pop();
            let (d, node) = match entry {
                Some(e) => e,
                None => {
                    break;
                },
            };
            let ghost before = dist@;
            let ghost len0 = queued.len();
            assert(queued.contains((d, node)));
            proof {
                lemma_heap_pop(q, dist@, queued, (d, node));
            }
            if d > dist[node as usize] {
                proof {
                    assert forall|k: int| 0 <= k < q.nodes implies #[trigger] pending_or_done(
                        q,
                        dist@,
                        heap@,
                        k,
                    ) by {
                        assert(pending_or_done(q, dist@, queued, k));
                        if (dist@[k], k as u32) != (d, node) {
                            assert(queued.contains((dist@[k], k as u32)) ==> heap@.contains(
                                (dist@[k], k as u32),
                            ));
                        }
                    }
                }
                continue ;
            }
            let list = self.edges_at(node);
            proof {
                shape::lemma_incident(q.edges, node as int);
            }
            let mut j: usize = 0;
            proof {
                assert forall|k: int| 0 <= k < q.nodes && k != node implies #[trigger]
                    pending_or_done(q, dist@, heap@, k) by {
                    assert(pending_or_done(q, dist@, queued, k));
                    assert(queued.contains((dist@[k], k as u32)) ==> heap@.contains(
                        (dist@[k], k as u32),
                    ));
                }
            }
            while j < list.len()
                invariant
                    self.wf(),
                    self.shape().edges == q.edges,
                    costs@ == q.costs,
                    budget_ms == q.budget,
                    q.ok(),
                    n == q.nodes,
                    list@ == shape::incident(q.edges, node as int),
                    forall|x: int|
                        0 <= x < list@.len() ==> #[trigger] list@[x] < q.edges.len() && (
                        q.edges[list@[x] as int].a == node || q.edges[list@[x] as int].b == node),
                    j <= list@.len(),
                    node < q.nodes,
                    d == dist@[node as int],
                    d <= budget_ms,
                    d != UNREACHED,
                    heap.wf(),
                    growing(q, dist@, prev@, rank, clock),
                    heap_ok(q, dist@, heap@),
                    sources_ok(q, dist@),
                    forall|k: int|
                        0 <= k < q.nodes && k != node ==> #[trigger] pending_or_done(
                            q,
                            dist@,
                            heap@,
                            k,
                        ),
                    forall|x: int|
                        0 <= x < j ==> relaxed_over(
                            q,
                            dist@,
                            node as int,
                            #[trigger] list@[x] as int,
                        ),
                    total(dist@) < total(before) || (dist@ == before && heap@.len() + 1 == len0),
                decreases list@.len() - j,
            {
                let edge_idx: u32 = list[j];
                let e: Edge = self.edge(edge_idx);
                let forward: bool = e.a == node;
                let other: u32 = if forward {
                    e.b
                } else {
                    e.a
                };
                let step: CostMs = if forward {
                    costs[edge_idx as usize].0
                } else {
                    costs[edge_idx as usize].1
                };
                assert(q.edges[edge_idx as int] == e);
                assert(other_end(e, node as int) == Some(other as int));
                let next: CostMs = d.saturating_add(step);
                if next <= budget_ms && next < dist[other as usize] {
                    let ghost was = dist@;
                    let ghost was_prev = prev@;
                    let ghost was_rank = rank;
                    let ghost was_queued = heap@;
                    dist[other as usize] = next;
                    prev[other as usize] = Some((node, edge_idx));
                    heap.push((next, other));
                    proof {
                        rank = rank.update(other as int, clock);
                        clock = clock + 1;
                        lemma_total_update(was, other as int, next);
                        lemma_heap_push(q, was, dist@, was_queued, (next, other));
                        lemma_found(
                            q,
                            was,
                            was_prev,
                            was_rank,
                            (clock - 1) as nat,
                            other as int,
                            node,
                            edge_idx,
                            next,
                        );
                        assert forall|k: int| 0 <= k < q.nodes && k != node implies #[trigger]
                            pending_or_done(q, dist@, heap@, k) by {
                            assert(pending_or_done(q, was, was_queued, k));
                            if k != other {
                                lemma_kept(q, was, dist@, was_queued, heap@, k);
                            }
                        }
                        assert forall|x: int| 0 <= x < j + 1 implies relaxed_over(
                            q,
                            dist@,
                            node as int,
                            #[trigger] list@[x] as int,
                        ) by {
                            if x < j {
                                assert(relaxed_over(q, was, node as int, list@[x] as int));
                            }
                        }
                    }
                }
                j = j + 1;
            }
            proof {
                assert(relaxed(q, dist@, node as int)) by {
                    assert forall|e: int| #[trigger] relaxed_over(q, dist@, node as int, e) by {
                        if 0 <= e < q.edges.len() && other_end(q.edges[e], node as int) is Some {
                            assert(list@.contains(e as u32));
                            let x = list@.index_of(e as u32);
                            assert(relaxed_over(q, dist@, node as int, list@[x] as int));
                        }
                    }
                }
                assert(pending_or_done(q, dist@, heap@, node as int));
            }
        }
        proof {
            assert forall|k: int| 0 <= k < q.nodes && #[trigger] dist@[k] != UNREACHED implies relaxed(
                q,
                dist@,
                k,
            ) by {
                assert(pending_or_done(q, dist@, heap@, k));
            }
            lemma_tree(q, dist@, prev@, rank, clock);
            lemma_least(q, dist@, prev@, rank);
        }
        Reach { dist, prev, rank: Ghost(rank) }
    }
}

// ---------------------------------------------------------------------------
// Proofs
// ---------------------------------------------------------------------------

/// The chain to a reached node is a walk from a source, its cost is the cost of
/// the node, and no walk within the budget is cheaper.
pub proof fn law_chain_is_a_shortest_walk(q: Quest, r: &Reach, n: int)
    requires
        q.ok(),
        q.least(r.costs()),
        q.tree(r.costs(), r.back(), r.found()),
        0 <= n < q.nodes,
        r.costs()[n] != UNREACHED,
    ensures
        ({
            let chain = r.chain(n);
            let walk = Seq::new(chain.len(), |k: int| chain[k].1 as int);
            let start = if chain.len() == 0 {
                n
            } else {
                chain[0].0 as int
            };
            &&& 0 <= start < q.nodes
            &&& q.sources.contains((start as u32, r.costs()[start]))
            &&& walk_end(q.edges, start, walk) == Some(n)
            &&& r.costs()[n] == r.costs()[start] + walk_cost(q.edges, q.costs, start, walk)
            &&& forall|i: int, w: Seq<int>, c: int| #[trigger]
                q.leads(i, w, n, c) && c < UNREACHED ==> r.costs()[n] <= c
        }),
{
    lemma_chain(q, r.costs(), r.back(), r.found(), n);
    assert forall|i: int, w: Seq<int>, c: int| #[trigger] q.leads(i, w, n, c) && c
        < UNREACHED implies r.costs()[n] <= c by {
        assert(q.reachable(n, c));
    }
}

/// A larger budget reaches every node that a smaller one did, at no greater
/// cost.
pub proof fn law_more_budget_reaches_more(q: Quest, more: CostMs, a: Seq<CostMs>, b: Seq<CostMs>, n: int)
    requires
        q.budget <= more,
        q.least(a),
        (Quest { budget: more, ..q }).least(b),
        0 <= n < q.nodes,
        a[n] != UNREACHED,
    ensures
        b[n] <= a[n],
        b[n] != UNREACHED,
{
    let wide = Quest { budget: more, ..q };
    assert(q.reachable(n, a[n] as int));
    let (i, walk) = choose|i: int, walk: Seq<int>| q.leads(i, walk, n, a[n] as int);
    assert(wide.leads(i, walk, n, a[n] as int));
    assert(wide.reachable(n, a[n] as int));
}

/// At the same budget, dearer edges reach no node that cheaper ones do not, and
/// none at a lower cost.
pub proof fn law_dearer_edges_reach_less(
    q: Quest,
    dear: Seq<(CostMs, CostMs)>,
    a: Seq<CostMs>,
    b: Seq<CostMs>,
    n: int,
)
    requires
        q.ok(),
        dear.len() == q.costs.len(),
        forall|e: int|
            0 <= e < dear.len() ==> q.costs[e].0 <= (#[trigger] dear[e]).0 && q.costs[e].1
                <= dear[e].1,
        q.least(a),
        (Quest { costs: dear, ..q }).least(b),
        0 <= n < q.nodes,
        b[n] != UNREACHED,
    ensures
        a[n] <= b[n],
        a[n] != UNREACHED,
{
    let steep = Quest { costs: dear, ..q };
    assert(steep.reachable(n, b[n] as int));
    let (i, walk) = choose|i: int, walk: Seq<int>| steep.leads(i, walk, n, b[n] as int);
    let start = q.sources[i].0 as int;
    lemma_dearer(q.edges, q.costs, dear, start, walk);
    lemma_walk_cost_nonneg(q.edges, q.costs, start, walk);
    let c = q.sources[i].1 + walk_cost(q.edges, q.costs, start, walk);
    assert(q.leads(i, walk, n, c));
    assert(q.reachable(n, c));
}

proof fn lemma_dearer(
    edges: Seq<Edge>,
    costs: Seq<(CostMs, CostMs)>,
    dear: Seq<(CostMs, CostMs)>,
    start: int,
    walk: Seq<int>,
)
    requires
        costs.len() == edges.len(),
        dear.len() == edges.len(),
        forall|e: int|
            0 <= e < dear.len() ==> costs[e].0 <= (#[trigger] dear[e]).0 && costs[e].1
                <= dear[e].1,
        walk_end(edges, start, walk) is Some,
    ensures
        walk_cost(edges, costs, start, walk) <= walk_cost(edges, dear, start, walk),
    decreases walk.len(),
{
    if walk.len() > 0 {
        lemma_dearer(edges, costs, dear, start, walk.drop_last());
        let e = walk.last();
        assert(costs[e].0 <= dear[e].0);
    }
}

proof fn lemma_walk_cost_nonneg(
    edges: Seq<Edge>,
    costs: Seq<(CostMs, CostMs)>,
    start: int,
    walk: Seq<int>,
)
    ensures
        walk_cost(edges, costs, start, walk) >= 0,
    decreases walk.len(),
{
    if walk.len() > 0 {
        lemma_walk_cost_nonneg(edges, costs, start, walk.drop_last());
    }
}

/// Entries stay in order when costs fall and one more is added.
proof fn lemma_heap_push(
    q: Quest,
    was: Seq<CostMs>,
    now: Seq<CostMs>,
    heap: Multiset<Entry>,
    x: Entry,
)
    requires
        heap_ok(q, was, heap),
        was.len() == q.nodes,
        now.len() == q.nodes,
        forall|m: int| 0 <= m < q.nodes ==> now[m] <= was[m],
        x.1 < q.nodes,
        x.0 >= now[x.1 as int],
        x.0 < UNREACHED,
        x.0 <= q.budget,
    ensures
        heap_ok(q, now, heap.insert(x)),
{
    assert forall|y: Entry| #[trigger] heap.insert(x).contains(y) implies y.1 < q.nodes && y.0
        >= now[y.1 as int] && y.0 < UNREACHED && y.0 <= q.budget by {
        if y != x {
            assert(heap.contains(y));
        }
    }
}

/// Entries stay in order when one is taken out.
proof fn lemma_heap_pop(q: Quest, dist: Seq<CostMs>, heap: Multiset<Entry>, x: Entry)
    requires
        heap_ok(q, dist, heap),
    ensures
        heap_ok(q, dist, heap.remove(x)),
{
    assert forall|y: Entry| #[trigger] heap.remove(x).contains(y) implies y.1 < q.nodes && y.0
        >= dist[y.1 as int] && y.0 < UNREACHED && y.0 <= q.budget by {
        assert(heap.contains(y));
    }
}

/// A node whose cost did not change stays to be looked at or done with.
proof fn lemma_kept(
    q: Quest,
    was: Seq<CostMs>,
    now: Seq<CostMs>,
    queued: Multiset<Entry>,
    heap: Multiset<Entry>,
    k: int,
)
    requires
        was.len() == q.nodes,
        now.len() == q.nodes,
        q.ok(),
        0 <= k < q.nodes,
        now[k] == was[k],
        forall|m: int| 0 <= m < q.nodes ==> now[m] <= was[m],
        forall|x: Entry| #[trigger] queued.contains(x) ==> heap.contains(x),
        pending_or_done(q, was, queued, k),
    ensures
        pending_or_done(q, now, heap, k),
{
    if relaxed(q, was, k) {
        assert(relaxed(q, now, k)) by {
            assert forall|e: int| #[trigger] relaxed_over(q, now, k, e) by {
                assert(relaxed_over(q, was, k, e));
            }
        }
    }
}

/// A node that is found anew, more cheaply, keeps the tree in order.
proof fn lemma_found(
    q: Quest,
    dist: Seq<CostMs>,
    prev: Seq<Option<(u32, u32)>>,
    rank: Seq<nat>,
    clock: nat,
    other: int,
    node: u32,
    edge: u32,
    next: CostMs,
)
    requires
        q.ok(),
        growing(q, dist, prev, rank, clock),
        node < q.nodes,
        0 <= other < q.nodes,
        edge < q.edges.len(),
        other_end(q.edges[edge as int], node as int) == Some(other),
        next < dist[other],
        next <= q.budget,
        next >= dist[node as int] + edge_cost(q.edges, q.costs, edge as int, node as int),
    ensures
        growing(
            q,
            dist.update(other, next),
            prev.update(other, Some((node, edge))),
            rank.update(other, clock),
            clock + 1,
        ),
{
    let dist2 = dist.update(other, next);
    let prev2 = prev.update(other, Some((node, edge)));
    let rank2 = rank.update(other, clock);
    assert(q.edges[edge as int].a != q.edges[edge as int].b);
    assert(other != node);
    assert forall|n: int| 0 <= n < q.nodes implies match #[trigger] prev2[n] {
        Some((p, e)) => {
            &&& p < q.nodes
            &&& e < q.edges.len()
            &&& other_end(q.edges[e as int], p as int) == Some(n)
            &&& dist2[n] >= dist2[p as int] + edge_cost(q.edges, q.costs, e as int, p as int)
            &&& dist2[n] <= q.budget
            &&& dist2[n] != UNREACHED
            &&& earlier(dist2, rank2, p as int, n)
        },
        None => dist2[n] != UNREACHED ==> dist2[n] <= q.budget && q.sources.contains(
            (n as u32, dist2[n]),
        ),
    } by {
        if n != other {
            assert(prev2[n] == prev[n]);
            if let Some((p, e)) = prev[n] {
                assert(earlier(dist, rank, p as int, n));
            }
        } else {
            assert(rank[node as int] < clock);
        }
    }
    assert forall|n: int| 0 <= n < q.nodes implies #[trigger] rank2[n] < clock + 1 by {
        assert(rank[n] < clock);
    }
}

proof fn lemma_total_update(dist: Seq<CostMs>, i: int, c: CostMs)
    requires
        0 <= i < dist.len(),
        c < dist[i],
    ensures
        total(dist.update(i, c)) < total(dist),
    decreases dist.len(),
{
    let less = dist.drop_last();
    let up = dist.update(i, c);
    if i < less.len() {
        assert(up.drop_last() =~= less.update(i, c));
        lemma_total_update(less, i, c);
    } else {
        assert(up.drop_last() =~= less);
    }
}

/// With nothing left to look at, the way back to a node costs just what the node
/// does.
proof fn lemma_tree(
    q: Quest,
    dist: Seq<CostMs>,
    prev: Seq<Option<(u32, u32)>>,
    rank: Seq<nat>,
    clock: nat,
)
    requires
        q.ok(),
        growing(q, dist, prev, rank, clock),
        forall|k: int|
            0 <= k < q.nodes && #[trigger] dist[k] != UNREACHED ==> relaxed(q, dist, k),
    ensures
        q.tree(dist, prev, rank),
{
    assert forall|n: int| 0 <= n < q.nodes implies match #[trigger] prev[n] {
        Some((p, e)) => {
            &&& p < q.nodes
            &&& e < q.edges.len()
            &&& other_end(q.edges[e as int], p as int) == Some(n)
            &&& dist[n] == dist[p as int] + edge_cost(q.edges, q.costs, e as int, p as int)
            &&& dist[n] <= q.budget
            &&& dist[n] != UNREACHED
            &&& earlier(dist, rank, p as int, n)
        },
        None => dist[n] != UNREACHED ==> dist[n] <= q.budget && q.sources.contains(
            (n as u32, dist[n]),
        ),
    } by {
        if let Some((p, e)) = prev[n] {
            assert(dist[p as int] != UNREACHED);
            assert(relaxed_over(q, dist, p as int, e as int));
        }
    }
}

/// With nothing left to look at, the costs are the least ones.
proof fn lemma_least(
    q: Quest,
    dist: Seq<CostMs>,
    prev: Seq<Option<(u32, u32)>>,
    rank: Seq<nat>,
)
    requires
        q.ok(),
        q.tree(dist, prev, rank),
        sources_ok(q, dist),
        forall|k: int|
            0 <= k < q.nodes && #[trigger] dist[k] != UNREACHED ==> relaxed(q, dist, k),
    ensures
        q.least(dist),
{
    assert forall|n: int| 0 <= n < dist.len() && #[trigger] dist[n] != UNREACHED implies q.reachable(
        n,
        dist[n] as int,
    ) by {
        lemma_chain(q, dist, prev, rank, n);
        let chain = chain_to(dist, prev, rank, n);
        let walk = Seq::new(chain.len(), |k: int| chain[k].1 as int);
        let start = if chain.len() == 0 {
            n
        } else {
            chain[0].0 as int
        };
        let i = q.sources.index_of((start as u32, dist[start]));
        assert(q.sources[i] == (start as u32, dist[start]));
        assert(q.leads(i, walk, n, dist[n] as int));
    }
    assert forall|n: int, c: int|
        0 <= n < dist.len() && #[trigger] q.reachable(n, c) && c < UNREACHED implies dist[n] <= c by {
        let (i, walk) = choose|i: int, walk: Seq<int>| q.leads(i, walk, n, c);
        lemma_no_cheaper(q, dist, i, walk, n);
    }
}

proof fn lemma_no_cheaper(q: Quest, dist: Seq<CostMs>, i: int, walk: Seq<int>, n: int)
    requires
        q.ok(),
        dist.len() == q.nodes,
        sources_ok(q, dist),
        forall|k: int|
            0 <= k < q.nodes && #[trigger] dist[k] != UNREACHED ==> relaxed(q, dist, k),
        0 <= i < q.sources.len(),
        q.sources[i].0 < q.nodes,
        walk_end(q.edges, q.sources[i].0 as int, walk) == Some(n),
        q.sources[i].1 + walk_cost(q.edges, q.costs, q.sources[i].0 as int, walk) <= q.budget,
        q.sources[i].1 + walk_cost(q.edges, q.costs, q.sources[i].0 as int, walk) < UNREACHED,
    ensures
        0 <= n < q.nodes,
        dist[n] <= q.sources[i].1 + walk_cost(q.edges, q.costs, q.sources[i].0 as int, walk),
    decreases walk.len(),
{
    let start = q.sources[i].0 as int;
    if walk.len() > 0 {
        let less = walk.drop_last();
        let e = walk.last();
        let m = walk_end(q.edges, start, less)->0;
        lemma_no_cheaper(q, dist, i, less, m);
        assert(dist[m] <= q.budget);
        assert(relaxed_over(q, dist, m, e));
    }
}

/// The chain to a node is a walk from a source that costs what the node does.
proof fn lemma_chain(
    q: Quest,
    dist: Seq<CostMs>,
    prev: Seq<Option<(u32, u32)>>,
    rank: Seq<nat>,
    n: int,
)
    requires
        q.ok(),
        q.tree(dist, prev, rank),
        0 <= n < q.nodes,
        dist[n] != UNREACHED,
    ensures
        ({
            let chain = chain_to(dist, prev, rank, n);
            let walk = Seq::new(chain.len(), |k: int| chain[k].1 as int);
            let start = if chain.len() == 0 {
                n
            } else {
                chain[0].0 as int
            };
            &&& 0 <= start < q.nodes
            &&& q.sources.contains((start as u32, dist[start]))
            &&& walk_end(q.edges, start, walk) == Some(n)
            &&& dist[n] == dist[start] + walk_cost(q.edges, q.costs, start, walk)
            &&& dist[n] <= q.budget
        }),
    decreases dist[n], rank[n],
{
    let chain = chain_to(dist, prev, rank, n);
    let walk = Seq::new(chain.len(), |k: int| chain[k].1 as int);
    if let Some((p, e)) = prev[n] {
        let p = p as int;
        assert(earlier(dist, rank, p, n));
        lemma_chain(q, dist, prev, rank, p);
        let less = chain_to(dist, prev, rank, p);
        let part = Seq::new(less.len(), |k: int| less[k].1 as int);
        assert(walk.drop_last() =~= part);
        assert(walk.last() == e);
    }
}

} // verus!
