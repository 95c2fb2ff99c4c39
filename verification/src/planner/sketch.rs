//! What is left out of a drawing, and the spot that is looked at.
use vstd::prelude::*;

use crate::geo::{Bounds, LatLon};
use crate::graph::route;
use crate::graph::route::edge_geometry;
use crate::graph::shape;
use crate::graph::shape::Graph;
use crate::graph::CostMs;
use crate::planner::isochrone::Isochrone;
use crate::planner::loading::TRAILS_MIN_ZOOM;
use crate::text::chars_of;
use crate::trails::network;
use crate::trails::network::TrailNetwork;
use crate::trails::Way;

verus! {

/// Which points of a line are drawn: the last one always, so that ways do not
/// come up short of their junctions, and every other that is far enough from the
/// one drawn before it.
pub open spec fn drawn(far: spec_fn(int, int) -> bool, n: int, i: int) -> Seq<usize>
    decreases i,
{
    if i <= 0 {
        seq![]
    } else {
        let before = drawn(far, n, i - 1);
        if i == n || before.len() == 0 || far(before.last() as int, i - 1) {
            before.push((i - 1) as usize)
        } else {
            before
        }
    }
}

/// Thins out a line of `n` points for drawing. Two points inside one pixel draw
/// the same line twice. `far` tells whether a point is far enough from another.
pub fn thinned<F: Fn(usize, usize) -> bool>(n: usize, far: F) -> (v: Vec<usize>)
    requires
        forall|a: usize, b: usize| call_requires(far, (a, b)),
    ensures
        exists|answers: spec_fn(int, int) -> bool|
            (forall|a: usize, b: usize|
                asked_about(drawn(answers, n as int, n as int), n as int, a, b) ==> call_ensures(
                    far,
                    (a, b),
                    #[trigger] answers(a as int, b as int),
                )) && v@ == #[trigger] drawn(answers, n as int, n as int),
{
    let mut v: Vec<usize> = Vec::new();
    let ghost mut answers: spec_fn(int, int) -> bool = |a: int, b: int| false;
    let mut i: usize = 0;
    while i < n
        invariant
            i <= n,
            forall|a: usize, b: usize| call_requires(far, (a, b)),
            v@ == drawn(answers, n as int, i as int),
            i > 0 ==> v@.len() > 0,
            forall|k: int| 0 <= k < v@.len() ==> #[trigger] v@[k] < i,
            forall|a: usize, b: usize|
                b < i && asked_about(v@, n as int, a, b) ==> call_ensures(
                    far,
                    (a, b),
                    #[trigger] answers(a as int, b as int),
                ),
        decreases n - i,
    {
        let ghost was = v@;
        if i + 1 == n || v.len() == 0 {
            v.push(i);
            assert forall|a: usize, b: usize|
                b < i + 1 && asked_about(v@, n as int, a, b) implies call_ensures(
                far,
                (a, b),
                #[trigger] answers(a as int, b as int),
            ) by {
                lemma_asked_before(was, i, n as int, a, b);
            }
        } else {
            let last: usize = v[v.len() - 1];
            let yes: bool = far(last, i);
            let ghost before = answers;
            proof {
                answers = |a: int, b: int|
                    if a == last && b == i {
                        yes
                    } else {
                        before(a, b)
                    };
                lemma_answers_kept(before, answers, n as int, i as int);
            }
            if yes {
                v.push(i);
            }
            assert forall|a: usize, b: usize|
                b < i + 1 && asked_about(v@, n as int, a, b) implies call_ensures(
                far,
                (a, b),
                #[trigger] answers(a as int, b as int),
            ) by {
                if b == i {
                    lemma_asked_now(was, i, n as int, a);
                } else {
                    lemma_asked_before(was, i, n as int, a, b);
                    assert(answers(a as int, b as int) == before(a as int, b as int));
                }
            }
        }
        i = i + 1;
    }
    v
}

/// A point was looked at, with the one drawn last before it.
pub open spec fn asked_about(v: Seq<usize>, n: int, a: usize, b: usize) -> bool {
    &&& b + 1 < n
    &&& exists|k: int|
        0 <= k < v.len() && #[trigger] v[k] == a && a < b && (k + 1 == v.len() || v[k + 1] >= b)
}

proof fn lemma_asked_before(was: Seq<usize>, i: usize, n: int, a: usize, b: usize)
    requires
        b < i,
        asked_about(was.push(i), n, a, b) || asked_about(was, n, a, b),
    ensures
        asked_about(was, n, a, b),
{
    if asked_about(was.push(i), n, a, b) {
        let v = was.push(i);
        let k = choose|k: int|
            0 <= k < v.len() && #[trigger] v[k] == a && a < b && (k + 1 == v.len() || v[k + 1]
                >= b);
        assert(k < was.len());
        assert(was[k] == a);
    }
}

proof fn lemma_asked_now(was: Seq<usize>, i: usize, n: int, a: usize)
    requires
        was.len() > 0,
        forall|k: int| 0 <= k < was.len() ==> #[trigger] was[k] < i,
        asked_about(was.push(i), n, a, i) || asked_about(was, n, a, i),
    ensures
        a == was.last(),
{
    let v = if asked_about(was, n, a, i) {
        was
    } else {
        was.push(i)
    };
    let k = choose|k: int|
        0 <= k < v.len() && #[trigger] v[k] == a && a < i && (k + 1 == v.len() || v[k + 1] >= i);
    if k + 1 < was.len() {
        assert(was[k + 1] < i);
        assert(v[k + 1] == was[k + 1]);
    }
}

/// Answers about later points change nothing.
proof fn lemma_answers_kept(
    before: spec_fn(int, int) -> bool,
    after: spec_fn(int, int) -> bool,
    n: int,
    i: int,
)
    requires
        forall|a: int, b: int| b < i ==> before(a, b) == #[trigger] after(a, b),
    ensures
        drawn(before, n, i) == drawn(after, n, i),
    decreases i,
{
    if i > 0 {
        lemma_answers_kept(before, after, n, i - 1);
        let last = drawn(before, n, i - 1).last() as int;
        assert(before(last, i - 1) == after(last, i - 1));
    }
}

// ---------------------------------------------------------------------------
// What is in view
// ---------------------------------------------------------------------------

/// Which of some ways may be seen in a window.
pub open spec fn seen_in(ways: Seq<Way>, view: Bounds) -> Seq<usize>
    decreases ways.len(),
{
    if ways.len() == 0 {
        seq![]
    } else {
        let rest = seen_in(ways.drop_last(), view);
        if ways.last().bounds.meets(view) {
            rest.push((ways.len() - 1) as usize)
        } else {
            rest
        }
    }
}

/// Which ways are drawn: those that may be seen in the window, and none from afar.
pub fn ways_in_view(net: &TrailNetwork, view: Bounds, zoom: u8) -> (v: Vec<usize>)
    ensures
        v@ == if zoom < TRAILS_MIN_ZOOM {
            seq![]
        } else {
            seen_in(net.list(), view)
        },
{
    let mut v: Vec<usize> = Vec::new();
    if zoom < TRAILS_MIN_ZOOM {
        return v;
    }
    let ways: &Vec<Way> = net.ways();
    let mut i: usize = 0;
    while i < ways.len()
        invariant
            i <= ways@.len(),
            v@ == seen_in(ways@.take(i as int), view),
        decreases ways@.len() - i,
    {
        assert(ways@.take(i + 1).drop_last() =~= ways@.take(i as int));
        if ways[i].intersects(view) {
            v.push(i);
        }
        i = i + 1;
    }
    assert(ways@.take(i as int) =~= ways@);
    v
}

/// A stretch that can be reached, and what its dearer end costs.
#[derive(Clone, Debug)]
pub struct Strip {
    pub points: Vec<LatLon>,
    pub cost_ms: CostMs,
}

/// The stretches reached that may be seen in a window, with their points and their
/// costs. The window is held against the whole way.
pub open spec fn strips_seen(
    reached: Seq<(u32, CostMs)>,
    edges: Seq<shape::Edge>,
    ways: Seq<Way>,
    view: Bounds,
) -> Seq<(Seq<LatLon>, CostMs)>
    decreases reached.len(),
{
    if reached.len() == 0 {
        seq![]
    } else {
        let rest = strips_seen(reached.drop_last(), edges, ways, view);
        let edge = edges[reached.last().0 as int];
        match network::place_of(ways, edge.way_id) {
            Some(k) => if ways[k].bounds.meets(view) {
                rest.push((route::edge_points(ways, edge, true), reached.last().1))
            } else {
                rest
            },
            None => rest,
        }
    }
}

/// The strips as sequences.
pub open spec fn strip_views(v: Seq<Strip>) -> Seq<(Seq<LatLon>, CostMs)> {
    Seq::new(v.len(), |i: int| (v[i].points@, v[i].cost_ms))
}

/// The stretches of an isochrone that are drawn. One only walks on trails, so no
/// area is filled.
pub fn strips_in_view(iso: &Isochrone, graph: &Graph, net: &TrailNetwork, view: Bounds) -> (v: Vec<
    Strip,
>)
    requires
        graph.wf(),
        net.wf(),
        iso.fits(graph),
        shape::edges_on(graph.shape().edges, net.list()),
    ensures
        strip_views(v@) == strips_seen(iso.edges@, graph.shape().edges, net.list(), view),
{
    proof {
        graph.lemma_wf();
    }
    let ghost reached = iso.edges@;
    let ghost edges = graph.shape().edges;
    let mut v: Vec<Strip> = Vec::new();
    let mut i: usize = 0;
    assert(strip_views(v@) =~= seq![]);
    while i < iso.edges.len()
        invariant
            reached == iso.edges@,
            edges == graph.shape().edges,
            net.wf(),
            iso.fits(graph),
            shape::edges_ok(edges, graph.shape().nodes.len()),
            shape::edges_on(edges, net.list()),
            i <= reached.len(),
            strip_views(v@) == strips_seen(reached.take(i as int), edges, net.list(), view),
        decreases reached.len() - i,
    {
        let (e, cost_ms): (u32, CostMs) = iso.edges[i];
        assert(reached[i as int] == (e, cost_ms));
        assert(reached.take(i + 1).drop_last() =~= reached.take(i as int));
        let edge = graph.edge(e);
        assert(edges[e as int] == edge);
        let ghost was = v@;
        let seen: bool = match net.way_by_id(edge.way_id) {
            Some(way) => way.intersects(view),
            None => false,
        };
        if seen {
            if let Some(points) = edge_geometry(net, &edge, true) {
                v.push(Strip { points, cost_ms });
                assert(strip_views(v@) =~= strip_views(was).push((points@, cost_ms)));
            }
        }
        i = i + 1;
    }
    assert(reached.take(i as int) =~= reached);
    v
}

// ---------------------------------------------------------------------------
// The bivouac
// ---------------------------------------------------------------------------

/// A spot to sleep at, with what is known of its ground. The analysis stands with
/// the point it belongs to, and does not change once it is there.
#[derive(Clone, Copy, Debug)]
pub struct Bivouac<A> {
    pub at: LatLon,
    pub analysis: Option<A>,
}

/// The spot to look at: the last point of the track. Another point is another
/// spot, of which nothing is known yet.
pub fn follow<A>(spot: Option<Bivouac<A>>, last: Option<LatLon>) -> (r: Option<Bivouac<A>>)
    ensures
        r == match last {
            None => None,
            Some(at) => match spot {
                Some(b) => if b.at.level_with(at) {
                    Some(b)
                } else {
                    Some(Bivouac { at, analysis: None })
                },
                None => Some(Bivouac { at, analysis: None }),
            },
        },
{
    match last {
        None => None,
        Some(at) => match spot {
            Some(b) => if b.at.same(at) {
                Some(b)
            } else {
                Some(Bivouac { at, analysis: None })
            },
            None => Some(Bivouac { at, analysis: None }),
        },
    }
}

/// The place of the first slash from `i` on, or the end.
pub open spec fn slash_from(s: Seq<char>, i: int) -> int
    decreases s.len() - i,
{
    if i >= s.len() {
        s.len() as int
    } else if s[i] == '/' {
        i
    } else {
        slash_from(s, i + 1)
    }
}

/// Where a text goes on behind `https://`, however often that stands in front.
pub open spec fn behind_scheme(s: Seq<char>, i: int) -> int
    decreases s.len() - i,
{
    if 0 <= i && i + 8 <= s.len() && s.subrange(i, i + 8) == "https://"@ {
        behind_scheme(s, i + 8)
    } else {
        i
    }
}

/// The host of a secure address.
pub fn host_of(url: &str) -> (host: String)
    ensures
        ({
            let from = behind_scheme(url@, 0);
            host@ == url@.subrange(from, slash_from(url@, from))
        }),
{
    let chars: Vec<char> = chars_of(url);
    let scheme: Vec<char> = chars_of("https://");
    proof {
        reveal_strlit("https://");
        assert("https://"@.len() == 8);
    }
    let mut from: usize = 0;
    while chars.len() - from >= 8 && same_at(&chars, from, &scheme)
        invariant
            from <= chars@.len(),
            chars@ == url@,
            scheme@ == "https://"@,
            scheme@.len() == 8,
            behind_scheme(url@, 0) == behind_scheme(url@, from as int),
        decreases chars@.len() - from,
    {
        from = from + 8;
    }
    let mut host = String::new();
    let mut i: usize = from;
    assert(host@ =~= url@.subrange(from as int, from as int));
    while i < chars.len() && chars[i] != '/'
        invariant
            from <= i <= chars@.len(),
            chars@ == url@,
            slash_from(url@, from as int) == slash_from(url@, i as int),
            host@ == url@.subrange(from as int, i as int),
        decreases chars@.len() - i,
    {
        host.push(chars[i]);
        assert(host@ =~= url@.subrange(from as int, i + 1));
        i = i + 1;
    }
    host
}

/// Whether a text stands at a place of another.
fn same_at(whole: &Vec<char>, at: usize, part: &Vec<char>) -> (b: bool)
    requires
        at + part@.len() <= whole@.len(),
    ensures
        b == (whole@.subrange(at as int, at + part@.len()) == part@),
{
    let mut i: usize = 0;
    while i < part.len()
        invariant
            i <= part@.len(),
            at + part@.len() <= whole@.len(),
            forall|k: int| 0 <= k < i ==> whole@[at + k] == #[trigger] part@[k],
        decreases part@.len() - i,
    {
        assert(at + i < whole.len());
        if whole[at + i] != part[i] {
            assert(whole@.subrange(at as int, at + part@.len())[i as int] != part@[i as int]);
            return false;
        }
        i = i + 1;
    }
    assert(whole@.subrange(at as int, at + part@.len()) =~= part@);
    true
}

/// What is drawn of a line: its first and its last point, points in their order,
/// each but the last far from the one before it, and none left out that was far
/// from the one drawn before it.
pub proof fn law_a_thinned_line_keeps_its_ends(far: spec_fn(int, int) -> bool, n: int)
    requires
        1 <= n <= usize::MAX,
    ensures
        ({
            let v = drawn(far, n, n);
            &&& v.len() > 0
            &&& v[0] == 0
            &&& v.last() == n - 1
            &&& forall|j: int, k: int| 0 <= j < k < v.len() ==> #[trigger] v[j] < #[trigger] v[k]
            &&& forall|k: int|
                1 <= k < v.len() - 1 ==> far(v[k - 1] as int, #[trigger] v[k] as int)
            &&& forall|k: int, i: int|
                1 <= k < v.len() && v[k - 1] < i < v[k] ==> !#[trigger] far(
                    #[trigger] v[k - 1] as int,
                    i,
                )
        }),
{
    lemma_drawn(far, n, n);
}

proof fn lemma_drawn(far: spec_fn(int, int) -> bool, n: int, i: int)
    requires
        1 <= i <= n <= usize::MAX,
    ensures
        ({
            let v = drawn(far, n, i);
            &&& v.len() > 0
            &&& v[0] == 0
            &&& v.last() < i
            &&& i == n ==> v.last() == n - 1
            &&& forall|j: int, k: int| 0 <= j < k < v.len() ==> #[trigger] v[j] < #[trigger] v[k]
            &&& forall|k: int|
                1 <= k < v.len() && v[k] < n - 1 ==> far(v[k - 1] as int, #[trigger] v[k] as int)
            &&& forall|k: int, p: int|
                1 <= k < v.len() && v[k - 1] < p < v[k] ==> !#[trigger] far(
                    #[trigger] v[k - 1] as int,
                    p,
                )
            &&& forall|p: int| v.last() < p < i ==> !#[trigger] far(v.last() as int, p)
        }),
    decreases i,
{
    let v = drawn(far, n, i);
    if i > 1 {
        lemma_drawn(far, n, i - 1);
        let before = drawn(far, n, i - 1);
        if i == n || far(before.last() as int, i - 1) {
            assert(v == before.push((i - 1) as usize));
            assert forall|k: int, p: int|
                1 <= k < v.len() && v[k - 1] < p < v[k] implies !#[trigger] far(
                #[trigger] v[k - 1] as int,
                p,
            ) by {
                assert(v[k - 1] == before[k - 1]);
                if k < before.len() {
                    assert(v[k] == before[k]);
                }
            }
            assert forall|k: int| 1 <= k < v.len() && v[k] < n - 1 implies far(
                v[k - 1] as int,
                #[trigger] v[k] as int,
            ) by {
                if k < before.len() {
                    assert(v[k] == before[k] && v[k - 1] == before[k - 1]);
                }
            }
        }
    } else {
        assert(drawn(far, n, 0) =~= seq![]);
        assert(v =~= seq![0usize]);
    }
}

/// A way is drawn where its window meets that of the view, and ways are drawn in
/// their order.
pub proof fn law_a_way_in_view_is_drawn(ways: Seq<Way>, view: Bounds)
    requires
        ways.len() <= usize::MAX,
    ensures
        forall|i: usize| #[trigger]
            seen_in(ways, view).contains(i) <==> i < ways.len() && ways[i as int].bounds.meets(view),
        forall|j: int, k: int|
            0 <= j < k < seen_in(ways, view).len() ==> #[trigger] seen_in(ways, view)[j]
                < #[trigger] seen_in(ways, view)[k],
        forall|j: int|
            0 <= j < seen_in(ways, view).len() ==> #[trigger] seen_in(ways, view)[j] < ways.len(),
    decreases ways.len(),
{
    let all = seen_in(ways, view);
    if ways.len() > 0 {
        let less = ways.drop_last();
        let some = seen_in(less, view);
        law_a_way_in_view_is_drawn(less, view);
        assert forall|i: usize| #[trigger] all.contains(i) <==> i < ways.len()
            && ways[i as int].bounds.meets(view) by {
            assert(some.contains(i) <==> i < less.len() && less[i as int].bounds.meets(view));
            if some.contains(i) {
                let j = some.index_of(i);
                assert(all[j] == i);
            }
            if all.contains(i) {
                let j = all.index_of(i);
                if j < some.len() {
                    assert(some[j] == i);
                }
            }
            if i == ways.len() - 1 && ways[i as int].bounds.meets(view) {
                assert(all[all.len() - 1] == i);
            }
        }
        assert forall|j: int| 0 <= j < all.len() implies #[trigger] all[j] < ways.len() by {
            if j < some.len() {
                assert(all[j] == some[j]);
            }
        }
        assert forall|j: int, k: int| 0 <= j < k < all.len() implies #[trigger] all[j]
            < #[trigger] all[k] by {
            assert(all[j] == some[j]);
            if k < some.len() {
                assert(all[k] == some[k]);
            }
        }
    } else {
        assert forall|i: usize| #[trigger] all.contains(i) <==> i < ways.len()
            && ways[i as int].bounds.meets(view) by {}
    }
}

/// A stretch that was reached is drawn where the window of its way meets that of the
/// view, behind those reached before it, with its cost and over the points of its
/// way from its first to its last.
pub proof fn law_a_stretch_in_view_is_drawn(
    reached: Seq<(u32, CostMs)>,
    e: u32,
    cost_ms: CostMs,
    edges: Seq<shape::Edge>,
    ways: Seq<Way>,
    view: Bounds,
)
    requires
        e < edges.len(),
        network::place_of(ways, edges[e as int].way_id) is Some,
        edges[e as int].from < edges[e as int].to,
        edges[e as int].to < ways[network::place_of(ways, edges[e as int].way_id)->0].points@.len(),
    ensures
        ({
            let w = ways[network::place_of(ways, edges[e as int].way_id)->0];
            let before = strips_seen(reached, edges, ways, view);
            let after = strips_seen(reached.push((e, cost_ms)), edges, ways, view);
            if w.bounds.meets(view) {
                &&& after.len() == before.len() + 1
                &&& after.drop_last() == before
                &&& after.last().1 == cost_ms
                &&& after.last().0.len() == edges[e as int].to - edges[e as int].from + 1
                &&& forall|k: int|
                    0 <= k < after.last().0.len() ==> #[trigger] after.last().0[k]
                        == w.points@[edges[e as int].from + k]
            } else {
                after == before
            }
        }),
{
    let all = reached.push((e, cost_ms));
    assert(all.drop_last() =~= reached);
    let before = strips_seen(reached, edges, ways, view);
    let after = strips_seen(all, edges, ways, view);
    if ways[network::place_of(ways, edges[e as int].way_id)->0].bounds.meets(view) {
        assert(after.drop_last() =~= before);
    }
}

/// A host is what stands between the scheme and the first slash behind it, or the
/// end: it holds no slash, and no scheme stands in front of it any more.
pub proof fn law_a_host_ends_at_a_slash(url: Seq<char>)
    ensures
        ({
            let from = behind_scheme(url, 0);
            let to = slash_from(url, from);
            &&& 0 <= from <= to <= url.len()
            &&& from % 8 == 0
            &&& forall|k: int|
                0 <= k < from / 8 ==> #[trigger] url.subrange(8 * k, 8 * k + 8) == "https://"@
            &&& from + 8 <= url.len() ==> url.subrange(from, from + 8) != "https://"@
            &&& forall|i: int| from <= i < to ==> #[trigger] url[i] != '/'
            &&& to < url.len() ==> url[to] == '/'
        }),
{
    lemma_scheme(url, 0);
    lemma_slash(url, behind_scheme(url, 0));
}

proof fn lemma_slash(s: Seq<char>, i: int)
    requires
        0 <= i <= s.len(),
    ensures
        i <= slash_from(s, i) <= s.len(),
        forall|j: int| i <= j < slash_from(s, i) ==> #[trigger] s[j] != '/',
        slash_from(s, i) < s.len() ==> s[slash_from(s, i)] == '/',
    decreases s.len() - i,
{
    if i < s.len() && s[i] != '/' {
        lemma_slash(s, i + 1);
    }
}

proof fn lemma_scheme(s: Seq<char>, i: int)
    requires
        0 <= i <= s.len(),
        i % 8 == 0,
        forall|k: int| 0 <= k < i / 8 ==> #[trigger] s.subrange(8 * k, 8 * k + 8) == "https://"@,
    ensures
        ({
            let from = behind_scheme(s, i);
            &&& i <= from <= s.len()
            &&& from % 8 == 0
            &&& forall|k: int|
                0 <= k < from / 8 ==> #[trigger] s.subrange(8 * k, 8 * k + 8) == "https://"@
            &&& from + 8 <= s.len() ==> s.subrange(from, from + 8) != "https://"@
        }),
    decreases s.len() - i,
{
    if i + 8 <= s.len() && s.subrange(i, i + 8) == "https://"@ {
        assert forall|k: int| 0 <= k < (i + 8) / 8 implies #[trigger] s.subrange(8 * k, 8 * k + 8)
            == "https://"@ by {
            if k == i / 8 {
                assert(8 * k == i);
            }
        }
        lemma_scheme(s, i + 8);
    }
}

} // verus!
