//! What callers can rely on, stated of the functions themselves: whatever a call
//! gives back, this holds of it.
use vstd::prelude::*;

use crate::archive::manifest;
use crate::archive::store as archive;
use crate::archive::store::TrailArchive;
use crate::dem::DemStore;
use crate::figures;
use crate::figures::Pace;
use crate::geo::{Bounds, LatLon};
use crate::graph::laws;
use crate::graph::reach::Reach;
use crate::graph::route;
use crate::graph::route::Route;
use crate::graph::shape;
use crate::graph::shape::{CostMs, Graph};
use crate::heap::{Entry, MinHeap};
use crate::map::{Motion, Painting, TileRenderer};
use crate::number::{Real, Single};
use crate::planner::click;
use crate::planner::click::{ClickWords, PendingClick};
use crate::planner::isochrone::Planner;
use crate::planner::loading;
use crate::planner::loading::{AutoLoad, ViewScan};
use crate::planner::panel;
use crate::planner::sketch;
use crate::planner::sketch::Bivouac;
use crate::prep::collect;
use crate::prep::collect::{Assembly, Collector, Place};
use crate::supply;
use crate::supply::{Plan, Resupply, Rules, Sums};
use crate::terrain;
use crate::terrain::Position;
use crate::text;
use crate::tiles::cache::TileBytes;
use crate::tiles::source;
use crate::tiles::source::RasterLayer;
use crate::track;
use crate::track::{Sample, SpeedModel, Track, TrackStats, Waypoint};
use crate::trailfmt::index;
use crate::trailfmt::index::{Index, TileId};
use crate::trailfmt::tile;
use crate::trailfmt::tile::ArchiveWay;
use crate::trailfmt::tile_laws;
use crate::trailfmt::FormatError;
use crate::trails::network;
use crate::trails::network::{Cell, TrailNetwork};
use crate::trails::source as overpass;
use crate::trails::store;
use crate::trails::store::TrailStore;
use crate::trails::way::{Snap, WayKind};
use crate::trails::zone;
use crate::trails::zone::ZoneKey;

verus! {

/// A route costs no more than over either end of its last edge that was reached,
/// and just as much as over one of them; there is none where neither was.
pub proof fn law_a_route_costs_the_cheaper_end<S: Fn(LatLon, LatLon) -> bool>(
    graph: &Graph,
    net: &TrailNetwork,
    reach: &Reach,
    from: (&Snap, u32),
    to: (&Snap, u32),
    from_a_ms: CostMs,
    from_b_ms: CostMs,
    same: &S,
    r: Option<Route>,
)
    requires
        graph.wf(),
        route::explored(reach, graph),
        to.1 < graph.shape().edges.len(),
        call_ensures(route::route::<S>, (graph, net, reach, from, to, from_a_ms, from_b_ms, same), r),
    ensures
        ({
            let e = graph.shape().edges[to.1 as int];
            let a = reach.costs()[e.a as int];
            let b = reach.costs()[e.b as int];
            &&& a == u64::MAX && b == u64::MAX ==> r is None
            &&& r matches Some(v) ==> {
                &&& a != u64::MAX ==> v.cost_ms <= a + from_a_ms
                &&& b != u64::MAX ==> v.cost_ms <= b + from_b_ms
                &&& (a != u64::MAX && v.cost_ms == vstd::math::min(a + from_a_ms, u64::MAX as int))
                    || (b != u64::MAX && v.cost_ms == vstd::math::min(
                    b + from_b_ms,
                    u64::MAX as int,
                ))
            }
        }),
{
    graph.lemma_wf();
    let e = graph.shape().edges[to.1 as int];
    assert(shape::edges_ok(graph.shape().edges, graph.shape().nodes.len()));
    route::law_a_stage_arrives_over_the_cheaper_end(e, reach.costs(), from_a_ms, from_b_ms);
}

/// Following a way passes its points one by one: those behind the first position up
/// to the second, or back, and nothing else.
pub proof fn law_a_way_is_followed_point_by_point(
    net: &TrailNetwork,
    from: &Snap,
    to: &Snap,
    r: Option<Vec<LatLon>>,
    k: int,
)
    requires
        net.wf(),
        call_ensures(TrailNetwork::follow, (net, from, to), r),
        from.way_id == to.way_id ==> (network::place_of(net.list(), from.way_id) matches Some(w)
            ==> from.seg < net.list()[w].points@.len() && to.seg < net.list()[w].points@.len()),
    ensures
        r is Some <==> from.way_id == to.way_id && exists|w: int|
            0 <= w < net.list().len() && (#[trigger] net.list()[w]).id == from.way_id,
        r matches Some(line) ==> {
            let way = net.list()[network::place_of(net.list(), from.way_id)->0].points@;
            &&& line@.first() == from.pos
            &&& line@.last() == to.pos
            &&& from.seg <= to.seg ==> line@.len() == to.seg - from.seg + 2 && (1 <= k <= to.seg
                - from.seg ==> line@[k] == way[from.seg + k])
            &&& to.seg < from.seg ==> line@.len() == from.seg - to.seg + 2 && (1 <= k <= from.seg
                - to.seg ==> line@[k] == way[from.seg + 1 - k])
        },
{
    network::law_a_way_is_found_by_its_id(net.list(), from.way_id);
    if r is Some {
        let way = net.list()[network::place_of(net.list(), from.way_id)->0].points@;
        network::law_following_runs_along_the_way(way, *from, *to, k);
    }
}

/// The figures of a profile time each stretch of it forwards: from the elevation of
/// its earlier sample to that of its later one.
pub proof fn law_figures_time_stretches_forwards<
    M: Fn(Real, Real) -> Real,
    D: Fn(Single, Single) -> Single,
    U: Fn(Real, Single) -> Real,
    A: Fn(Real, Real) -> Real,
    R: Fn(Real, Real) -> Real,
    H: Fn(Real, Option<(Single, Single)>) -> Real,
    L: Fn(Real) -> Real,
>(
    profile: &Vec<Sample>,
    complete: bool,
    pace: &Pace<M, D, U, A, R, H, L>,
    s: TrackStats,
)
    requires
        profile@.len() > 0,
        call_ensures(
            figures::compute_stats::<M, D, U, A, R, H, L>,
            (profile, SpeedModel::Tobler, complete, pace),
            s,
        ),
    ensures
        exists|spans: Seq<Real>, times: Seq<Real>, sums: Seq<Real>| #[trigger]
            figures::timed(*pace, profile@, spans, times, sums) && s.base_time_h
                == sums[profile@.len() - 1],
        call_ensures(pace.loaded, (s.base_time_h,), s.time_h),
        call_ensures(
            pace.span,
            (profile@[profile@.len() - 1].dist_m, profile@[0].dist_m),
            s.distance_m,
        ),
{
    figures::law_stretches_are_timed_forwards(*pace, profile@, complete, s);
    figures::law_distance_and_time(*pace, profile@, SpeedModel::Tobler, complete, s);
}

/// A simulated trip takes food on: each leg starts with what the one before it left
/// and what was taken on, added together.
pub proof fn law_a_trip_adds_food_to_what_is_left<
    A: Fn(Real, Real) -> Real,
    S: Fn(Real, Real) -> Real,
    K: Fn(Real) -> Real,
    P: Fn(Real, Real) -> Real,
    T: Fn(Real, Real) -> Real,
    N: Fn(Real) -> Real,
>(
    base_times: &Vec<Real>,
    resupply: &Vec<Resupply>,
    rules: &Rules,
    sums: &Sums<A, S, K, P, T, N>,
    plan: Plan,
    i: int,
)
    requires
        call_ensures(
            supply::simulate::<A, S, K, P, T, N>,
            (base_times, resupply, rules, sums),
            plan,
        ),
        1 <= i < base_times@.len(),
        i < resupply@.len(),
    ensures
        plan.legs@.len() == base_times@.len(),
        call_ensures(
            sums.plus,
            (plan.legs@[i - 1].food_end_kg, resupply@[i].food_kg.greater(Real { bits: 0 })),
            plan.legs@[i].food_start_kg,
        ),
        resupply@[i].water_fill ==> plan.legs@[i].water_start_l == rules.water_capacity_l.greater(
            Real { bits: 0 },
        ),
        !resupply@[i].water_fill ==> plan.legs@[i].water_start_l == plan.legs@[i - 1].water_end_l,
{
    supply::law_a_resupply_adds_to_what_is_left(
        sums,
        base_times@,
        resupply@,
        *rules,
        plan,
        i,
    );
}

/// An archive keeps ways joined: each way in a tile is one that was collected, with
/// its nodes in order, and carries the id of a node just where that node is passed
/// somewhere else too.
pub proof fn law_an_archive_keeps_ways_joined(
    c: &Collector,
    bounds: &Bounds,
    a: Assembly,
    i: int,
    j: int,
) -> (k: int)
    requires
        c.wf(),
        call_ensures(Collector::assemble, (c, bounds), a),
        0 <= i < a.tiles@.len(),
        0 <= j < a.tiles@[i].ways@.len(),
    ensures
        0 <= k < c@.ways.len(),
        ({
            let w = a.tiles@[i].ways@[j]@;
            let from = c@.ways[k];
            &&& w.id == from.id
            &&& w.shared.len() == from.refs.len()
            &&& w.points.len() == from.refs.len()
            &&& a.tiles@[i].tile == c@.places[from.refs[0]].tile
            &&& forall|m: int|
                0 <= m < from.refs.len() ==> #[trigger] w.shared[m] == if collect::passed_elsewhere(
                    c@.ways,
                    k,
                    m,
                ) {
                    Some(from.refs[m])
                } else {
                    None
                }
        }),
{
    let kept = collect::kept_ways(c@, *bounds, c@.ways.len());
    let tiles = collect::tile_views(a.tiles@);
    let w = a.tiles@[i].ways@[j]@;
    let t = a.tiles@[i].tile;
    assert(tiles[i].0 == t);
    assert(tiles[i].1[j] == w);
    assert(tiles[i].1.contains(w));
    collect::law_a_way_stands_in_its_tile(tiles, kept, t, w);
    let at = kept.index_of((t, w));
    assert(kept[at] == (t, w));
    let k = lemma_kept_from(c, *bounds, c@.ways.len(), at);
    let from = c@.ways[k];
    assert forall|m: int| 0 <= m < from.refs.len() implies #[trigger] w.shared[m]
        == if collect::passed_elsewhere(c@.ways, k, m) {
        Some(from.refs[m])
    } else {
        None
    } by {
        collect::law_ways_stay_joined_where_they_meet(c@.ways, c@.places, *bounds, k, m);
    }
    k
}

/// A way that was kept is one of those collected.
proof fn lemma_kept_from(c: &Collector, bounds: Bounds, n: nat, at: int) -> (k: int)
    requires
        n <= c@.ways.len(),
        0 <= at < collect::kept_ways(c@, bounds, n).len(),
    ensures
        0 <= k < n,
        collect::fate(c@.ways, c@.places, bounds, c@.ways[k]) == collect::Fate::Kept(
            collect::kept_ways(c@, bounds, n)[at].0,
            collect::kept_ways(c@, bounds, n)[at].1,
        ),
    decreases n,
{
    let before = collect::kept_ways(c@, bounds, (n - 1) as nat);
    if at < before.len() {
        lemma_kept_from(c, bounds, (n - 1) as nat, at)
    } else {
        n - 1
    }
}

// ---------------------------------------------------------------------------
// Replies
// ---------------------------------------------------------------------------

/// A reply is a tile where the server did not refuse and the content is neither XML
/// nor a page of text; its bytes are then handed on as they came.
pub proof fn law_a_reply_is_a_tile_unless_it_says_otherwise(
    ok: bool,
    status: u16,
    status_text: &str,
    content_type: &str,
    bytes: Vec<u8>,
    r: TileBytes,
)
    requires
        call_ensures(source::tile_reply, (ok, status, status_text, content_type, bytes), r),
    ensures
        r is Ok <==> ok && !text::stands_in(content_type@, "xml"@) && !text::stands_in(
            content_type@,
            "text/html"@,
        ),
        r matches Ok(b) ==> b == bytes,
        !ok ==> r is Err && r->Err_0@ == "HTTP "@ + text::decimal(status as nat) + " "@
            + status_text@,
{
}

/// A file, a manifest and an answer with trails come through just where the server
/// did not refuse and there is something to read.
pub proof fn law_replies_come_through_unless_refused(
    ok: bool,
    status: u16,
    status_text: &str,
    bytes: Vec<u8>,
    body: Option<String>,
    file: Result<Vec<u8>, String>,
    listed: Result<String, String>,
    trails: Result<String, String>,
)
    requires
        call_ensures(archive::file_reply, (ok, status, bytes), file),
        call_ensures(archive::manifest_reply, (ok, status, body), listed),
        call_ensures(overpass::overpass_reply, (ok, status, status_text, body), trails),
    ensures
        file is Ok <==> ok,
        file matches Ok(b) ==> b == bytes,
        listed is Ok <==> ok && body is Some,
        listed matches Ok(s) ==> body == Some(s),
        trails is Ok <==> ok && body is Some,
        trails matches Ok(s) ==> body == Some(s),
        !ok ==> file->Err_0@ == "HTTP "@ + text::decimal(status as nat) && listed->Err_0@ == "HTTP "@
            + text::decimal(status as nat),
        !ok ==> trails->Err_0@ == "HTTP "@ + text::decimal(status as nat) + " "@ + status_text@,
{
}

/// Only an answer that opens with a brace speaks for its instance; white space in
/// front of it does not matter, anything else does.
pub proof fn law_only_a_brace_counts_as_success(body: &Result<String, String>, b: bool, n: int)
    requires
        call_ensures(overpass::counts_as_success, (body,), b),
        *body matches Ok(s) && 0 <= n < s@.len() && !text::white(s@[n]) && forall|i: int|
            0 <= i < n ==> text::white(#[trigger] s@[i]),
    ensures
        b <==> body->Ok_0@[n] == '{',
{
    let s = body->Ok_0@;
    if text::opens_with(s, '{') {
        let i = choose|i: int|
            0 <= i < s.len() && #[trigger] s[i] == '{' && forall|j: int|
                0 <= j < i ==> text::white(#[trigger] s[j]);
        if i < n {
            assert(text::white(s[i]));
        }
        if n < i {
            assert(text::white(s[n]));
        }
    }
}

/// An error, and an answer of white space alone, speak for nobody.
pub proof fn law_an_error_counts_for_nothing(body: &Result<String, String>, b: bool)
    requires
        call_ensures(overpass::counts_as_success, (body,), b),
        *body matches Ok(s) ==> forall|i: int| 0 <= i < s@.len() ==> text::white(#[trigger] s@[i]),
    ensures
        !b,
{
}

// ---------------------------------------------------------------------------
// Motion and loading
// ---------------------------------------------------------------------------

/// A view that was moved is still again half a second later, and not before.
pub proof fn law_a_moved_view_settles_in_half_a_second(
    m: &mut Motion,
    at_ns: u64,
    now_ns: u64,
    settled: bool,
)
    requires
        call_ensures(Motion::touch, (m, at_ns), ()),
        call_ensures(Motion::view_settled, (&*final(m), now_ns), settled),
    ensures
        settled <==> now_ns >= at_ns + 500_000_000,
        final(m).zoom_changed_ns == old(m).zoom_changed_ns,
{
}

/// A wheel that was turned is still again a hundred and thirty milliseconds later,
/// and the view with it half a second later. One that was turned against a stop
/// changes nothing.
pub proof fn law_a_turned_wheel_settles(
    m: &mut Motion,
    before: Single,
    after: Single,
    at_ns: u64,
    now_ns: u64,
    zoom_settled: bool,
    view_settled: bool,
)
    requires
        call_ensures(Motion::zoomed, (m, before, after, at_ns), ()),
        call_ensures(Motion::zoom_settled, (&*final(m), now_ns), zoom_settled),
        call_ensures(Motion::view_settled, (&*final(m), now_ns), view_settled),
    ensures
        before.below(after) || after.below(before) ==> {
            &&& zoom_settled <==> now_ns >= at_ns + 130_000_000
            &&& view_settled <==> now_ns >= at_ns + 500_000_000
        },
        before == after && !before.nan() ==> *final(m) == *old(m),
{
}

/// What is loaded on its own: around the last point where there is one, else what is
/// in view; and nothing while the view moves, where the map is not known, or where
/// nothing is wanted.
pub proof fn law_the_last_point_is_what_is_loaded_around(
    wanted: bool,
    map_known: bool,
    settled: bool,
    last: Option<LatLon>,
    what: AutoLoad,
)
    requires
        call_ensures(loading::auto_load, (wanted, map_known, settled, last), what),
    ensures
        what == AutoLoad::Nothing <==> !(wanted && map_known && settled),
        what == AutoLoad::View <==> wanted && map_known && settled && last is None,
        what matches AutoLoad::Around(p) ==> last == Some(p),
{
}

/// A view is scanned once: another look at the same zone and zoom is not due, one at
/// another zone or zoom is, and none is from further away than zoom thirteen.
pub proof fn law_a_view_is_scanned_once(
    first: &mut ViewScan,
    again: &mut ViewScan,
    zone: ZoneKey,
    zoom: u8,
    later: (ZoneKey, u8),
    was_due: bool,
    is_due: bool,
)
    requires
        call_ensures(ViewScan::due, (first, zone, zoom), was_due),
        *old(again) == *final(first),
        call_ensures(ViewScan::due, (again, later.0, later.1), is_due),
    ensures
        zoom < 13 ==> !was_due,
        old(first).last is None ==> (was_due <==> zoom >= 13),
        zoom >= 13 && later == (zone, zoom) ==> !is_due,
        zoom >= 13 && later != (zone, zoom) ==> (is_due <==> later.1 >= 13),
{
}

/// A spot stays what it is while its point does: another point is another spot, of
/// which nothing is known, and without a point there is none.
pub proof fn law_another_point_is_another_spot<A>(
    spot: Option<Bivouac<A>>,
    last: Option<LatLon>,
    r: Option<Bivouac<A>>,
)
    requires
        call_ensures(sketch::follow::<A>, (spot, last), r),
    ensures
        r is Some <==> last is Some,
        r matches Some(b) ==> {
            &&& spot is Some && spot->0.at.level_with(last->0) ==> b == spot->0
            &&& spot is None || !spot->0.at.level_with(last->0) ==> b.at == last->0 && b.analysis is None
        },
{
}

// ---------------------------------------------------------------------------
// Clicks
// ---------------------------------------------------------------------------

/// A click that snaps adds no point yet but waits, and asks for its zone unless a
/// zone around it is in memory; one that does not snap adds a point where it is, and
/// waits for nothing.
pub proof fn law_a_click_waits_where_it_snaps(
    click: &mut PendingClick,
    track: &mut Track,
    trails: &mut TrailStore,
    snaps: bool,
    at: LatLon,
    fine: ZoneKey,
    coarse: ZoneKey,
    now_ns: u64,
)
    requires
        old(trails).wf(),
        call_ensures(
            click::click_on_map,
            (click, track, trails, snaps, at, fine, coarse, now_ns),
            (),
        ),
    ensures
        snaps ==> final(click).at == Some(at) && *final(track) == *old(track),
        snaps ==> final(trails)@.settled(fine) || final(trails)@.loaded.contains(coarse.code_of()),
        !snaps ==> {
            let points = final(track).waypoints@;
            &&& final(click).at == old(click).at
            &&& final(trails)@ == old(trails)@
            &&& points.len() == old(track).waypoints@.len() + 1
            &&& points.drop_last() == old(track).waypoints@
            &&& points.last().pos == at
            &&& points.last().snap is None
            &&& points.last().via is None
            &&& final(track).dirty
        },
{
    old(trails).lemma_wf();
    store::law_ensuring_again_changes_nothing(old(trails)@, fine, now_ns, now_ns);
}

/// A waiting click is ready once a zone around it is in memory; it stops waiting then
/// and where its zone was given up, which is told, and waits on otherwise.
pub proof fn law_a_waiting_click_is_ready_with_its_zone(
    click: &mut PendingClick,
    trails: &TrailStore,
    fine: ZoneKey,
    coarse: ZoneKey,
    ready: bool,
)
    requires
        trails.wf(),
        call_ensures(click::await_zone, (click, trails, fine, coarse), ready),
    ensures
        ready ==> old(click).at is Some && final(click).at is None,
        ready ==> trails@.loaded.contains(fine.code_of()) || trails@.loaded.contains(
            coarse.code_of(),
        ),
        old(click).at is None ==> !ready && final(click).at is None,
        old(click).at is Some && store::given_up(trails@.failed, fine) ==> {
            &&& !ready
            &&& final(click).at is None
            &&& final(click).status is Some
        },
        old(click).at is Some && !store::given_up(trails@.failed, fine) && trails@.loaded.contains(
            coarse.code_of(),
        ) ==> ready,
        old(click).at is Some && !trails@.loaded.contains(fine.code_of())
            && !trails@.loaded.contains(coarse.code_of()) && !store::given_up(trails@.failed, fine)
            ==> final(click).at == old(click).at,
{
}

/// A click near no trail is refused and leaves the track as it is. The first point
/// stands on the trail and brings no line; each later one brings the line that was
/// routed to it, if there is one.
pub proof fn law_a_click_becomes_a_point_on_a_trail(
    click: &mut PendingClick,
    track: &mut Track,
    snap: Option<Snap>,
    via: Option<Vec<LatLon>>,
    words: &ClickWords,
    placed: bool,
)
    requires
        call_ensures(click::place_click, (click, track, snap, via, words), placed),
    ensures
        placed <==> snap is Some,
        snap is None ==> final(track).waypoints@ == old(track).waypoints@,
        snap is None ==> final(click).status->0@ == "No trail within "@ + words.radius_m@
            + " m — point refused"@,
        snap matches Some(s) ==> {
            let points = final(track).waypoints@;
            &&& points.len() == old(track).waypoints@.len() + 1
            &&& points.drop_last() == old(track).waypoints@
            &&& points.last().pos == s.pos
            &&& points.last().snap == Some(s)
            &&& points.len() == 1 ==> points.last().via is None && final(click).status->0@
                == "Start snapped "@ + words.dist_m@ + " m from the click"@
            &&& points.len() > 1 ==> points.last().via == via
            &&& points.len() > 1 && via is Some ==> final(click).status->0@
                == "Leg drawn along trails: "@ + words.leg_km@ + " km"@
            &&& points.len() > 1 && via is None ==> final(click).status->0@
                == "Outside the isochrone (or incomplete graph) — direct link"@
        },
{
}

// ---------------------------------------------------------------------------
// What is made anew
// ---------------------------------------------------------------------------

/// New trails make the graph anew: the next rebuild is of the network as it is then,
/// and takes the isochrone back; the rebuild after that does nothing.
pub proof fn law_new_trails_make_the_graph_anew(
    planner: &mut Planner,
    track: &mut Track,
    next: &mut Planner,
    last: &mut Planner,
    net: &TrailNetwork,
    lengths: &Vec<Real>,
    done: bool,
    again: bool,
)
    requires
        old(planner).wf(),
        call_ensures(Planner::network_changed, (planner, track), ()),
        *old(next) == *final(planner),
        call_ensures(Planner::rebuild, (next, net, lengths), done),
        *old(last) == *final(next),
        call_ensures(Planner::rebuild, (last, net, lengths), again),
    ensures
        done,
        final(next).iso is None,
        final(next).iso_dirty,
        !final(next).graph_elevated,
        final(next).graph.shape() == shape::shape_of(
            net.list(),
            shape::all_stretches(net.list()),
            lengths@,
        ),
        !again,
        *final(last) == *final(next),
        final(track).dirty,
        final(track).waypoints == old(track).waypoints,
{
}

/// Taking a point back, or all of them, makes the isochrone anew, and leaves the
/// graph.
pub proof fn law_taking_points_back_makes_the_isochrone_anew(
    one: (&mut Planner, &mut Track),
    all: (&mut Planner, &mut Track),
    wants: bool,
)
    requires
        old(one.0).wf(),
        old(all.0).wf(),
        call_ensures(Planner::drop_last, (one.0, one.1), ()),
        call_ensures(Planner::drop_all, (all.0, all.1), ()),
        call_ensures(Planner::wants_climbs, (&*final(one.0),), wants),
    ensures
        final(one.0).iso_dirty,
        final(one.0).graph == old(one.0).graph,
        old(one.1).waypoints@.len() > 0 ==> final(one.1).waypoints@
            == old(one.1).waypoints@.drop_last(),
        final(one.1).dirty,
        final(all.0).iso_dirty,
        final(all.1).waypoints@.len() == 0,
        final(all.1).dirty,
        wants <==> old(one.0).graph.shape().edges.len() > 0 && !old(one.0).graph_elevated,
{
}

/// A point that is placed and taken back leaves the points as they were.
pub proof fn law_a_point_taken_back_leaves_the_others(
    track: &mut Track,
    next: &mut Track,
    wp: Waypoint,
)
    requires
        call_ensures(Track::push, (track, wp), ()),
        *old(next) == *final(track),
        call_ensures(Track::pop, (next,), ()),
    ensures
        final(track).waypoints@.last() == wp,
        final(next).waypoints@ == old(track).waypoints@,
        final(next).dirty,
{
    assert(final(next).waypoints@ =~= old(track).waypoints@);
}

/// Elevations go to their samples one by one, and are complete where none is
/// missing; where a sample lies stays as it was.
pub proof fn law_elevations_go_to_their_samples(
    track: &mut Track,
    elevs: &Vec<Option<Single>>,
    i: int,
)
    requires
        elevs@.len() == old(track).profile@.len(),
        call_ensures(Track::fill_elevations, (track, elevs), ()),
        0 <= i < elevs@.len(),
    ensures
        final(track).profile@.len() == old(track).profile@.len(),
        final(track).profile@[i].elev_m == elevs@[i],
        final(track).profile@[i].dist_m == old(track).profile@[i].dist_m,
        elevs@[i] is None ==> !final(track).stats.elevation_complete,
        (forall|k: int| 0 <= k < elevs@.len() ==> #[trigger] elevs@[k] is Some)
            ==> final(track).stats.elevation_complete,
        final(track).waypoints == old(track).waypoints,
{
}

/// The samples of a leg are those of the profile from the leg's first to its last,
/// both of them counted.
pub proof fn law_a_leg_has_its_samples(track: &Track, leg: usize, v: Vec<Sample>, i: int)
    requires
        track.wf(),
        call_ensures(Track::leg_profile, (track, leg), v),
        leg < track.leg_bounds@.len(),
        0 <= i <= track.leg_bounds@[leg as int].1 - track.leg_bounds@[leg as int].0,
    ensures
        v@.len() == track.leg_bounds@[leg as int].1 - track.leg_bounds@[leg as int].0 + 1,
        v@[i] == track.profile@[track.leg_bounds@[leg as int].0 + i],
{
    assert(track.leg_bounds@[leg as int].0 <= track.leg_bounds@[leg as int].1
        < track.profile@.len());
}

/// A track is gone over where points have changed or elevations are missing; its
/// line is laid anew just where points have changed.
pub proof fn law_a_changed_track_is_gone_over(track: &mut Track, net: &TrailNetwork, go: bool)
    requires
        net.wf(),
        call_ensures(Track::begin_refresh, (track, net), go),
    ensures
        go <==> old(track).dirty || !old(track).stats.elevation_complete,
        !final(track).dirty,
        old(track).dirty ==> final(track).path@ == track::line_of(
            net.list(),
            old(track).waypoints@,
        ),
        !old(track).dirty ==> final(track).path == old(track).path,
        final(track).waypoints == old(track).waypoints,
{
}

// ---------------------------------------------------------------------------
// Stores
// ---------------------------------------------------------------------------

/// After a retry no zone is given up any more, and each that was is on its way or
/// waits.
pub proof fn law_a_retry_gives_up_on_none(trails: &mut TrailStore, now_ns: u64, i: int)
    requires
        old(trails).wf(),
        call_ensures(TrailStore::retry_failed, (trails, now_ns), ()),
        0 <= i < old(trails)@.failed.len(),
    ensures
        final(trails)@.failed.len() == 0,
        store::flying(final(trails)@.pending, old(trails)@.failed[i].0) || store::queued(
            final(trails)@.queue,
            old(trails)@.failed[i].0,
        ),
        final(trails)@.loaded == old(trails)@.loaded,
{
    old(trails).lemma_wf();
    store::law_a_retry_asks_for_all_that_was_given_up(old(trails)@, now_ns, i);
}

/// Requests are handed out once.
pub proof fn law_requests_are_handed_out_once(
    trails: &mut TrailStore,
    next: &mut TrailStore,
    v: Vec<(ZoneKey, usize)>,
    again: Vec<(ZoneKey, usize)>,
)
    requires
        old(trails).wf(),
        call_ensures(TrailStore::take_requests, (trails,), v),
        *old(next) == *final(trails),
        call_ensures(TrailStore::take_requests, (next,), again),
    ensures
        v@ == old(trails)@.outbox,
        again@.len() == 0,
        final(next)@.pending == old(trails)@.pending,
        final(next)@.queue == old(trails)@.queue,
{
}

/// An area is ready only where every tile of it, from corner to corner, is done with.
pub proof fn law_a_ready_area_is_done_with(
    archive: &TrailArchive,
    center: LatLon,
    nw: TileId,
    se: TileId,
    t: TileId,
    ready: bool,
    covers: bool,
)
    requires
        call_ensures(TrailArchive::area_ready, (archive, center, nw, se), ready),
        call_ensures(TrailArchive::covers, (archive, center), covers),
        nw.x <= t.x <= se.x,
        nw.y <= t.y <= se.y,
    ensures
        ready ==> covers,
        ready ==> exists|i: int| #![trigger archive@.regions[i]]
            0 <= i < archive@.regions.len() && archive@.regions[i].holds(center)
                && archive::dir_at(archive@.dirs, archive@.regions[i].dir).settled.contains(
                archive::code_of(t),
            ),
        covers <==> exists|i: int|
            0 <= i < archive@.regions.len() && (#[trigger] archive@.regions[i]).holds(center),
{
    archive::law_an_area_reaches_from_corner_to_corner(nw, se, t);
    manifest::law_region_at(archive@.regions, center);
    let tiles = archive::covering(nw, se);
    let k = tiles.index_of(t);
    assert(tiles[k] == t);
    if let Some(i) = manifest::region_at(archive@.regions, center) {
        assert(archive@.regions[i].holds(center));
        let d = archive::dir_at(archive@.dirs, archive@.regions[i].dir);
        assert(0 <= k < tiles.len());
        if ready {
            assert(archive::area_done(archive@, center, nw, se));
            assert(d.settled.contains(archive::code_of(archive::covering(nw, se)[k])));
        }
    }
}

/// What leaves a heap first is an entry of the least cost in it, and of the least
/// node among those.
pub proof fn law_the_least_entry_leaves_first(heap: &mut MinHeap, r: Option<Entry>, x: Entry)
    requires
        old(heap).wf(),
        call_ensures(MinHeap::pop, (heap,), r),
        old(heap)@.contains(x),
    ensures
        r matches Some(e) && e.0 <= x.0 && (e.0 == x.0 ==> e.1 <= x.1) && old(heap)@.contains(e)
            && final(heap)@ == old(heap)@.remove(e),
{
    assert(old(heap)@.len() > 0) by {
        vstd::multiset::lemma_multiset_empty_len(old(heap)@);
    }
}

// ---------------------------------------------------------------------------
// Files
// ---------------------------------------------------------------------------

/// A tile that was written is read back: its valid ways, in their order, each whole
/// but for what the wire does not carry.
pub proof fn law_a_written_tile_is_read_back(
    ways: &[ArchiveWay],
    bytes: Vec<u8>,
    slice: &[u8],
    r: Result<Vec<ArchiveWay>, FormatError>,
)
    requires
        tile_laws::fits(tile::views(ways@)),
        call_ensures(tile::encode_tile, (ways,), bytes),
        slice@ == bytes@,
        call_ensures(tile::decode_tile, (slice,), r),
    ensures
        r matches Ok(v) && tile::views(v@) == tile_laws::received(
            tile::usable(tile::views(ways@)),
        ),
{
    tile_laws::law_tile_roundtrip(tile::views(ways@));
}

/// An index that was written lists just the tiles it was written with.
pub proof fn law_a_written_index_lists_its_tiles(
    zoom: u8,
    tiles: &[TileId],
    bytes: Vec<u8>,
    slice: &[u8],
    r: Result<Index, FormatError>,
    t: TileId,
    has: bool,
)
    requires
        index::sorted_once(tiles@).len() <= u32::MAX,
        call_ensures(index::write_index, (zoom, tiles), bytes),
        slice@ == bytes@,
        call_ensures(index::read_index, (slice,), r),
        r is Ok ==> call_ensures(Index::has, (&r->Ok_0, t), has),
    ensures
        r matches Ok(i) && i.zoom == zoom,
        has <==> tiles@.contains(t),
{
    index::law_index_roundtrip(zoom, tiles@);
    index::law_sorted_once(tiles@);
    index::law_listed(index::sorted_once(tiles@), t);
}

// ---------------------------------------------------------------------------
// Places and layers
// ---------------------------------------------------------------------------

/// The borders of a zone are a zone apart, and those of the zone to the north begin
/// where it ends.
pub proof fn law_zones_share_their_borders(
    z: ZoneKey,
    north: ZoneKey,
    b: (i64, i64, i64, i64),
    up: (i64, i64, i64, i64),
)
    requires
        z.ok(),
        north == (ZoneKey { lat: north.lat, ..z }),
        north.lat == z.lat + 1,
        call_ensures(ZoneKey::bbox, (z,), b),
        call_ensures(ZoneKey::bbox, (north,), up),
    ensures
        z.level == 0 ==> b.2 - b.0 == 200 && b.3 - b.1 == 200,
        z.level == 1 ==> b.2 - b.0 == 1000 && b.3 - b.1 == 1000,
        up.0 == b.2,
        (up.1, up.3) == (b.1, b.3),
        z.lat == 0 ==> b.0 == 0,
        z.lon == 0 ==> b.1 == 0,
{
    if z.lon < i32::MAX {
        zone::law_zones_lie_side_by_side(z);
    }
    assert(z.lat == 0 ==> z.lat * z.side() == 0) by (nonlinear_arith);
    assert(z.lon == 0 ==> z.lon * z.side() == 0) by (nonlinear_arith);
    assert(north.lat * z.side() == z.lat * z.side() + z.side()) by (nonlinear_arith)
        requires
            north.lat == z.lat + 1,
    ;
}

/// A sector and the one a full turn on have the same name, and every second one is a
/// main direction.
pub proof fn law_a_full_turn_is_the_same_direction(
    sector: i32,
    further: i32,
    a: &'static str,
    b: &'static str,
)
    requires
        further == sector + 8,
        call_ensures(terrain::cardinal, (sector,), a),
        call_ensures(terrain::cardinal, (further,), b),
    ensures
        a@ == b@,
        sector as int % 8 == 0 ==> a@ == "N"@,
        sector as int % 8 == 2 ==> a@ == "E"@,
        sector as int % 8 == 4 ==> a@ == "S"@,
        sector as int % 8 == 6 ==> a@ == "W"@,
{
    assert((sector + 8) % 8 == sector as int % 8);
}

/// The layers that are ground are the map and the photographs. The contours begin at
/// the sixth level and end before the others' last, and the slopes end first.
pub proof fn law_layers_have_their_levels(
    layer: RasterLayer,
    range: (u8, u8),
    base: bool,
    zoom: u8,
    said: Option<String>,
)
    requires
        call_ensures(RasterLayer::zoom_range, (layer,), range),
        call_ensures(RasterLayer::is_base, (layer,), base),
        call_ensures(panel::zoom_limit, (layer, zoom), said),
    ensures
        base <==> layer == RasterLayer::PlanIgn || layer == RasterLayer::Ortho,
        base ==> range == (0u8, 19u8),
        layer == RasterLayer::Contours ==> range == (6u8, 18u8),
        layer == RasterLayer::Slopes ==> range == (0u8, 17u8),
        range == crate::map::zoom_range_of(layer),
        said is Some <==> zoom > range.1,
{
}

// ---------------------------------------------------------------------------
// The graph
// ---------------------------------------------------------------------------

/// A graph that was built has an edge for each stretch that is walked, over the
/// points of its way and as long as it, between the nodes of its two ends.
pub proof fn law_a_built_graph_has_its_stretches(
    net: &TrailNetwork,
    lengths: &Vec<Real>,
    g: Graph,
    j: int,
) -> (e: int)
    requires
        net.wf(),
        lengths@.len() == shape::all_stretches(net.list()).len(),
        2 * lengths@.len() + 2 <= u32::MAX,
        laws::fit(net.list(), shape::all_stretches(net.list()), lengths@),
        call_ensures(Graph::build, (net, lengths), g),
        0 <= j < lengths@.len(),
        laws::is_walked(net.list(), shape::all_stretches(net.list())[j], lengths@[j]),
    ensures
        0 <= e < g.shape().edges.len(),
        laws::runs_along(
            g.shape(),
            g.shape().edges[e],
            net.list(),
            shape::all_stretches(net.list())[j],
            lengths@[j],
        ),
{
    let list = shape::all_stretches(net.list());
    laws::law_every_walked_stretch_is_an_edge(net.list(), list, lengths@, j);
    shape::shape_of(net.list(), list.take(j), lengths@).edges.len() as int
}

/// What was explored is exact. A source costs no more than it does as one, no edge is
/// a short cut, nothing costs more than the budget, and whatever was reached is a
/// source or came over an edge at just what that edge costs in its direction.
pub proof fn law_what_was_explored_is_exact(
    graph: &Graph,
    sources: &Vec<(u32, CostMs)>,
    budget_ms: CostMs,
    costs: &Vec<(CostMs, CostMs)>,
    r: Reach,
    e: int,
    i: int,
    n: int,
)
    requires
        graph.wf(),
        costs@.len() == graph.shape().edges.len(),
        call_ensures(Graph::explore, (graph, sources, budget_ms, costs), r),
        0 <= e < graph.shape().edges.len(),
        0 <= n < graph.shape().nodes.len(),
    ensures
        ({
            let edge = graph.shape().edges[e];
            let dist = r.costs();
            let there = dist[edge.a as int] + costs@[e].0;
            let back = dist[edge.b as int] + costs@[e].1;
            &&& dist.len() == graph.shape().nodes.len()
            &&& dist[edge.a as int] != u64::MAX && there <= budget_ms && there < u64::MAX
                ==> dist[edge.b as int] <= there
            &&& dist[edge.b as int] != u64::MAX && back <= budget_ms && back < u64::MAX
                ==> dist[edge.a as int] <= back
            &&& 0 <= i < sources@.len() && sources@[i].0 < dist.len() && sources@[i].1 <= budget_ms
                && sources@[i].1 < u64::MAX ==> dist[sources@[i].0 as int] <= sources@[i].1
            &&& dist[n] != u64::MAX ==> dist[n] <= budget_ms && match r.back()[n] {
                None => sources@.contains((n as u32, dist[n])),
                Some((p, over)) => {
                    let way_in = graph.shape().edges[over as int];
                    ||| way_in.a == p && way_in.b == n && dist[n] == dist[p as int]
                        + costs@[over as int].0
                    ||| way_in.b == p && way_in.a == n && dist[n] == dist[p as int]
                        + costs@[over as int].1
                },
            }
        }),
{
    graph.lemma_wf();
    let q = graph.quest(sources@, budget_ms, costs@);
    assert(q.ok());
    laws::law_no_edge_is_a_short_cut(q, r.costs(), e, i);
    if r.costs()[n] != u64::MAX {
        laws::law_a_reached_node_came_over_an_edge(q, r.costs(), r.back(), r.found(), n);
    }
}

/// A snapped point is within reach, on a segment of its way, and no segment that was
/// looked at is nearer; there is none just where none of those is within reach.
pub proof fn law_a_snap_is_the_nearest<F: Fn(LatLon, LatLon) -> (Real, LatLon, Real)>(
    net: &TrailNetwork,
    cell: Cell,
    reach: i32,
    max_dist_m: Real,
    project: F,
    r: Option<Snap>,
) -> (hits: Seq<(Real, LatLon, Real)>)
    requires
        net.wf(),
        call_ensures(TrailNetwork::snap::<F>, (net, cell, reach, max_dist_m, project), r),
    ensures
        network::measured(
            project,
            net.list(),
            network::segments_around(net.cells(), cell, reach),
            hits,
        ),
        match r {
            Some(s) => s.dist_m.at_most(max_dist_m) && forall|k: int|
                0 <= k < hits.len() && (#[trigger] hits[k]).2.at_most(max_dist_m)
                    ==> s.dist_m.at_most(hits[k].2),
            None => forall|k: int|
                0 <= k < hits.len() ==> !(#[trigger] hits[k]).2.at_most(max_dist_m),
        },
{
    let segs = network::segments_around(net.cells(), cell, reach);
    let hits = choose|hits: Seq<(Real, LatLon, Real)>| #[trigger]
        network::measured(project, net.list(), segs, hits) && r == network::snap_of(
            net.list(),
            segs,
            hits,
            max_dist_m,
        );
    network::law_a_snap_is_the_nearest_segment(project, net.list(), segs, hits, max_dist_m);
    hits
}

/// A new map keeps five hundred and twelve tiles and has sixteen requests on the wire
/// at most, a new store of elevations a hundred and twenty-eight and eight; both are
/// empty.
pub proof fn law_new_stores_are_empty<V>(tiles: TileRenderer<V>, dem: DemStore)
    requires
        call_ensures(TileRenderer::<V>::new, (), tiles),
        call_ensures(DemStore::new, (), dem),
    ensures
        tiles.cache@.capacity == 512,
        tiles.cache@.max_in_flight == 16,
        tiles.cache@.ready.dom() == Set::<u128>::empty(),
        tiles.cache@.outbox.len() == 0,
        dem.cache@.capacity == 128,
        dem.cache@.max_in_flight == 8,
        dem.cache@.ready.dom() == Set::<u128>::empty(),
        dem.cache@.outbox.len() == 0,
{
    assert(tiles.cache@.ready.dom() =~= Set::<u128>::empty());
    assert(dem.cache@.ready.dom() =~= Set::<u128>::empty());
}

/// Why a tile is refused: it is cut off before its version, it does not start with
/// the letters of a tile, or it is of another version.
pub proof fn law_why_a_tile_is_refused(slice: &[u8], r: Result<Vec<ArchiveWay>, FormatError>)
    requires
        call_ensures(tile::decode_tile, (slice,), r),
    ensures
        slice@.len() < 4 ==> r == Err::<Vec<ArchiveWay>, _>(FormatError::Truncated),
        slice@.len() >= 4 && slice@.take(4) != seq![84u8, 70, 84, 49] ==> r == Err::<
            Vec<ArchiveWay>,
            _,
        >(FormatError::BadMagic),
        slice@ == seq![84u8, 70, 84, 49] ==> r == Err::<Vec<ArchiveWay>, _>(FormatError::Truncated),
        slice@.len() >= 5 && slice@.take(4) == seq![84u8, 70, 84, 49] && slice@[4] != 1 ==> r
            == Err::<Vec<ArchiveWay>, _>(FormatError::BadVersion(slice@[4])),
        r is Ok ==> slice@.take(5) == seq![84u8, 70, 84, 49, 1],
{
    assert(tile::TILE_MAGIC@ =~= seq![84u8, 70, 84, 49]);
    if slice@ == seq![84u8, 70, 84, 49] {
        assert(slice@.take(4) =~= slice@);
    }
    if r is Ok {
        assert(slice@.take(5) =~= slice@.take(4).push(slice@[4]));
        assert(seq![84u8, 70, 84, 49].push(1u8) =~= seq![84u8, 70, 84, 49, 1]);
    }
}

/// Why an index is refused: it does not start with the letters of an index, it is of
/// another version, or it is cut off before its last tile. What is read of it is the
/// zoom in its ninth byte and as many tiles as it says.
pub proof fn law_why_an_index_is_refused(slice: &[u8], r: Result<Index, FormatError>)
    requires
        call_ensures(index::read_index, (slice,), r),
    ensures
        ({
            let letters = seq![84u8, 70, 73, 68, 88, 48, 48, 49];
            let count = slice@[12] + 256 * slice@[13] + 0x1_0000 * slice@[14] + 0x100_0000
                * slice@[15];
            &&& slice@.len() < 8 ==> r == Err::<Index, _>(FormatError::Truncated)
            &&& slice@.len() >= 8 && slice@.take(8) != letters ==> r == Err::<Index, _>(
                FormatError::BadMagic,
            )
            &&& slice@.len() >= 10 && slice@.take(8) == letters && slice@[9] != 1 ==> r == Err::<
                Index,
                _,
            >(FormatError::BadVersion(slice@[9]))
            &&& slice@.len() >= 16 && slice@.take(8) == letters && slice@[9] == 1 ==> (r is Ok
                <==> slice@.len() >= 16 + 8 * count)
            &&& r matches Ok(i) ==> i.zoom == slice@[8] && i.tiles@.len() == count
            &&& r matches Err(e) ==> e is BadMagic || e is BadVersion || e is Truncated
        }),
{
    assert(index::INDEX_MAGIC@ =~= seq![84u8, 70, 73, 68, 88, 48, 48, 49]);
    if slice@.len() >= 16 {
        let four = slice@.subrange(12, 16);
        assert(four[0] == slice@[12] && four[1] == slice@[13] && four[2] == slice@[14] && four[3]
            == slice@[15]);
    }
}

/// What positions, layers and errors are called.
pub proof fn law_everything_has_its_name(
    position: Position,
    label: &'static str,
    hint: &'static str,
    layer: RasterLayer,
    name: &'static str,
    format: &'static str,
    error: &FormatError,
    message: String,
    kind: WayKind,
    rgb: (u8, u8, u8),
)
    requires
        call_ensures(Position::label, (position,), label),
        call_ensures(Position::hint, (position,), hint),
        call_ensures(RasterLayer::wmts_name, (layer,), name),
        call_ensures(RasterLayer::format, (layer,), format),
        call_ensures(FormatError::message, (error,), message),
        call_ensures(WayKind::color, (kind,), rgb),
    ensures
        position == Position::Ridge ==> label@ == "ridge"@ && hint@ == "very exposed to wind"@,
        position == Position::Shoulder ==> label@ == "shoulder"@ && hint@ == "exposed to wind"@,
        position == Position::Even ==> label@ == "even slope"@ && hint@
            == "neither sheltered nor exposed"@,
        position == Position::Dip ==> label@ == "slight dip"@ && hint@
            == "sheltered, cool air at night"@,
        position == Position::Hollow ==> label@ == "valley floor"@ && hint@
            == "sheltered but cold air and damp"@,
        layer == RasterLayer::PlanIgn ==> name@ == "GEOGRAPHICALGRIDSYSTEMS.PLANIGNV2"@,
        layer == RasterLayer::Contours ==> name@ == "ELEVATION.CONTOUR.LINE"@,
        layer == RasterLayer::Slopes ==> name@ == "GEOGRAPHICALGRIDSYSTEMS.SLOPES.MOUNTAIN"@,
        layer == RasterLayer::Ortho ==> name@ == "ORTHOIMAGERY.ORTHOPHOTOS"@,
        format@ == if layer == RasterLayer::Ortho {
            "image/jpeg"@
        } else {
            "image/png"@
        },
        *error matches FormatError::BadVersion(v) ==> message@ == "unsupported archive version "@
            + text::decimal(v as nat),
        *error is BadMagic ==> message@ == "not a TrackFinder trail archive"@,
        *error is Truncated ==> message@ == "archive data ends mid-record"@,
        *error is Misaligned ==> message@ == "way point and identity arrays disagree"@,
        kind == WayKind::Path ==> rgb == (180u8, 60u8, 200u8),
        kind == WayKind::Track ==> rgb == (150u8, 110u8, 60u8),
        kind == WayKind::Footway || kind == WayKind::Steps ==> rgb == (80u8, 140u8, 220u8),
        kind == WayKind::Cycleway ==> rgb == (60u8, 170u8, 160u8),
        kind == WayKind::Road ==> rgb == (120u8, 120u8, 120u8),
{
}

// ---------------------------------------------------------------------------
// Collecting
// ---------------------------------------------------------------------------

/// A way is taken where it was not seen before, is walkable and has two nodes or more;
/// a second time it is not.
pub proof fn law_a_way_is_collected_once(
    c: &mut Collector,
    next: &mut Collector,
    id: i64,
    tags: &Vec<(String, String)>,
    refs: Vec<i64>,
    kept: bool,
    again: bool,
)
    requires
        old(c).wf(),
        call_ensures(Collector::add_way, (c, id, tags, refs), kept),
        *old(next) == *final(c),
        call_ensures(Collector::add_way, (next, id, tags, refs), again),
    ensures
        kept <==> refs@.len() >= 2 && collect::tagged_kind(collect::tag_texts(tags@)) is Some && (
        forall|i: int| 0 <= i < old(c)@.ways.len() ==> (#[trigger] old(c)@.ways[i]).id != id),
        kept ==> final(c)@.ways.len() == old(c)@.ways.len() + 1 && final(c)@.ways.last().id == id
            && final(c)@.ways.last().refs == refs@,
        !kept ==> final(c)@.ways == old(c)@.ways,
        final(c)@.places == old(c)@.places,
        !again,
        final(next)@.ways == final(c)@.ways,
{
    if kept {
        let n = old(c)@.ways.len() as int;
        assert(final(c)@.ways[n].id == id);
    }
}

/// A node is kept, with its place, where a way runs through it, and only then.
pub proof fn law_a_node_is_kept_where_a_way_runs(
    c: &mut Collector,
    id: i64,
    place: Place,
    wanted: bool,
    other: i64,
)
    requires
        old(c).wf(),
        call_ensures(Collector::add_node, (c, id, place), wanted),
        other != id,
    ensures
        wanted <==> exists|j: int, q: int|
            #![trigger old(c)@.ways[j].refs[q]]
            0 <= j < old(c)@.ways.len() && 0 <= q < old(c)@.ways[j].refs.len()
                && old(c)@.ways[j].refs[q] == id,
        wanted ==> final(c)@.places.contains_key(id) && final(c)@.places[id] == place,
        !wanted ==> final(c)@.places == old(c)@.places,
        final(c)@.places.contains_key(other) == old(c)@.places.contains_key(other),
        old(c)@.places.contains_key(other) ==> final(c)@.places[other] == old(c)@.places[other],
        final(c)@.ways == old(c)@.ways,
{
    collect::law_a_node_is_wanted_where_a_way_runs(old(c)@.ways, id);
}

/// Zones that were put in order are those that were given, the home zone in front.
pub proof fn law_ordered_zones_are_those_given(
    keys: &Vec<ZoneKey>,
    dists: &Vec<i64>,
    home: ZoneKey,
    v: Vec<ZoneKey>,
)
    requires
        keys@.len() == dists@.len(),
        call_ensures(zone::nearest_first, (keys, dists, home), v),
    ensures
        v@.len() == keys@.len(),
        forall|i: int, j: int|
            0 <= i < j < v@.len() && #[trigger] v@[j] == home ==> #[trigger] v@[i] == home,
{
    let list = zone::ranked(keys@, dists@);
    let sorted = zone::in_order(list, home);
    zone::law_nearest_first(list, home);
    assert(sorted.len() == list.len()) by {
        list.to_multiset_ensures();
        sorted.to_multiset_ensures();
    }
    assert forall|i: int, j: int|
        0 <= i < j < v@.len() && #[trigger] v@[j] == home implies #[trigger] v@[i] == home by {
        zone::law_the_nearer_zone_comes_first(list, home, i, j);
        assert(v@[i] == sorted[i].0 && v@[j] == sorted[j].0);
    }
}

// ---------------------------------------------------------------------------
// What is asked for
// ---------------------------------------------------------------------------

/// A zone is not asked for where one around it is in memory, and is seen to otherwise.
pub proof fn law_a_zone_in_memory_is_not_asked_for(
    trails: &mut TrailStore,
    fine: ZoneKey,
    coarse: ZoneKey,
    now_ns: u64,
    ready: bool,
)
    requires
        old(trails).wf(),
        call_ensures(TrailStore::zone_ready, (&*old(trails), fine, coarse), ready),
        call_ensures(TrailStore::ensure, (trails, fine, coarse, now_ns), ()),
    ensures
        ready <==> old(trails)@.loaded.contains(fine.code_of()) || old(trails)@.loaded.contains(
            coarse.code_of(),
        ),
        ready ==> final(trails)@ == old(trails)@,
        !ready ==> final(trails)@.settled(fine),
        !ready && !old(trails)@.settled(fine) && old(trails)@.pending.len() < 2
            && old(trails)@.queue.len() == 0 ==> final(trails)@.waited_for(fine, 0),
        final(trails).network() == old(trails).network(),
{
    old(trails).lemma_wf();
    store::law_ensuring_again_changes_nothing(old(trails)@, fine, now_ns, now_ns);
    if !ready && !old(trails)@.settled(fine) && old(trails)@.pending.len() < 2
        && old(trails)@.queue.len() == 0 {
        store::law_a_new_zone_starts_with_the_first_attempt(old(trails)@, fine, now_ns);
    }
}

/// Of the zones in view the first twelve are seen to, and what was done is said where
/// that is wanted.
pub proof fn law_the_first_zones_in_view_are_seen_to(
    trails: &mut TrailStore,
    keys: &Vec<ZoneKey>,
    announce: bool,
    now_ns: u64,
    words: Option<String>,
    i: int,
)
    requires
        old(trails).wf(),
        call_ensures(loading::load_visible_zones, (trails, keys, announce, now_ns), words),
        0 <= i < keys@.len(),
    ensures
        i < 12 ==> final(trails)@.settled(keys@[i]),
        words is Some <==> announce,
        final(trails).network() == old(trails).network(),
{
    old(trails).lemma_wf();
    let first = keys@.take(vstd::math::min(12, keys@.len() as int));
    if i < 12 {
        store::law_every_zone_is_seen_to(old(trails)@, first, now_ns, i);
        assert(first[i] == keys@[i]);
    }
}

/// What a store of trails and an archive tell of themselves.
pub proof fn law_stores_tell_what_they_hold(
    trails: &TrailStore,
    t: (usize, usize, usize, usize),
    archive: &TrailArchive,
    a: (usize, usize, usize),
    ready: bool,
)
    requires
        trails.wf(),
        trails@.pending.len() + trails@.queue.len() <= usize::MAX,
        call_ensures(TrailStore::stats, (trails,), t),
        call_ensures(TrailArchive::stats, (archive,), a),
        call_ensures(TrailArchive::ready, (archive,), ready),
    ensures
        t.0 == trails@.loaded.len(),
        t.1 == trails@.pending.len() + trails@.queue.len(),
        t.2 == trails@.failed.len(),
        t.3 == trails.network().list().len(),
        archive::settled_total(archive@.dirs) <= usize::MAX ==> a.0 == archive::settled_total(
            archive@.dirs,
        ),
        archive::flying_total(archive@.dirs) <= usize::MAX ==> a.1 == archive::flying_total(
            archive@.dirs,
        ),
        a.2 == archive@.regions.len(),
        ready <==> archive@.manifest_state == archive::Fetch::Done,
{
}

/// No way is drawn from further away than zoom twelve, and from there on those whose
/// window meets that of the view.
pub proof fn law_ways_are_drawn_from_zoom_twelve_on(
    net: &TrailNetwork,
    view: Bounds,
    zoom: u8,
    v: Vec<usize>,
    i: usize,
)
    requires
        net.wf(),
        net.list().len() <= usize::MAX,
        call_ensures(sketch::ways_in_view, (net, view, zoom), v),
    ensures
        zoom < 12 ==> v@.len() == 0,
        zoom >= 12 ==> (v@.contains(i) <==> i < net.list().len()
            && net.list()[i as int].bounds.meets(view)),
{
    sketch::law_a_way_in_view_is_drawn(net.list(), view);
}

/// A level that is drawn is remembered once the zoom is still; while the wheel turns
/// none is, but for the first. Other layers keep theirs.
pub proof fn law_levels_are_remembered_when_the_zoom_is_still<
    V,
    F: Fn(u8) -> (i64, i64, i64, i64),
>(
    tiles: &mut TileRenderer<V>,
    layer: RasterLayer,
    tile_zoom: u8,
    settled: bool,
    now_ns: u64,
    window: F,
    p: (Option<Painting>, Option<Painting>),
    i: int,
)
    requires
        old(tiles).wf(),
        call_ensures(
            TileRenderer::<V>::paint_layer::<F>,
            (tiles, layer, tile_zoom, settled, now_ns, window),
            p,
        ),
        0 <= i < 4,
    ensures
        ({
            let at = crate::map::layer_index(layer);
            let held = old(tiles).levels@[at];
            &&& i != at ==> final(tiles).levels@[i] == old(tiles).levels@[i]
            &&& !settled && held is Some ==> final(tiles).levels@ == old(tiles).levels@
            &&& settled ==> (final(tiles).levels@[at] matches Some(l) && (tile_zoom
                >= crate::map::zoom_range_of(layer).0 && tile_zoom <= crate::map::zoom_range_of(
                layer,
            ).1 ==> l.z == tile_zoom))
        }),
{
    let at = crate::map::layer_index(layer);
    assert(0 <= at < 4);
    let held = old(tiles).levels@[at];
    crate::map::law_a_still_zoom_draws_its_level(held, layer, tile_zoom, now_ns);
}

/// The first nine zones of an area are asked for, anew where they had been given up.
pub proof fn law_the_first_zones_of_an_area_are_asked_for(
    trails: &mut TrailStore,
    keys: &Vec<ZoneKey>,
    radius_km: &str,
    now_ns: u64,
    words: String,
    i: int,
)
    requires
        old(trails).wf(),
        call_ensures(loading::load_isochrone_area, (trails, keys, radius_km, now_ns), words),
        0 <= i < keys@.len(),
        i < 9,
    ensures
        final(trails)@.settled(keys@[i]),
        !store::given_up(final(trails)@.failed, keys@[i]),
        final(trails)@.loaded == old(trails)@.loaded,
        final(trails).network() == old(trails).network(),
{
    old(trails).lemma_wf();
    let first = keys@.take(vstd::math::min(9, keys@.len() as int));
    store::law_an_area_is_asked_for_anew(old(trails)@, first, 9, now_ns, i);
    assert(first[i] == keys@[i]);
}

} // verus!
