//! The trail graph: junctions, costs, reach and routes.
use trackfinder::geo::{Bounds, LatLon};
use trackfinder::graph::reach::UNREACHED;
use trackfinder::graph::shape::{climb_of, stretches};
use trackfinder::graph::route::without_repeats;
use trackfinder::graph::{edge_geometry, route, Climb, CostMs, EdgePos, Graph, Route};
use trackfinder::number::{Real, Single};
use trackfinder::track::{Track, Waypoint};
use trackfinder::planner::{compute_isochrone, route_to, Planner};
use trackfinder::trails::network::Cell;
use trackfinder::trails::{Snap, TrailNetwork, Way, WayKind};

const SNAP_RADIUS_M: f64 = 60.0;
const INDEX_CELL_DEG: f64 = 0.002;

fn num(x: f64) -> Real {
    Real { bits: x.to_bits() }
}

fn f(x: Real) -> f64 {
    f64::from_bits(x.bits)
}

fn ll(lat: f64, lon: f64) -> LatLon {
    LatLon::new(num(lat), num(lon))
}

fn haversine_m(a: LatLon, b: LatLon) -> f64 {
    let (la, lb) = (f(a.lat).to_radians(), f(b.lat).to_radians());
    let dlat = lb - la;
    let dlon = (f(b.lon) - f(a.lon)).to_radians();
    let h = (dlat / 2.0).sin().powi(2) + la.cos() * lb.cos() * (dlon / 2.0).sin().powi(2);
    2.0 * 6_371_008.8 * h.sqrt().asin()
}

fn coincide(a: LatLon, b: LatLon) -> bool {
    (f(a.lat) - f(b.lat)).abs() < 1e-9 && (f(a.lon) - f(b.lon)).abs() < 1e-9
}

fn cell_of(p: LatLon) -> Cell {
    (
        (f(p.lat) / INDEX_CELL_DEG).floor() as i32,
        (f(p.lon) / INDEX_CELL_DEG).floor() as i32,
    )
}

fn insert(net: &mut TrailNetwork, way: Way) {
    let cells: Vec<Cell> = way.points.iter().map(|p| cell_of(*p)).collect();
    net.insert(way, &cells);
}

fn way(id: i64, nodes: &[i64], pts: &[(f64, f64)]) -> Way {
    let points: Vec<LatLon> = pts.iter().map(|(a, b)| ll(*a, *b)).collect();
    let bounds = Bounds::around(&points);
    Way {
        id,
        kind: WayKind::Path,
        name: None,
        nodes: nodes.to_vec(),
        points,
        sac_scale: None,
        bounds,
    }
}

/// A cross: a way from west to east and one from north to south, sharing node 3.
fn cross() -> TrailNetwork {
    let mut net = TrailNetwork::default();
    insert(
        &mut net,
        way(
            10,
            &[1, 2, 3, 4],
            &[
                (45.010, 6.000),
                (45.010, 6.002),
                (45.010, 6.004),
                (45.010, 6.006),
            ],
        ),
    );
    insert(
        &mut net,
        way(
            20,
            &[5, 3, 6],
            &[(45.012, 6.004), (45.010, 6.004), (45.008, 6.004)],
        ),
    );
    net
}

fn lengths(net: &TrailNetwork) -> Vec<Real> {
    stretches(net)
        .iter()
        .map(|s| {
            let pts = &net.ways()[s.way].points[s.from..=s.to];
            num(pts.windows(2).map(|w| haversine_m(w[0], w[1])).sum())
        })
        .collect()
}

fn build(net: &TrailNetwork) -> Graph {
    Graph::build(net, &lengths(net))
}

fn build_with(net: &TrailNetwork, up: f64, down: f64) -> Graph {
    let mut g = build(net);
    let missing = g.missing_climbs(net);
    let climbs: Vec<Option<Climb>> = missing
        .iter()
        .map(|_| {
            Some(Climb {
                up: num(up),
                down: num(down),
            })
        })
        .collect();
    assert!(g.fill_climbs(&missing, &climbs));
    g
}

struct Walk {
    flat_kmh: f64,
    ascent_mh: f64,
    load_kg: f64,
}

fn default_walk() -> Walk {
    Walk {
        flat_kmh: 5.0,
        ascent_mh: 600.0,
        load_kg: 12.0,
    }
}

fn cost_ms(g: &Graph, e: u32, forward: bool, w: &Walk) -> CostMs {
    let edge = g.edge(e);
    let up = match edge.climb {
        Some(c) => {
            if forward {
                f(c.up)
            } else {
                f(c.down)
            }
        }
        None => 0.0,
    };
    let factor = (1.0 - 0.01 * (w.load_kg - 10.0).max(0.0)).max(0.1);
    let hours =
        ((f(edge.len_m) / 1000.0) / w.flat_kmh.max(0.1) + up / w.ascent_mh.max(1.0)) / factor;
    (hours * 3_600_000.0) as CostMs
}

fn costs(g: &Graph, w: &Walk) -> Vec<(CostMs, CostMs)> {
    (0..g.edge_count() as u32)
        .map(|e| (cost_ms(g, e, true, w), cost_ms(g, e, false, w)))
        .collect()
}

fn snap(net: &TrailNetwork, p: LatLon, max_dist_m: f64) -> Option<Snap> {
    let (lat, lon) = (f(p.lat), f(p.lon));
    let (mx, my) = (111_320.0 * lat.to_radians().cos(), 111_132.0f64);
    let reach = (max_dist_m / (INDEX_CELL_DEG * my.min(mx))).ceil() as i32 + 1;
    net.snap(cell_of(p), reach, num(max_dist_m), |a: LatLon, b: LatLon| {
        let (ax, ay) = ((f(a.lon) - lon) * mx, (f(a.lat) - lat) * my);
        let (bx, by) = ((f(b.lon) - lon) * mx, (f(b.lat) - lat) * my);
        let (dx, dy) = (bx - ax, by - ay);
        let t = ((-ax * dx - ay * dy) / (dx * dx + dy * dy)).clamp(0.0, 1.0);
        let (px, py) = (ax + dx * t, ay + dy * t);
        let pos = ll(
            f(a.lat) + (f(b.lat) - f(a.lat)) * t,
            f(a.lon) + (f(b.lon) - f(a.lon)) * t,
        );
        (num(t), pos, num((px * px + py * py).sqrt()))
    })
}

/// Where a snapped point falls on its edge.
fn place(g: &Graph, net: &TrailNetwork, edge: u32, s: &Snap) -> EdgePos {
    let e = g.edge(edge);
    let pts = &net.way_by_id(e.way_id).unwrap().points;
    let seg = s.seg as u32;
    let mut to_a = 0.0;
    for i in e.from..seg.min(e.to) {
        to_a += haversine_m(pts[i as usize], pts[i as usize + 1]);
    }
    if seg < e.to {
        to_a += haversine_m(pts[seg as usize], pts[seg as usize + 1]) * f(s.t);
    }
    let to_a = to_a.clamp(0.0, f(e.len_m));
    EdgePos {
        edge,
        to_a_m: num(to_a),
        to_b_m: num(f(e.len_m) - to_a),
    }
}

fn sources(g: &Graph, pos: &EdgePos, w: &Walk) -> Vec<(u32, CostMs)> {
    let e = g.edge(pos.edge);
    let full = cost_ms(g, pos.edge, true, w).max(1) as f64;
    let back = cost_ms(g, pos.edge, false, w).max(1) as f64;
    let to_a = (back * f(pos.to_a_m) / f(e.len_m)) as CostMs;
    let to_b = (full * f(pos.to_b_m) / f(e.len_m)) as CostMs;
    g.sources_from(pos, to_a, to_b)
}

fn partial_ms(m: f64, w: &Walk) -> CostMs {
    (m / 1000.0 / w.flat_kmh.max(0.1) * 3_600_000.0) as CostMs
}

fn leg(net: &TrailNetwork, g: &Graph, w: &Walk) -> Route {
    let from = snap(net, ll(45.0100, 6.0005), SNAP_RADIUS_M).unwrap();
    let to = snap(net, ll(45.0118, 6.0040), SNAP_RADIUS_M).unwrap();
    let from_pos = place(g, net, g.locate(net, &from).unwrap(), &from);
    let to_pos = place(g, net, g.locate(net, &to).unwrap(), &to);
    let reach = g.explore(&sources(g, &from_pos, w), CostMs::MAX / 4, &costs(g, w));
    route(
        g,
        net,
        &reach,
        (&from, from_pos.edge),
        (&to, to_pos.edge),
        partial_ms(f(to_pos.to_a_m), w),
        partial_ms(f(to_pos.to_b_m), w),
        &coincide,
    )
    .unwrap()
}

#[test]
fn les_noeuds_du_graphe_sont_les_jonctions() {
    let g = build(&cross());
    assert_eq!(g.node_count(), 5, "a plain point must not be a node");
    assert_eq!(g.edges.len(), 4);
    let e = g.edges.iter().find(|e| e.way_id == 10 && e.from == 0).unwrap();
    assert_eq!(e.to, 2);
    assert!((f(e.len_m) - 314.0).abs() < 5.0, "len = {}", f(e.len_m));
}

#[test]
fn chemin_mal_forme_ignore() {
    let mut net = TrailNetwork::default();
    insert(
        &mut net,
        way(1, &[1, 2], &[(45.0, 6.0), (45.0, 6.001), (45.0, 6.002)]),
    );
    assert!(build(&net).is_empty());
}

#[test]
fn isochrone_bornee_par_le_budget() {
    let net = cross();
    let g = build_with(&net, 0.0, 0.0);
    let w = Walk {
        flat_kmh: 5.0,
        load_kg: 0.0,
        ..default_walk()
    };
    let start = g.node_of(1).unwrap();

    let tight = g.explore(&vec![(start, 0)], 300_000, &costs(&g, &w));
    assert_eq!(tight.reached_count(), 2);

    let wide = g.explore(&vec![(start, 0)], 600_000, &costs(&g, &w));
    assert_eq!(wide.reached_count(), g.node_count());
    assert_eq!(wide.reachable_edges(&g).len(), 4);
}

#[test]
fn le_denivele_ralentit_lisochrone() {
    let net = cross();
    let flat = build_with(&net, 0.0, 0.0);
    let steep = build_with(&net, 200.0, 0.0);
    let w = default_walk();
    let start = flat.node_of(1).unwrap();
    let budget = 900_000;
    assert!(
        flat.explore(&vec![(start, 0)], budget, &costs(&flat, &w)).reached_count()
            > steep.explore(&vec![(start, 0)], budget, &costs(&steep, &w)).reached_count(),
        "with the same budget one gets less far uphill"
    );
}

#[test]
fn litineraire_suit_les_sentiers() {
    let net = cross();
    let g = build_with(&net, 0.0, 0.0);
    let r = leg(&net, &g, &default_walk());

    assert!(r.points.len() >= 3, "{:?}", r.points);
    assert!(
        r.points
            .iter()
            .any(|p| (f(p.lat) - 45.010).abs() < 1e-9 && (f(p.lon) - 6.004).abs() < 1e-9),
        "the route must pass the junction: {:?}",
        r.points
    );
    assert!(r.cost_ms > 0);
}

#[test]
fn locate_place_le_point_sur_le_bon_troncon() {
    let net = cross();
    let g = build(&net);
    let snap = snap(&net, ll(45.010, 6.0035), SNAP_RADIUS_M).unwrap();
    let pos = place(&g, &net, g.locate(&net, &snap).unwrap(), &snap);
    let e = g.edge(pos.edge);
    assert_eq!(e.way_id, 10);
    assert!((f(pos.to_a_m) + f(pos.to_b_m) - f(e.len_m)).abs() < 1e-6);
    assert!(f(pos.to_b_m) < f(pos.to_a_m), "nearer to the junction");
}

#[test]
fn costs_are_the_least() {
    let net = cross();
    let g = build(&net);
    let n = |id: i64| g.node_of(id).unwrap();
    // Each edge costs 10 forward and 3 back.
    let costs: Vec<(CostMs, CostMs)> = (0..g.edge_count()).map(|_| (10, 3)).collect();
    let r = g.explore(&vec![(n(1), 1)], 100, &costs);
    assert_eq!(r.cost(n(1)), Some(1));
    assert_eq!(r.cost(n(3)), Some(11));
    assert_eq!(r.cost(n(4)), Some(21));
    assert_eq!(r.cost(n(5)), Some(14), "back along the way from north to south");
    assert_eq!(r.cost(n(6)), Some(21));
    let chain = r.edges_to(n(5)).unwrap();
    assert_eq!(chain.len(), 2);
    assert_eq!(chain[0].0, n(1));
    assert_eq!(chain[1].0, n(3));
    assert_eq!(r.cost(99), None);
}

#[test]
fn the_budget_is_a_limit() {
    let net = cross();
    let g = build(&net);
    let n = |id: i64| g.node_of(id).unwrap();
    let costs: Vec<(CostMs, CostMs)> = (0..g.edge_count()).map(|_| (10, 3)).collect();
    let r = g.explore(&vec![(n(1), 0)], 10, &costs);
    assert_eq!(r.reached_count(), 2);
    assert_eq!(r.cost(n(4)), None);
    assert_eq!(r.dist[n(4) as usize], UNREACHED);
    let beyond = g.explore(&vec![(n(1), 50)], 10, &costs);
    assert_eq!(beyond.cost(n(1)), None, "a source beyond the budget is out of reach");
    assert_eq!(beyond.reached_count(), 0);
    let two = g.explore(&vec![(n(1), 50), (n(3), 10)], 13, &costs);
    assert_eq!(two.cost(n(1)), Some(13));
    assert_eq!(two.cost(n(3)), Some(10));
}

#[test]
fn a_way_with_no_length_is_no_edge() {
    let net = cross();
    let none: Vec<Real> = lengths(&net).iter().map(|_| num(0.0)).collect();
    assert!(Graph::build(&net, &none).is_empty());
}

#[test]
fn edges_run_both_ways() {
    let net = cross();
    let g = build(&net);
    let e = g.edge(0);
    let forward = edge_geometry(&net, &e, true).unwrap();
    let mut back = edge_geometry(&net, &e, false).unwrap();
    assert_eq!(forward.len(), 3);
    back.reverse();
    assert_eq!(forward, back);
}

#[test]
fn climbs_that_are_missing_stay_missing() {
    let net = cross();
    let mut g = build(&net);
    let missing = g.missing_climbs(&net);
    assert_eq!(missing.len(), 4);
    let flat = Climb {
        up: num(0.0),
        down: num(0.0),
    };
    let found = vec![Some(flat), None, Some(flat), Some(flat)];
    assert!(!g.fill_climbs(&missing, &found));
    assert_eq!(g.missing_climbs(&net), vec![missing[1]]);
}

fn edge_costs(g: &Graph) -> Vec<(CostMs, CostMs)> {
    costs(g, &default_walk())
}

#[test]
fn the_isochrone_starts_at_the_last_point() {
    let net = cross();
    let g = build_with(&net, 0.0, 0.0);
    let mut track = Track::default();
    let away = |a: LatLon, b: LatLon| num(haversine_m(a, b));
    let along = |_: u32, _: Snap| (1_000u64, 2_000u64);
    let all = edge_costs(&g);
    assert!(compute_isochrone(true, &track, &g, &net, 9_000_000, &all, along, away).is_none());
    let s = snap(&net, ll(45.0100, 6.0005), SNAP_RADIUS_M).unwrap();
    track.push(Waypoint::snapped(s));
    assert!(compute_isochrone(false, &track, &g, &net, 9_000_000, &all, along, away).is_none());
    let iso = compute_isochrone(true, &track, &g, &net, 9_000_000, &all, along, away).unwrap();
    assert_eq!(iso.reach.reached_count(), 5);
    assert_eq!(iso.edges.len(), 4);
    assert_eq!(iso.reach.cost(g.node_of(1).unwrap()), Some(1_000));
    let far = f(iso.reach_m);
    assert!(far > 400.0 && far < 480.0, "{far}");

    let to = snap(&net, ll(45.0118, 6.0040), SNAP_RADIUS_M).unwrap();
    let line = route_to(&Some(iso), &g, &net, &to, along, coincide).unwrap();
    assert_eq!(line[0], s.pos);
    assert_eq!(line[line.len() - 1], to.pos);

    let near = compute_isochrone(true, &track, &g, &net, 1_500, &all, along, away);
    assert!(route_to(&near, &g, &net, &to, along, coincide).is_none(), "outside the budget");
    assert!(route_to(&None, &g, &net, &to, along, coincide).is_none());
}

#[test]
fn a_changed_network_means_a_new_graph_and_isochrone() {
    let net = cross();
    let mut p = Planner::new();
    assert!(!p.rebuild(&net, &lengths(&net)));
    assert!(!p.wants_climbs());
    p.graph_dirty = true;
    assert!(p.rebuild(&net, &lengths(&net)));
    assert!(!p.rebuild(&net, &lengths(&net)));
    assert!(p.wants_climbs() && p.iso_dirty);
    let track = Track::default();
    let away = |a: LatLon, b: LatLon| num(haversine_m(a, b));
    let along = |_: u32, _: Snap| (0u64, 0u64);
    let all = edge_costs(&p.graph);
    assert!(p.refresh_isochrone(true, &track, &net, 1, &all, along, away));
    assert!(!p.refresh_isochrone(true, &track, &net, 1, &all, along, away));
    let missing = p.graph.missing_climbs(&net);
    let flat = Climb {
        up: num(0.0),
        down: num(0.0),
    };
    p.fill_climbs(&missing, &missing.iter().map(|_| None).collect());
    assert!(p.wants_climbs() && !p.iso_dirty);
    p.fill_climbs(&missing, &missing.iter().map(|_| Some(flat)).collect());
    assert!(!p.wants_climbs() && p.iso_dirty, "costs change once climbs are known");
}

#[test]
fn a_climb_is_added_up_from_point_to_point() {
    let single = |x: f32| Single { bits: x.to_bits() };
    let float = |x: Single| f32::from_bits(x.bits);
    let minus = |a: Single, b: Single| single(float(a) - float(b));
    let plus = |a: Single, b: Single| single(float(a) + float(b));
    let elevs = |list: &[f32]| list.iter().map(|e| Some(single(*e))).collect::<Vec<_>>();
    let (up, down) = climb_of(&elevs(&[10.0, 30.0, 25.0, 40.0]), minus, plus, minus).unwrap();
    assert_eq!((float(up), float(down)), (35.0, 5.0));
    let (up, down) = climb_of(&elevs(&[]), minus, plus, minus).unwrap();
    assert_eq!((float(up), float(down)), (0.0, 0.0));
    assert!(climb_of(&vec![Some(single(1.0)), None], minus, plus, minus).is_none());
}

#[test]
fn climbs_are_complete_only_when_every_edge_has_one() {
    let net = cross();
    let mut g = build(&net);
    let nothing = TrailNetwork::default();
    assert!(g.missing_climbs(&nothing).is_empty());
    assert!(!g.fill_climbs(&vec![], &vec![]), "no edge has its climb yet");

    let missing = g.missing_climbs(&net);
    let some = Climb {
        up: num(5.0),
        down: num(1.0),
    };
    let mut found: Vec<Option<Climb>> = missing.iter().map(|_| Some(some)).collect();
    found[0] = None;
    assert!(!g.fill_climbs(&missing, &found));
    let left = g.missing_climbs(&net);
    assert_eq!(left, vec![missing[0]]);
    assert!(g.fill_climbs(&left, &vec![Some(some)]));
    assert!(g.missing_climbs(&net).is_empty());
}

#[test]
fn points_that_coincide_are_left_out() {
    let line: Vec<LatLon> = [6.0, 6.0, 6.1, 6.1 + 1e-12, 6.0, 6.0]
        .iter()
        .map(|lon| ll(45.0, *lon))
        .collect();
    let out = without_repeats(&line, &coincide);
    assert_eq!(out, vec![ll(45.0, 6.0), ll(45.0, 6.1), ll(45.0, 6.0)]);
    assert!(without_repeats(&vec![], &coincide).is_empty());

    let net = cross();
    let leg = leg(&net, &build(&net), &default_walk());
    assert!(leg.points.windows(2).all(|w| !coincide(w[1], w[0])));
}
