//! The trail network, the zones it is asked for by, and the store.
use trackfinder::geo::{Bounds, LatLon};
use trackfinder::number::Real;
use trackfinder::trailfmt::ArchiveWay;
use trackfinder::trails::network::Cell;
use trackfinder::trails::overpass::read_overpass;
use trackfinder::trails::source::{counts_as_success, overpass_reply};
use trackfinder::trails::store::{MAX_IN_FLIGHT, REQUEST_TIMEOUT_NS};
use trackfinder::trails::zone::{nearest_first, put_fixed4, zone_grid};
use trackfinder::trails::{
    parse_overpass, OverpassSource, Snap, TrailNetwork, TrailStore, Way, WayKind, ZoneKey,
};

const SNAP_RADIUS_M: f64 = 60.0;
const ZONE_DEG: f64 = 0.02;
const INDEX_CELL_DEG: f64 = 0.002;

const SAMPLE: &str = r#"{"version":0.6,"elements":[
      {"type":"way","id":1,"nodes":[10,11,12],"tags":{"highway":"path","name":"Test Trail","sac_scale":"hiking"},
       "geometry":[{"lat":45.9000,"lon":6.8700},{"lat":45.9010,"lon":6.8700},{"lat":45.9010,"lon":6.8720}]},
      {"type":"way","id":2,"nodes":[12,13],"tags":{"highway":"track"},
       "geometry":[{"lat":45.9010,"lon":6.8720},{"lat":45.9030,"lon":6.8720}]},
      {"type":"node","id":10,"lat":45.9,"lon":6.87},
      {"type":"way","id":3,"tags":{"highway":"path"},"geometry":[{"lat":45.9,"lon":6.87}]}
    ]}"#;

fn num(x: f64) -> Real {
    Real { bits: x.to_bits() }
}

fn f(x: Real) -> f64 {
    f64::from_bits(x.bits)
}

fn ll(lat: f64, lon: f64) -> LatLon {
    LatLon::new(num(lat), num(lon))
}

fn cell_of(p: LatLon) -> Cell {
    (
        (f(p.lat) / INDEX_CELL_DEG).floor() as i32,
        (f(p.lon) / INDEX_CELL_DEG).floor() as i32,
    )
}

fn insert(net: &mut TrailNetwork, way: Way) {
    let cells: Vec<Cell> = way.points.iter().map(|p| cell_of(*p)).collect();
    net.insert(way, &cells);
}

fn network() -> TrailNetwork {
    let mut net = TrailNetwork::default();
    for way in parse_overpass(SAMPLE).unwrap() {
        insert(&mut net, way);
    }
    net
}

fn snap(net: &TrailNetwork, p: LatLon, max_dist_m: f64) -> Option<Snap> {
    let (lat, lon) = (f(p.lat), f(p.lon));
    let (mx, my) = (111_320.0 * lat.to_radians().cos(), 111_132.0f64);
    let cell_m = INDEX_CELL_DEG * my.min(mx);
    let reach = (max_dist_m / cell_m).ceil() as i32 + 1;
    net.snap(cell_of(p), reach, num(max_dist_m), |a: LatLon, b: LatLon| {
        let ax = (f(a.lon) - lon) * mx;
        let ay = (f(a.lat) - lat) * my;
        let bx = (f(b.lon) - lon) * mx;
        let by = (f(b.lat) - lat) * my;
        let (dx, dy) = (bx - ax, by - ay);
        let len2 = dx * dx + dy * dy;
        let t = if len2 <= f64::EPSILON {
            0.0
        } else {
            ((-ax * dx - ay * dy) / len2).clamp(0.0, 1.0)
        };
        let (px, py) = (ax + dx * t, ay + dy * t);
        let pos = ll(
            f(a.lat) + (f(b.lat) - f(a.lat)) * t,
            f(a.lon) + (f(b.lon) - f(a.lon)) * t,
        );
        (num(t), pos, num((px * px + py * py).sqrt()))
    })
}

fn zone_of(lat: f64, lon: f64) -> ZoneKey {
    ZoneKey {
        level: 0,
        lat: (lat / ZONE_DEG).floor() as i32,
        lon: (lon / ZONE_DEG).floor() as i32,
    }
}

#[test]
fn parsing_skips_nodes_and_degenerate_geometry() {
    let ways = parse_overpass(SAMPLE).unwrap();
    assert_eq!(ways.len(), 2, "the node and the one-point way are dropped");
    assert_eq!(ways[0].kind, WayKind::Path);
    assert_eq!(ways[0].name.as_deref(), Some("Test Trail"));
    assert_eq!(ways[0].nodes, vec![10, 11, 12]);
    assert_eq!(ways[1].kind, WayKind::Track);
}

#[test]
fn a_parsed_way_keeps_its_points_and_difficulty() {
    let ways = parse_overpass(SAMPLE).unwrap();
    assert_eq!(ways[0].sac_scale.as_deref(), Some("hiking"));
    assert_eq!(ways[1].sac_scale, None);
    assert_eq!(ways[0].points, vec![ll(45.9, 6.87), ll(45.901, 6.87), ll(45.901, 6.872)]);
    assert_eq!(f(ways[0].bounds.south), 45.9);
    assert_eq!(f(ways[0].bounds.east), 6.872);
}

#[test]
fn an_html_error_is_reported() {
    assert!(parse_overpass("<html>too busy</html>").is_err());
}

#[test]
fn a_broken_answer_says_that_it_is_no_json() {
    let e = parse_overpass("<html>too busy</html>").err().unwrap();
    assert!(e.starts_with("Overpass JSON: "), "{e}");
    let e = parse_overpass("{}").err().unwrap();
    assert!(!e.is_empty());
    let e = read_overpass(Err("cut".to_owned())).err().unwrap();
    assert_eq!(e, "Overpass JSON: cut");
}

#[test]
fn insertion_is_idempotent() {
    let mut net = network();
    for way in parse_overpass(SAMPLE).unwrap() {
        insert(&mut net, way);
    }
    assert_eq!(net.len(), 2);
}

#[test]
fn snapping_finds_the_nearest_segment() {
    let net = network();
    let click = ll(45.9005, 6.87019);
    let snap = snap(&net, click, SNAP_RADIUS_M).expect("must snap");
    assert_eq!(snap.way_id, 1);
    assert_eq!(snap.seg, 0);
    assert!(f(snap.dist_m) < 20.0, "dist = {}", f(snap.dist_m));
    assert!((f(snap.pos.lon) - 6.8700).abs() < 1e-6);
    assert!((f(snap.t) - 0.5).abs() < 0.05, "t = {}", f(snap.t));
}

#[test]
fn snapping_refuses_beyond_the_radius() {
    let net = network();
    assert!(snap(&net, ll(45.9005, 6.860), SNAP_RADIUS_M).is_none());
}

#[test]
fn segment_following_works_both_ways() {
    let net = network();
    let a = snap(&net, ll(45.9002, 6.8700), SNAP_RADIUS_M).unwrap();
    let b = snap(&net, ll(45.9010, 6.8715), SNAP_RADIUS_M).unwrap();
    let forward = net.follow(&a, &b).expect("same OSM way");
    assert!(forward.len() >= 3, "{forward:?}");
    assert!(forward
        .iter()
        .any(|p| (f(p.lat) - 45.9010).abs() < 1e-9 && (f(p.lon) - 6.8700).abs() < 1e-9));
    let backward = net.follow(&b, &a).unwrap();
    assert_eq!(backward.len(), forward.len());
    assert!((f(backward[0].lat) - f(forward.last().unwrap().lat)).abs() < 1e-9);
    let mut back = backward;
    back.reverse();
    assert_eq!(back, forward);
}

#[test]
fn no_following_between_different_ways() {
    let net = network();
    let a = snap(&net, ll(45.9002, 6.8700), SNAP_RADIUS_M).unwrap();
    let b = snap(&net, ll(45.9025, 6.8720), SNAP_RADIUS_M).unwrap();
    assert_eq!(b.way_id, 2);
    assert!(net.follow(&a, &b).is_none());
}

#[test]
fn a_segment_of_another_way_is_not_looked_at() {
    let net = network();
    let a = snap(&net, ll(45.9025, 6.8720), SNAP_RADIUS_M).unwrap();
    assert_eq!(net.way_by_id(a.way_id).unwrap().points.len(), 2);
    let mut b = a;
    b.way_id = 1;
    b.seg = 7;
    assert!(net.follow(&a, &b).is_none());
}

#[test]
fn a_way_is_found_by_its_id() {
    let net = network();
    assert_eq!(net.way_by_id(2).unwrap().points.len(), 2);
    assert!(net.way_by_id(3).is_none());
    assert_eq!(net.ways().len(), 2);
}

#[test]
fn a_way_meets_a_window_or_not() {
    let ways = parse_overpass(SAMPLE).unwrap();
    let near = Bounds {
        south: num(45.8),
        west: num(6.8),
        north: num(45.9),
        east: num(6.87),
    };
    assert!(ways[0].intersects(near), "corners that touch count");
    let far = Bounds {
        south: num(46.8),
        west: num(6.8),
        north: num(46.9),
        east: num(6.87),
    };
    assert!(!ways[0].intersects(far));
}

#[test]
fn points_of_an_archive_that_are_not_shared_get_ids_of_their_own() {
    let way = ArchiveWay {
        id: 7,
        kind: 1,
        sac: 3,
        name: None,
        points: vec![(1, 1), (2, 2), (3, 3)],
        shared: vec![Some(500), None, None],
    };
    let points = vec![ll(1.0, 1.0), ll(2.0, 2.0), ll(3.0, 3.0)];
    let mut counter = 0i64;
    let way = Way::from_archive(way, points, &mut counter).unwrap();
    assert_eq!(way.nodes, vec![500, -1, -2]);
    assert_eq!(counter, -2);
    assert_eq!(way.sac_scale.as_deref(), Some("demanding_mountain_hiking"));

    let bad = ArchiveWay {
        id: 8,
        kind: 1,
        sac: 0,
        name: None,
        points: vec![(1, 1)],
        shared: vec![None],
    };
    assert!(Way::from_archive(bad, vec![ll(1.0, 1.0)], &mut counter).is_none());
    assert_eq!(counter, -2);
}

#[test]
fn kinds_of_tags_and_codes_agree() {
    assert_eq!(WayKind::from_tag("bridleway"), WayKind::Path);
    assert_eq!(WayKind::from_tag("pedestrian"), WayKind::Footway);
    assert_eq!(WayKind::from_tag("motorway"), WayKind::Road);
    assert_eq!(WayKind::from_code(1), WayKind::Path);
    assert_eq!(WayKind::from_code(99), WayKind::Road);
    assert_eq!(WayKind::Path.color(), (180, 60, 200));
    assert_eq!(WayKind::Road.color(), (120, 120, 120));
}

#[test]
fn a_zone_contains_its_own_point() {
    let (lat, lon) = (45.9234, 6.8712);
    let (s, w, n, e) = zone_of(lat, lon).bbox();
    let deg = |x: i64| x as f64 / 10_000.0;
    assert!(deg(s) <= lat && lat < deg(n) && deg(w) <= lon && lon < deg(e));
    assert!((deg(n) - deg(s) - ZONE_DEG).abs() < 1e-12);
    assert_eq!(zone_of(lat, lon), zone_of(45.9236, 6.8714));
}

#[test]
fn the_overpass_query_is_well_formed() {
    let q = OverpassSource::query(zone_of(45.92, 6.87));
    assert!(q.contains("[out:json]"), "{q}");
    assert!(q.contains("out geom;"), "{q}");
    assert!(q.contains("(45.9200,6.8600,45.9400,6.8800)"), "{q}");
}

#[test]
fn numbers_with_four_places() {
    for (n, words) in [(459_200i64, "45.9200"), (-1, "-0.0001"), (0, "0.0000"), (-68_700, "-6.8700")] {
        let mut s = String::new();
        put_fixed4(&mut s, n);
        assert_eq!(s, words);
    }
}

fn distance_m(z: ZoneKey, lat: f64, lon: f64) -> i64 {
    let (s, w, n, e) = z.bbox();
    let deg = |x: i64| x as f64 / 10_000.0;
    let dy = (lat.clamp(deg(s), deg(n)) - lat) * 111_132.0;
    let dx = (lon.clamp(deg(w), deg(e)) - lon) * 111_320.0 * lat.to_radians().cos();
    (dx * dx + dy * dy).sqrt() as i64
}

fn steps(from: f64, to: f64) -> Vec<i32> {
    let mut out = Vec::new();
    let mut x = (from / ZONE_DEG).floor() * ZONE_DEG;
    while x <= to {
        out.push(((x + ZONE_DEG / 2.0) / ZONE_DEG).floor() as i32);
        x += ZONE_DEG;
    }
    out
}

#[test]
fn covering_zones_are_ordered_from_the_centre() {
    let store = TrailStore::overpass();
    let (lat, lon) = (45.92, 6.87);
    let grid = zone_grid(0, &steps(45.90, 45.94), &steps(6.85, 6.89));
    let dists: Vec<i64> = grid.iter().map(|z| distance_m(*z, lat, lon)).collect();
    let keys = nearest_first(&grid, &dists, zone_of(lat, lon));
    assert!(keys.len() >= 4, "{} zones", keys.len());
    assert_eq!(keys[0], zone_of(lat, lon), "the centre comes first");
    assert!(keys.contains(&zone_of(45.901, 6.851)));
    assert!(keys.contains(&zone_of(45.939, 6.889)));
    assert_eq!(store.stats(), (0, 0, 0, 0));
}

#[test]
fn equal_distances_keep_their_order() {
    let z = |lat: i32| ZoneKey { level: 0, lat, lon: 0 };
    let keys = nearest_first(&vec![z(1), z(2), z(3), z(4)], &vec![5, 3, 5, 9], z(4));
    assert_eq!(keys, vec![z(4), z(2), z(1), z(3)]);
}

#[test]
fn zones_of_two_sizes_have_different_codes() {
    let fine = ZoneKey { level: 0, lat: -5, lon: 7 };
    let coarse = ZoneKey { level: 1, lat: -5, lon: 7 };
    assert_ne!(fine.code(), coarse.code());
    assert_eq!(fine.size(), 200);
    assert_eq!(coarse.size(), 1000);
    assert_eq!(coarse.bbox(), (-5000, 7000, -4000, 8000));
}

#[test]
fn the_working_instance_is_remembered() {
    let mut src = OverpassSource::default();
    let n = src.endpoint_count();
    assert!(n >= 3, "the test needs a few instances");

    assert_eq!(src.endpoint_index(0), 0);
    assert_eq!(src.endpoint_index(1), 1);
    assert_eq!(src.endpoint_index(2), 2);

    src.note_success(2);
    assert_eq!(src.endpoint_index(0), 2, "the next zone must start there");
    assert_eq!(
        src.preferred_endpoint(),
        &src.endpoints[2],
        "and the panel must say so"
    );

    let visited: std::collections::HashSet<usize> =
        (0..n).map(|a| src.endpoint_index(a)).collect();
    assert_eq!(visited.len(), n, "a round must not skip or repeat: {visited:?}");
}

#[test]
fn a_page_of_text_does_not_speak_for_its_instance() {
    assert!(counts_as_success(&Ok("  {\"elements\":[]}".to_owned())));
    assert!(!counts_as_success(&Ok("<html>busy</html>".to_owned())));
    assert!(!counts_as_success(&Err("{".to_owned())));
}

#[test]
fn a_reply_is_its_text_or_why_there_is_none() {
    assert_eq!(overpass_reply(true, 200, "OK", Some("x".to_owned())).unwrap(), "x");
    assert_eq!(
        overpass_reply(false, 504, "Gateway Timeout", None).unwrap_err(),
        "HTTP 504 Gateway Timeout"
    );
    assert_eq!(
        overpass_reply(true, 200, "OK", None).unwrap_err(),
        "non-textual response"
    );
}

fn fine(lat: i32) -> ZoneKey {
    ZoneKey { level: 0, lat, lon: 0 }
}

#[test]
fn two_requests_fly_and_the_rest_wait() {
    let mut store = TrailStore::new(3);
    let keys: Vec<ZoneKey> = (0..5).map(fine).collect();
    assert_eq!(store.ensure_zones(&keys, 4, 0), 4);
    assert_eq!(store.take_requests().len(), MAX_IN_FLIGHT);
    assert_eq!(store.stats().1, 4);
    assert!(store.is_waiting());
    assert_eq!(store.ensure_zones(&keys, 4, 0), 0, "asked for already");
}

#[test]
fn a_reply_loads_its_zone() {
    let mut store = TrailStore::new(3);
    store.ensure(fine(1), ZoneKey { level: 1, lat: 0, lon: 0 }, 0);
    assert_eq!(store.take_requests(), vec![(fine(1), 0)]);
    assert!(store.pump(&vec![(fine(1), 0, Ok(SAMPLE.to_owned()))], 1, cell_of));
    assert!(store.zone_ready(fine(1), ZoneKey { level: 1, lat: 0, lon: 0 }));
    assert_eq!(store.net().len(), 2);
    assert_eq!(store.zones_loaded(&vec![fine(1), fine(2)]), 1);
    assert!(!store.is_waiting());
}

#[test]
fn every_instance_is_tried_before_a_zone_is_given_up() {
    let mut store = TrailStore::new(3);
    store.ensure(fine(1), ZoneKey { level: 1, lat: 0, lon: 0 }, 0);
    for attempt in 0..3 {
        let sent = store.take_requests();
        assert_eq!(sent, vec![(fine(1), attempt)]);
        assert!(store.zone_failed(fine(1)).is_none());
        store.pump(&vec![(fine(1), attempt, Err("busy".to_owned()))], 1, cell_of);
    }
    assert!(store.take_requests().is_empty());
    assert_eq!(store.zone_failed(fine(1)), Some("busy"));
    assert_eq!(store.last_error().as_deref(), Some("busy"));
    assert_eq!(store.stats().2, 1);
    store.retry_failed(2);
    assert_eq!(store.take_requests(), vec![(fine(1), 0)]);
    assert!(store.zone_failed(fine(1)).is_none());
}

#[test]
fn a_request_that_hangs_is_abandoned() {
    let mut store = TrailStore::new(2);
    store.ensure(fine(1), ZoneKey { level: 1, lat: 0, lon: 0 }, 0);
    store.take_requests();
    store.pump(&vec![], REQUEST_TIMEOUT_NS - 1, cell_of);
    assert!(store.take_requests().is_empty());
    store.pump(&vec![], REQUEST_TIMEOUT_NS + 1, cell_of);
    assert_eq!(store.take_requests(), vec![(fine(1), 1)], "the next instance is asked");
    assert!(!store.pump(&vec![(fine(1), 0, Ok(SAMPLE.to_owned()))], REQUEST_TIMEOUT_NS + 2, cell_of));
    assert_eq!(store.net().len(), 0, "a late reply is ignored");
}

#[test]
fn a_click_goes_ahead_of_a_basin() {
    let mut store = TrailStore::new(3);
    let large = |lat: i32| ZoneKey { level: 1, lat, lon: 0 };
    store.ensure_zones(&vec![large(1), large(2), large(3), large(4)], 4, 0);
    store.take_requests();
    store.ensure(fine(9), large(9), 0);
    assert!(store.take_requests().is_empty(), "both slots are taken");
    let nothing = "{\"elements\":[]}".to_owned();
    store.pump(&vec![(large(1), 0, Ok(nothing))], 1, cell_of);
    assert_eq!(store.take_requests(), vec![(fine(9), 0)]);
}

#[test]
fn asking_again_for_an_area_forgives() {
    let mut store = TrailStore::new(1);
    store.ensure(fine(1), ZoneKey { level: 1, lat: 0, lon: 0 }, 0);
    store.take_requests();
    store.pump(&vec![(fine(1), 0, Err("busy".to_owned()))], 1, cell_of);
    assert!(store.zone_failed(fine(1)).is_some());
    assert_eq!(store.ensure_some(&vec![fine(1)], 3, 2), 0);
    assert_eq!(store.ensure_area(&vec![fine(1)], 3, 2), 1);
    assert_eq!(store.take_requests(), vec![(fine(1), 0)]);
}

#[test]
fn nothing_is_within_no_reach() {
    let net = network();
    let near = |reach: i32| {
        net.snap(cell_of(ll(45.9002, 6.8700)), reach, num(60.0), |a: LatLon, _: LatLon| {
            (num(0.0), a, num(1.0))
        })
    };
    assert!(near(-1).is_none());
    assert_eq!(near(0).unwrap().way_id, 1);
    assert_eq!(near(300).unwrap().dist_m, num(1.0));
}

#[test]
fn a_way_that_comes_again_changes_nothing() {
    let mut net = network();
    let again = net.ways()[0].clone();
    let cells = vec![(0, 0); again.points.len()];
    net.insert(again, &cells);
    assert_eq!(net.len(), 2);
    assert!(net.candidates((0, 0), 0).is_empty(), "nor is it looked for elsewhere");
}
