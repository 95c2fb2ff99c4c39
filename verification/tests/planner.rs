//! What the planner decides.
use trackfinder::geo::LatLon;
use trackfinder::number::Real;
use trackfinder::planner::click::ClickWords;
use trackfinder::planner::loading::{
    load_isochrone_area, load_visible_zones, AUTO_TRAILS_MIN_ZOOM, BASIN_STEP, MAX_BASIN_ZONES,
    MAX_VISIBLE_ZONES,
};
use trackfinder::planner::sketch::follow;
use trackfinder::planner::{
    auto_load, auto_trails_hint, await_zone, grow_basin, host_of, place_click, thinned, AutoLoad,
    Basin, Bivouac, PendingClick, ViewScan,
};
use trackfinder::track::{Track, Waypoint};
use trackfinder::trails::zone::{nearest_first, zone_grid};
use trackfinder::trails::{Snap, TrailStore, ZoneKey};

const CHAMONIX: (f64, f64) = (45.92, 6.87);
const COARSE_DEG: f64 = 0.10;
const FINE_DEG: f64 = 0.02;
const BASIN_BOOTSTRAP_M: f64 = 5_000.0;
const BASIN_MARGIN_M: f64 = 11_000.0;

fn num(x: f64) -> Real {
    Real { bits: x.to_bits() }
}

fn f(x: Real) -> f64 {
    f64::from_bits(x.bits)
}

fn ll(lat: f64, lon: f64) -> LatLon {
    LatLon::new(num(lat), num(lon))
}

fn chamonix() -> LatLon {
    ll(CHAMONIX.0, CHAMONIX.1)
}

fn cell(_: LatLon) -> (i32, i32) {
    (0, 0)
}

fn zone_of(p: LatLon, level: u8) -> ZoneKey {
    let size = if level == 0 { FINE_DEG } else { COARSE_DEG };
    ZoneKey {
        level,
        lat: (f(p.lat) / size).floor() as i32,
        lon: (f(p.lon) / size).floor() as i32,
    }
}

fn distance_m(z: ZoneKey, p: LatLon) -> f64 {
    let (s, w, n, e) = z.bbox();
    let dy = ((s + n) as f64 / 20_000.0 - f(p.lat)) * 111_132.0;
    let dx = ((w + e) as f64 / 20_000.0 - f(p.lon)) * 111_320.0 * f(p.lat).to_radians().cos();
    (dx * dx + dy * dy).sqrt()
}

fn steps(from: f64, to: f64) -> Vec<i32> {
    let mut out = Vec::new();
    let mut x = (from / COARSE_DEG).floor() * COARSE_DEG;
    while x <= to {
        out.push(((x + COARSE_DEG / 2.0) / COARSE_DEG).floor() as i32);
        x += COARSE_DEG;
    }
    out
}

fn area_zones(center: LatLon, radius_m: f64) -> Vec<ZoneKey> {
    let dlat = radius_m / 111_132.0;
    let dlon = radius_m / (111_320.0 * f(center.lat).to_radians().cos()).max(1.0);
    let rows = steps(f(center.lat) - dlat, f(center.lat) + dlat);
    let cols = steps(f(center.lon) - dlon, f(center.lon) + dlon);
    let grid = zone_grid(1, &rows, &cols);
    let dists: Vec<i64> = grid.iter().map(|z| distance_m(*z, center) as i64).collect();
    nearest_first(&grid, &dists, zone_of(center, 1))
}

/// A position on the square that the whole world is drawn on.
fn world(lat: f64, lon: f64) -> (f64, f64) {
    let r = lat.to_radians();
    (
        (lon + 180.0) / 360.0,
        (1.0 - (r.tan() + 1.0 / r.cos()).ln() / std::f64::consts::PI) / 2.0,
    )
}

/// One settled frame: what is loaded on its own around the last point.
fn frame(basin: &mut Option<Basin>, trails: &mut TrailStore, anchor: LatLon, budget_h: f64) {
    let theoretical = budget_h * 5.0 * 1000.0;
    grow_basin(
        basin,
        trails,
        anchor,
        num(0.0),
        |at: LatLon, reach: Real| {
            let radius = (f(reach) + BASIN_MARGIN_M)
                .max(BASIN_BOOTSTRAP_M)
                .min(theoretical.max(BASIN_BOOTSTRAP_M));
            (num(radius), area_zones(at, radius))
        },
        |x: Real| num(f(x) + 1.0),
        0,
    );
}

#[test]
fn auto_loading_waits_for_a_settled_close_view() {
    let mut scan = ViewScan::new();
    let zone = zone_of(chamonix(), 0);
    assert_eq!(auto_load(true, true, true, None), AutoLoad::View);
    assert!(!scan.due(zone, 9), "no request should go out at z9");
    assert!(auto_trails_hint(true, false, 9).is_some());

    assert_eq!(auto_load(true, true, false, None), AutoLoad::Nothing, "a moving view must not fetch");

    assert_eq!(auto_load(false, true, true, None), AutoLoad::Nothing);
    assert!(auto_trails_hint(false, false, 15).is_none());
    assert_eq!(auto_load(true, false, true, None), AutoLoad::Nothing, "there is no map yet");
}

#[test]
fn auto_loading_scans_once_per_zone() {
    let mut scan = ViewScan::new();
    let zone = zone_of(chamonix(), 0);
    assert!(scan.due(zone, 15));
    let mut store = TrailStore::new(3);
    let keys = zone_grid(0, &vec![0, 1, 2, 3, 4], &vec![0, 1, 2, 3]);
    assert!(load_visible_zones(&mut store, &keys, false, 0).is_none());
    let after_first = store.stats().1;
    assert!(after_first > 0, "a settled close view must load its trails");
    assert!(after_first <= MAX_VISIBLE_ZONES, "{after_first} zones exceeds the cap");
    for _ in 0..10 {
        assert!(!scan.due(zone, 15), "staying still must not queue anything more");
    }
    assert!(scan.due(zone, 14), "another zoom is another view");
}

#[test]
fn it_opens_on_the_whole_alps_without_fetching_trails() {
    let (width, height) = (1280.0, 900.0);
    let (sw, ne) = ((43.95, 5.35), (46.45, 7.75));
    let (nw, se) = (world(ne.0, sw.1), world(sw.0, ne.1));
    let center = ((nw.0 + se.0) / 2.0, (nw.1 + se.1) / 2.0);
    let fit = (width / (se.0 - nw.0)).min(height / (se.1 - nw.1)) * 0.92;
    let zoom = ((fit / 256.0).log2() as f32).clamp(3.0, 19.0);
    let scale = 256.0 * 2f64.powf(zoom as f64);

    for (lat, lon) in [(45.92, 6.87), (45.19, 5.72), (44.09, 7.20)] {
        let p = world(lat, lon);
        let x = width / 2.0 + (p.0 - center.0) * scale;
        let y = height / 2.0 + (p.1 - center.1) * scale;
        assert!(
            (0.0..=width).contains(&x) && (0.0..=height).contains(&y),
            "{lat} {lon} is off screen at {x} {y}"
        );
    }
    let zoom = zoom.round().clamp(0.0, 19.0) as u8;
    assert!(zoom < AUTO_TRAILS_MIN_ZOOM, "opening zoom z{zoom} would trigger Overpass");
    assert_eq!(auto_load(true, true, true, None), AutoLoad::View);
    assert!(!ViewScan::new().due(zone_of(chamonix(), 0), zoom), "opening must not fetch");
    assert_eq!(TrailStore::overpass().stats().1, 0);
}

#[test]
fn auto_loading_follows_the_last_point_not_the_view() {
    let mut trails = TrailStore::new(3);
    let mut basin = None;
    assert_eq!(
        auto_load(true, true, true, Some(chamonix())),
        AutoLoad::Around(chamonix())
    );
    frame(&mut basin, &mut trails, chamonix(), 3.0);
    let zones = trails.take_requests();
    assert!(!zones.is_empty(), "the basin must start loading");
    let elsewhere = ll(44.10, 6.20);
    for (zone, _) in &zones {
        assert!(distance_m(*zone, chamonix()) < 25_000.0, "{zone:?} is not around the anchor");
        assert!(
            distance_m(*zone, elsewhere) > 100_000.0,
            "{zone:?} follows the view instead of the point"
        );
    }
    assert!(auto_trails_hint(true, true, 9).is_none());
}

#[test]
fn the_basin_grows_a_few_zones_at_a_time() {
    let mut trails = TrailStore::new(3);
    let mut basin = None;
    frame(&mut basin, &mut trails, chamonix(), 3.0);
    let after_first = trails.stats().1;
    assert!(after_first > 0 && after_first <= BASIN_STEP, "{after_first}");
    for _ in 0..20 {
        frame(&mut basin, &mut trails, chamonix(), 3.0);
    }
    assert_eq!(
        trails.stats().1,
        after_first,
        "nothing more may go out while zones are in flight"
    );
    assert!(trails.take_requests().len() <= BASIN_STEP);
}

#[test]
fn the_basin_stops_when_the_isochrone_stops_growing() {
    let mut trails = TrailStore::new(3);
    let mut basin = None;
    let mut asked = 0;
    for _ in 0..30 {
        frame(&mut basin, &mut trails, chamonix(), 3.0);
        let replies = trails
            .take_requests()
            .iter()
            .map(|(z, a)| (*z, *a, Ok("{\"elements\":[]}".to_owned())))
            .collect::<Vec<_>>();
        asked += replies.len();
        trails.pump(&replies, 0, cell);
    }
    let basin = basin.expect("a basin");
    assert!(basin.complete, "the basin must converge, not grind on");
    assert!(basin.asked <= MAX_BASIN_ZONES, "{}", basin.asked);
    assert!(asked <= MAX_BASIN_ZONES, "{asked} zones requested");
    let (text, partial) = basin.status("14");
    assert!(text.contains("basin"), "{text}");
    assert!(!partial, "a converged basin is not partial: {text}");
    assert!(!text.contains("growing"), "{text}");
    assert!(basin.loaded > 0, "zones landed but none counted: {text}");
}

#[test]
fn a_new_point_restarts_the_basin() {
    let mut trails = TrailStore::new(3);
    let mut basin = None;
    frame(&mut basin, &mut trails, chamonix(), 3.0);
    assert_eq!(basin.as_ref().unwrap().anchor, chamonix());

    let next = ll(45.98, 6.95);
    frame(&mut basin, &mut trails, next, 3.0);
    let basin = basin.as_ref().unwrap();
    assert_eq!(basin.anchor, next);
    assert!(!basin.complete);
    assert_eq!(basin.asked, 0);
}

#[test]
fn the_basin_never_exceeds_its_ceiling() {
    let mut trails = TrailStore::new(3);
    let mut basin = None;
    frame(&mut basin, &mut trails, chamonix(), 10.0);
    basin.as_mut().unwrap().asked = MAX_BASIN_ZONES;
    trails.take_requests();
    for _ in 0..50 {
        frame(&mut basin, &mut trails, chamonix(), 10.0);
    }
    assert!(trails.take_requests().is_empty(), "the ceiling must hold");
}

#[test]
fn a_basin_that_grows_says_so() {
    let mut basin = Basin::new(chamonix());
    basin.loaded = 3;
    assert_eq!(
        basin.status("12").0,
        "basin 3 zones · 12 km around the last point · growing"
    );
    basin.complete = true;
    assert_eq!(basin.status("12").0, "basin 3 zones · 12 km around the last point");
}

#[test]
fn the_button_says_what_it_did() {
    let mut store = TrailStore::new(3);
    let few = zone_grid(0, &vec![0, 1], &vec![0]);
    let words = load_visible_zones(&mut store, &few, true, 0).unwrap();
    assert_eq!(words, "2 zone(s) requested");
    let words = load_visible_zones(&mut store, &few, true, 0).unwrap();
    assert_eq!(words, "Visible trails already loaded");
    let many = zone_grid(0, &vec![0, 1, 2, 3], &vec![0, 1, 2, 3]);
    let words = load_visible_zones(&mut store, &many, true, 0).unwrap();
    assert_eq!(
        words,
        "View too wide: 12 of 16 zones requested, zoom in for the rest"
    );

    let mut store = TrailStore::new(3);
    let area = zone_grid(1, &vec![0, 1, 2, 3], &vec![0, 1, 2, 3]);
    let words = load_isochrone_area(&mut store, &area, "15", 0);
    assert_eq!(words, "9 zone(s) requested over a ~15 km radius");
    let words = load_isochrone_area(&mut store, &area, "15", 0);
    assert_eq!(words, "Basin already loaded");
}

fn snap_at(p: LatLon) -> Snap {
    Snap {
        way_id: 1,
        seg: 0,
        t: num(0.0),
        pos: p,
        dist_m: num(3.0),
    }
}

fn words() -> ClickWords {
    ClickWords {
        radius_m: "60".to_owned(),
        dist_m: "3".to_owned(),
        leg_km: "1.25".to_owned(),
    }
}

#[test]
fn a_click_waits_for_its_zone() {
    let (fine, coarse) = (zone_of(chamonix(), 0), zone_of(chamonix(), 1));
    let mut trails = TrailStore::new(1);
    let mut click = PendingClick::new();
    assert!(!await_zone(&mut click, &trails, fine, coarse));
    click.clicked(chamonix());
    trails.ensure(fine, coarse, 0);
    assert!(!await_zone(&mut click, &trails, fine, coarse));
    assert!(click.at.is_some(), "still waiting");
    trails.pump(&vec![(fine, 0, Ok("{\"elements\":[]}".to_owned()))], 0, cell);
    assert!(await_zone(&mut click, &trails, fine, coarse));
    assert!(click.at.is_none());

    let mut trails = TrailStore::new(1);
    click.clicked(chamonix());
    trails.ensure(fine, coarse, 0);
    trails.pump(&vec![(fine, 0, Err("busy".to_owned()))], 0, cell);
    assert!(!await_zone(&mut click, &trails, fine, coarse));
    assert!(click.at.is_none());
    assert_eq!(click.status.as_deref(), Some("Trails unavailable: busy"));
}

#[test]
fn a_click_becomes_a_waypoint() {
    let mut track = Track::default();
    let mut click = PendingClick::new();
    assert!(!place_click(&mut click, &mut track, None, None, &words()));
    assert_eq!(
        click.status.as_deref(),
        Some("No trail within 60 m — point refused")
    );
    assert!(track.waypoints.is_empty());

    assert!(place_click(&mut click, &mut track, Some(snap_at(chamonix())), None, &words()));
    assert_eq!(
        click.status.as_deref(),
        Some("Start snapped 3 m from the click")
    );

    let line = vec![chamonix(), ll(45.93, 6.87)];
    let there = Some(snap_at(ll(45.93, 6.87)));
    assert!(place_click(&mut click, &mut track, there, Some(line.clone()), &words()));
    assert_eq!(
        click.status.as_deref(),
        Some("Leg drawn along trails: 1.25 km")
    );
    assert_eq!(track.waypoints[1].via, Some(line));

    assert!(place_click(&mut click, &mut track, Some(snap_at(chamonix())), None, &words()));
    assert_eq!(
        click.status.as_deref(),
        Some("Outside the isochrone (or incomplete graph) — direct link")
    );
    assert_eq!(track.waypoints.len(), 3);
    assert!(track.dirty);
    click.say("hello".to_owned());
    assert_eq!(click.status.as_deref(), Some("hello"));
    track.push(Waypoint::free(chamonix()));
}

#[test]
fn points_inside_a_pixel_are_left_out() {
    let x = [0.0f64, 0.5, 1.0, 3.0, 3.5, 4.0];
    let far = |a: usize, b: usize| (x[b] - x[a]).abs() >= 2.0;
    assert_eq!(thinned(6, far), vec![0, 3, 5], "the last point is always kept");
    assert_eq!(thinned(0, far), Vec::<usize>::new());
    assert_eq!(thinned(1, far), vec![0]);
}

#[test]
fn another_point_is_another_bivouac() {
    let known = Bivouac {
        at: chamonix(),
        analysis: Some(7u8),
    };
    assert_eq!(follow(Some(known), Some(chamonix())).unwrap().analysis, Some(7));
    let other = follow(Some(known), Some(ll(45.0, 6.0))).unwrap();
    assert_eq!(other.at, ll(45.0, 6.0));
    assert_eq!(other.analysis, None);
    assert!(follow(Some(known), None).is_none());
    assert!(follow::<u8>(None, Some(chamonix())).is_some());
}

#[test]
fn the_host_of_an_address() {
    assert_eq!(host_of("https://overpass-api.de/api/interpreter"), "overpass-api.de");
    assert_eq!(host_of("https://plain"), "plain");
    assert_eq!(host_of("https://https://twice/x"), "twice");
    assert_eq!(host_of("http://other/x"), "http:");
    assert_eq!(host_of(""), "");
}
